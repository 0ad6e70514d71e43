use bitterasm::loader::{load_step, LoadAction, LoadEvent, LoadState};

fn visit(state: LoadState, file: &str) -> (LoadState, LoadAction) {
    load_step(state, LoadEvent::Visit(file.to_string()))
}

fn finish(state: LoadState) -> (LoadState, LoadAction) {
    load_step(state, LoadEvent::Finished)
}

#[test]
fn a_diamond_loads_the_shared_file_once() {
    // main imports a and b; both import shared.
    let state = LoadState { loaded: vec![], stack: vec![] };
    let (state, action) = visit(state, "main");
    assert!(matches!(action, LoadAction::Read(ref f) if f == "main"));
    let (state, _) = visit(state, "a");
    let (state, action) = visit(state, "shared");
    assert!(matches!(action, LoadAction::Read(ref f) if f == "shared"));
    let (state, action) = finish(state);
    assert!(matches!(action, LoadAction::Loaded(ref f) if f == "shared"));
    let (state, _) = finish(state);
    let (state, _) = visit(state, "b");
    let (state, action) = visit(state, "shared");
    assert!(matches!(action, LoadAction::AlreadyLoaded));
    let (state, _) = finish(state);
    let (state, action) = finish(state);
    assert!(matches!(action, LoadAction::Loaded(ref f) if f == "main"));
    assert_eq!(state.loaded, vec!["shared", "a", "b", "main"]);
    assert!(state.stack.is_empty());
    let (_, action) = finish(state);
    assert!(matches!(action, LoadAction::Idle));
}

#[test]
fn an_import_back_onto_the_stack_is_a_cycle() {
    let state = LoadState { loaded: vec![], stack: vec![] };
    let (state, _) = visit(state, "main");
    let (state, _) = visit(state, "a");
    let (state, _) = visit(state, "b");
    let (state, action) = visit(state, "a");
    match action {
        LoadAction::Cycle(cycle) => assert_eq!(cycle, vec!["a", "b", "a"]),
        _ => panic!("expected a cycle"),
    }
    assert_eq!(state.stack, vec!["main", "a", "b"]);
}
