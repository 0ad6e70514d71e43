//! Walking a program's import graph: which file to read next, which import
//! is already loaded (a diamond), and which closes a cycle. The caller reads
//! and lexes the files; this module makes the decisions.
use vstd::prelude::*;

use crate::text::str_eq;

verus! {

/// Where the walk stands: the files already loaded, and the files being
/// loaded, each importing the next (all by canonical path).
pub struct LoadState {
    pub loaded: Vec<String>,
    pub stack: Vec<String>,
}

/// What happened since the last step.
pub enum LoadEvent {
    /// An import (or the entry point) names this file.
    Visit(String),
    /// The file on top of the stack has been read and all its imports walked.
    Finished,
}

/// What the caller does next.
pub enum LoadAction {
    /// The file is already loaded: nothing to read.
    AlreadyLoaded,
    /// Read and lex this file, then visit each of its imports, then finish it.
    Read(String),
    /// The import closes a cycle: the files from the first one on the stack
    /// that is the visited file, then the visited file again. The load fails.
    Cycle(Vec<String>),
    /// This file is now loaded.
    Loaded(String),
    /// Nothing was being loaded.
    Idle,
}

pub open spec fn names(files: Seq<String>) -> Seq<Seq<char>> {
    files.map_values(|file: String| file@)
}

pub struct LoadStateModel {
    pub loaded: Seq<Seq<char>>,
    pub stack: Seq<Seq<char>>,
}

pub enum LoadEventModel {
    Visit(Seq<char>),
    Finished,
}

pub enum LoadActionModel {
    AlreadyLoaded,
    Read(Seq<char>),
    Cycle(Seq<Seq<char>>),
    Loaded(Seq<char>),
    Idle,
}

impl View for LoadState {
    type V = LoadStateModel;

    open spec fn view(&self) -> LoadStateModel {
        LoadStateModel { loaded: names(self.loaded@), stack: names(self.stack@) }
    }
}

impl View for LoadEvent {
    type V = LoadEventModel;

    open spec fn view(&self) -> LoadEventModel {
        match self {
            LoadEvent::Visit(file) => LoadEventModel::Visit(file@),
            LoadEvent::Finished => LoadEventModel::Finished,
        }
    }
}

impl View for LoadAction {
    type V = LoadActionModel;

    open spec fn view(&self) -> LoadActionModel {
        match self {
            LoadAction::AlreadyLoaded => LoadActionModel::AlreadyLoaded,
            LoadAction::Read(file) => LoadActionModel::Read(file@),
            LoadAction::Cycle(files) => LoadActionModel::Cycle(names(files@)),
            LoadAction::Loaded(file) => LoadActionModel::Loaded(file@),
            LoadAction::Idle => LoadActionModel::Idle,
        }
    }
}

/// The place of the first `file` in `files`, or its length.
pub open spec fn first_place(files: Seq<Seq<char>>, file: Seq<char>) -> int
    decreases files.len(),
{
    if files.len() == 0 {
        0
    } else if files[0] == file {
        0
    } else {
        1 + first_place(files.drop_first(), file)
    }
}

/// One step of the walk: a visited file that is loaded needs nothing; one
/// on the stack closes a cycle (from its first place on the stack, then
/// itself); any other is pushed and read. A finished file leaves the stack
/// and joins the loaded ones.
pub open spec fn load_step_spec(state: LoadStateModel, event: LoadEventModel) -> (LoadStateModel, LoadActionModel) {
    match event {
        LoadEventModel::Visit(file) => if state.loaded.contains(file) {
            (state, LoadActionModel::AlreadyLoaded)
        } else if state.stack.contains(file) {
            (
                state,
                LoadActionModel::Cycle(state.stack.skip(first_place(state.stack, file)).push(file)),
            )
        } else {
            (LoadStateModel { stack: state.stack.push(file), ..state }, LoadActionModel::Read(file))
        },
        LoadEventModel::Finished => if state.stack.len() > 0 {
            (
                LoadStateModel { loaded: state.loaded.push(state.stack.last()), stack: state.stack.drop_last() },
                LoadActionModel::Loaded(state.stack.last()),
            )
        } else {
            (state, LoadActionModel::Idle)
        },
    }
}

proof fn lemma_first_place(files: Seq<Seq<char>>, file: Seq<char>)
    ensures
        0 <= first_place(files, file) <= files.len(),
        forall|k: int| 0 <= k < first_place(files, file) ==> files[k] != file,
        first_place(files, file) < files.len() ==> files[first_place(files, file)] == file,
        files.contains(file) <==> first_place(files, file) < files.len(),
    decreases files.len(),
{
    if files.len() > 0 && files[0] != file {
        lemma_first_place(files.drop_first(), file);
        assert forall|k: int| 0 <= k < first_place(files, file) implies files[k] != file by {
            if k > 0 {
                assert(files[k] == files.drop_first()[k - 1]);
            }
        }
        if files.contains(file) {
            let k = choose|k: int| 0 <= k < files.len() && files[k] == file;
            assert(files.drop_first()[k - 1] == file);
        }
        if first_place(files, file) < files.len() {
            assert(files[first_place(files, file)] == files.drop_first()[first_place(files.drop_first(), file)]);
        }
    } else if files.len() > 0 {
        assert(files.contains(file));
    }
}

/// Where `file` first is in `files`, or their length.
fn find_file(files: &Vec<String>, file: &str) -> (place: usize)
    ensures
        place == first_place(names(files@), file@),
{
    proof {
        lemma_first_place(names(files@), file@);
    }
    let mut k: usize = 0;
    while k < files.len()
        invariant
            k <= files@.len(),
            forall|m: int| 0 <= m < k ==> names(files@)[m] != file@,
            0 <= first_place(names(files@), file@) <= files@.len(),
            forall|m: int| 0 <= m < first_place(names(files@), file@) ==> names(files@)[m] != file@,
            first_place(names(files@), file@) < files@.len() ==> names(files@)[first_place(names(files@), file@)]
                == file@,
        decreases files@.len() - k,
    {
        assert(names(files@)[k as int] == files@[k as int]@);
        if str_eq(files[k].as_str(), file) {
            return k;
        }
        k += 1;
    }
    k
}

/// Takes the walk one step: what the state becomes and what to do next.
pub fn load_step(state: LoadState, event: LoadEvent) -> (out: (LoadState, LoadAction))
    ensures
        (out.0@, out.1@) == load_step_spec(state@, event@),
{
    let ghost before = state@;
    let LoadState { mut loaded, mut stack } = state;
    match event {
        LoadEvent::Visit(file) => {
            proof {
                lemma_first_place(names(loaded@), file@);
                lemma_first_place(names(stack@), file@);
            }
            let in_loaded = find_file(&loaded, file.as_str());
            if in_loaded < loaded.len() {
                return (LoadState { loaded, stack }, LoadAction::AlreadyLoaded);
            }
            let start = find_file(&stack, file.as_str());
            if start < stack.len() {
                let mut cycle: Vec<String> = Vec::new();
                let mut k = start;
                while k < stack.len()
                    invariant
                        start <= k <= stack@.len(),
                        names(cycle@) == names(stack@).subrange(start as int, k as int),
                    decreases stack@.len() - k,
                {
                    let ghost before_cycle = cycle@;
                    let copy = stack[k].clone();
                    assert(copy@ == names(stack@)[k as int]);
                    cycle.push(copy);
                    assert(names(cycle@) =~= names(before_cycle).push(copy@));
                    assert(names(cycle@) =~= names(stack@).subrange(start as int, k + 1));
                    k += 1;
                }
                let ghost partial = names(cycle@);
                cycle.push(file);
                assert(names(cycle@) =~= partial.push(names(cycle@).last()));
                assert(names(stack@).skip(start as int) =~= names(stack@).subrange(start as int, stack@.len() as int));
                return (LoadState { loaded, stack }, LoadAction::Cycle(cycle));
            }
            let read = file.clone();
            stack.push(file);
            assert(names(stack@) =~= before.stack.push(read@));
            (LoadState { loaded, stack }, LoadAction::Read(read))
        },
        LoadEvent::Finished => {
            match stack.pop() {
                Some(top) => {
                    loaded.push(top.clone());
                    assert(names(loaded@) =~= before.loaded.push(before.stack.last()));
                    assert(names(stack@) =~= before.stack.drop_last());
                    (LoadState { loaded, stack }, LoadAction::Loaded(top))
                },
                None => (LoadState { loaded, stack }, LoadAction::Idle),
            }
        },
    }
}

/// A well-formed walk: no file is both loaded and on the stack, and none is
/// on the stack twice.
pub open spec fn walk_wf(state: LoadStateModel) -> bool {
    &&& forall|k: int| 0 <= k < state.stack.len() ==> !state.loaded.contains(#[trigger] state.stack[k])
    &&& forall|a: int, b: int| 0 <= a < b < state.stack.len() ==> state.stack[a] != state.stack[b]
}

/// Every step keeps the walk well formed, and a visit fails with a cycle
/// exactly when the file is on the stack and not yet loaded; the cycle runs
/// from the file's place on the stack to the top, then the file again.
pub proof fn lemma_load_step_laws(state: LoadStateModel, event: LoadEventModel)
    requires
        walk_wf(state),
    ensures
        walk_wf(load_step_spec(state, event).0),
        event matches LoadEventModel::Visit(file) ==> (
            (load_step_spec(state, event).1 is Cycle) <==> (state.stack.contains(file) && !state.loaded.contains(file))),
        event matches LoadEventModel::Visit(file) ==> (state.stack.contains(file) && !state.loaded.contains(file) ==> {
            let cycle = load_step_spec(state, event).1->Cycle_0;
            &&& cycle.len() >= 2
            &&& cycle[0] == file
            &&& cycle.last() == file
        }),
{
    let next = load_step_spec(state, event).0;
    match event {
        LoadEventModel::Visit(file) => {
            lemma_first_place(state.stack, file);
            if !state.loaded.contains(file) && !state.stack.contains(file) {
                assert forall|k: int| 0 <= k < next.stack.len() implies !next.loaded.contains(
                    #[trigger] next.stack[k],
                ) by {
                    if k < state.stack.len() {
                        assert(next.stack[k] == state.stack[k]);
                    }
                }
                assert forall|a: int, b: int| 0 <= a < b < next.stack.len() implies next.stack[a]
                    != next.stack[b] by {
                    if b == state.stack.len() {
                        assert(state.stack[a] == next.stack[a]);
                    }
                }
            }
        },
        LoadEventModel::Finished => {
            if state.stack.len() > 0 {
                let top = state.stack.last();
                assert forall|k: int| 0 <= k < next.stack.len() implies !next.loaded.contains(
                    #[trigger] next.stack[k],
                ) by {
                    assert(next.stack[k] == state.stack[k]);
                    assert(state.stack[k] != state.stack[state.stack.len() - 1]);
                    if next.loaded.contains(next.stack[k]) {
                        let m = choose|m: int| 0 <= m < next.loaded.len() && next.loaded[m] == next.stack[k];
                        if m < state.loaded.len() {
                            assert(state.loaded[m] == state.stack[k]);
                        }
                    }
                }
                assert forall|a: int, b: int| 0 <= a < b < next.stack.len() implies next.stack[a]
                    != next.stack[b] by {
                    assert(next.stack[a] == state.stack[a]);
                    assert(next.stack[b] == state.stack[b]);
                }
            }
        },
    }
}

} // verus!
