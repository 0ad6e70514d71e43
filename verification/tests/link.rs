use bitterasm::emit::{EmittedEntry, EmittedValue};
use bitterasm::link::rewrite::DEFERRED;
use bitterasm::link::{link, LinkInput};

fn num(value: &str) -> EmittedValue {
    EmittedValue::Int { value: value.to_string() }
}

fn entry(value: EmittedValue, section: Option<&str>) -> EmittedEntry {
    EmittedEntry { value, section: section.map(str::to_string) }
}

fn input(file: &str, entries: Vec<EmittedEntry>, labels: &[(&str, usize)]) -> LinkInput {
    LinkInput {
        file: file.to_string(),
        entries,
        labels: labels.iter().map(|(name, position)| (name.to_string(), *position)).collect(),
    }
}

fn deferred(module: &str, symbol: &str) -> EmittedValue {
    EmittedValue::Deferred { module: module.to_string(), symbol: symbol.to_string() }
}

fn pos(position: &str) -> EmittedValue {
    EmittedValue::Enum {
        id: DEFERRED.to_string(),
        args: vec![],
        variant: "Pos".to_string(),
        payload: Some(Box::new(num(position))),
    }
}

#[test]
fn two_inputs_concatenate_in_argument_order_within_the_default_section() {
    let a = input("a.basm", vec![entry(num("1"), None), entry(num("2"), None)], &[]);
    let b = input("b.basm", vec![entry(num("3"), None)], &[]);

    let merged = link(vec![a, b]).unwrap().values;

    assert_eq!(merged, vec![num("1"), num("2"), num("3")]);
}

#[test]
fn same_named_sections_are_grouped_by_first_seen_order_across_inputs() {
    // `a` declares `.text` then `.data`; `b` only has `.data`.
    let a = input("a.basm", vec![entry(num("1"), Some(".text")), entry(num("2"), Some(".data"))], &[]);
    let b = input("b.basm", vec![entry(num("3"), Some(".data"))], &[]);

    let merged = link(vec![a, b]).unwrap().values;

    assert_eq!(merged, vec![num("1"), num("2"), num("3")]);
}

#[test]
fn a_deferred_value_resolves_to_its_targets_real_global_position() {
    let a = input("a.basm", vec![entry(deferred("b.basm", "target"), None)], &[]);
    // `b`'s own entry precedes its `pub target:` label (position 1).
    let b = input("b.basm", vec![entry(num("99"), None)], &[("target", 1)]);

    let merged = link(vec![a, b]).unwrap().values;

    // The trailing case: one past b's own last entry, index 2.
    assert_eq!(merged, vec![num("2"), num("99")]);
}

#[test]
fn a_deferred_value_can_resolve_to_a_non_trailing_position() {
    let a = input("a.basm", vec![entry(deferred("b.basm", "target"), None)], &[]);
    // `target` sits *before* b's one entry this time (position 0).
    let b = input("b.basm", vec![entry(num("99"), None)], &[("target", 0)]);

    let merged = link(vec![a, b]).unwrap().values;

    assert_eq!(merged, vec![num("1"), num("99")]);
}

#[test]
fn a_deferred_value_nested_inside_a_struct_field_is_still_resolved() {
    let a = input(
        "a.basm",
        vec![entry(
            EmittedValue::Struct {
                id: "std.binary.bits".to_string(),
                args: vec![],
                fields: vec![("value".to_string(), deferred("b.basm", "target"))],
            },
            None,
        )],
        &[],
    );
    let b = input("b.basm", vec![], &[("target", 0)]);

    let merged = link(vec![a, b]).unwrap().values;

    let EmittedValue::Struct { fields, .. } = &merged[0] else { panic!("expected a struct") };
    // `b` has no entries at all: the end of the whole merged program.
    assert_eq!(fields[0].1, num("1"));
}

#[test]
fn label_positions_follow_their_entry_through_a_reopened_section() {
    // .text: pos(2), .data: 99, .text: 7. Grouped: [pos, 7, 99].
    let a = input(
        "a.basm",
        vec![entry(pos("2"), Some(".text")), entry(num("99"), Some(".data")), entry(num("7"), Some(".text"))],
        &[],
    );

    let merged = link(vec![a]).unwrap().values;

    assert_eq!(merged, vec![pos("1"), num("7"), num("99")]);
}

#[test]
fn label_positions_in_a_later_input_are_offset_past_earlier_inputs() {
    let a = input("a.basm", vec![entry(num("1"), None), entry(num("2"), None)], &[]);
    // b's own local entry 0 (itself) and trailing position 1.
    let b = input("b.basm", vec![entry(pos("0"), None), entry(pos("2"), None)], &[]);

    let merged = link(vec![a, b]).unwrap().values;

    assert_eq!(merged, vec![num("1"), num("2"), pos("2"), pos("4")]);
}

#[test]
fn pub_label_positions_are_reported_in_merged_terms() {
    let a = input("a.basm", vec![entry(num("1"), Some(".data"))], &[]);
    let b = input("b.basm", vec![entry(num("2"), Some(".text"))], &[("_start", 0)]);

    let linked = link(vec![a, b]).unwrap();

    assert_eq!(linked.label("_start"), Some(1));
}

#[test]
fn duplicate_pub_label_across_two_inputs_is_a_hard_error() {
    let a = input("a.basm", vec![], &[("target", 0)]);
    let b = input("b.basm", vec![], &[("target", 0)]);

    let error = link(vec![a, b]).unwrap_err();
    assert!(error.contains("duplicate"), "{error}");
    assert!(error.contains("target"), "{error}");
}

#[test]
fn a_deferred_value_with_no_matching_linked_input_is_a_clear_error() {
    let a = input("a.basm", vec![entry(deferred("missing.basm", "ghost"), None)], &[]);

    let error = link(vec![a]).unwrap_err();
    assert!(error.contains("ghost"), "{error}");
    assert!(error.contains("missing.basm"), "{error}");
}

#[test]
fn a_reference_to_a_label_another_input_declares_is_refused_with_both_names() {
    let a = input("a.basm", vec![entry(deferred("c.basm", "target"), None)], &[]);
    let b = input("b.basm", vec![entry(num("5"), None)], &[("target", 0)]);

    let error = link(vec![a, b]).unwrap_err();
    assert_eq!(
        error,
        "unresolved external symbol `target` from `c.basm` \u{2014} no linked input compiles that file \
         (`target` is declared in `b.basm` instead, which IS linked, but that's not the file this reference names)"
    );
}

#[test]
fn a_label_past_its_inputs_end_is_refused() {
    let a = input("a.basm", vec![entry(num("1"), None)], &[("late", 3)]);

    let error = link(vec![a]).unwrap_err();
    assert_eq!(error, "`late` refers to position 3 in `a.basm`, past its 1 emitted entries");
}

#[test]
fn a_position_that_is_not_a_number_is_refused() {
    let a = input("a.basm", vec![entry(pos("x"), None)], &[]);

    let error = link(vec![a]).unwrap_err();
    assert_eq!(error, "`Deferred.Pos(x)` isn't a valid entry position");
}

#[test]
fn the_same_input_may_declare_a_label_twice_and_the_later_wins() {
    let a = input("a.basm", vec![entry(num("1"), None), entry(num("2"), None)], &[("l", 0), ("l", 1)]);

    let linked = link(vec![a]).unwrap();
    assert_eq!(linked.labels, vec![("l".to_string(), 1)]);
}

#[test]
fn positions_before_their_own_entries_fail_before_references_in_merged_order() {
    // Merged order is .data (a's first entry), then .text (a's position,
    // then b's reference): the first failing value in that order is reported.
    let a = input("a.basm", vec![entry(num("0"), Some(".data")), entry(pos("9"), Some(".text"))], &[]);
    let b = input("b.basm", vec![entry(deferred("z.basm", "gone"), Some(".text"))], &[]);

    let error = link(vec![a, b]).unwrap_err();
    assert_eq!(error, "`Deferred.Pos(9)` refers to position 9 in `a.basm`, past its 2 emitted entries");
}
