//! Where every input entry lands in the merged stream.
//!
//! Sections are taken in first-seen order over all inputs (in argument
//! order); within a section, inputs in argument order; within an input,
//! its own entry order. An entry's merged position is therefore the number
//! of entries in earlier sections, plus those of its section in earlier
//! inputs, plus those of its section earlier in its own input.
use vstd::prelude::*;

use super::LinkInput;
use crate::emit::{EmittedEntry, EmittedValue};
use crate::text::{decimal, decimal_usize, str_eq};

verus! {

// ================
// the model
// ================

/// A section name by its characters; `None` is the default section.
pub open spec fn key_of(section: Option<String>) -> Option<Seq<char>> {
    match section {
        Some(name) => Some(name@),
        None => None,
    }
}

pub open spec fn section_key(entry: EmittedEntry) -> Option<Seq<char>> {
    key_of(entry.section)
}

pub open spec fn entry_keys(entries: Seq<EmittedEntry>) -> Seq<Option<Seq<char>>> {
    entries.map_values(|entry: EmittedEntry| section_key(entry))
}

/// Every entry's section, inputs in argument order.
pub open spec fn sections_of(inputs: Seq<LinkInput>) -> Seq<Option<Seq<char>>>
    decreases inputs.len(),
{
    if inputs.len() == 0 {
        Seq::empty()
    } else {
        sections_of(inputs.drop_last()) + entry_keys(inputs.last().entries@)
    }
}

/// `s` with each value kept only where it first occurs.
pub open spec fn first_seen(s: Seq<Option<Seq<char>>>) -> Seq<Option<Seq<char>>>
    decreases s.len(),
{
    if s.len() == 0 {
        Seq::empty()
    } else {
        let earlier = first_seen(s.drop_last());
        if earlier.contains(s.last()) {
            earlier
        } else {
            earlier.push(s.last())
        }
    }
}

/// The merged stream's sections, in first-seen order.
pub open spec fn section_order(inputs: Seq<LinkInput>) -> Seq<Option<Seq<char>>> {
    first_seen(sections_of(inputs))
}

/// How many of `entries` belong to section `key`.
pub open spec fn count_in(entries: Seq<EmittedEntry>, key: Option<Seq<char>>) -> nat
    decreases entries.len(),
{
    if entries.len() == 0 {
        0
    } else {
        count_in(entries.drop_last(), key) + if section_key(entries.last()) == key {
            1nat
        } else {
            0nat
        }
    }
}

/// How many entries of `inputs` belong to section `key`.
pub open spec fn count_inputs(inputs: Seq<LinkInput>, key: Option<Seq<char>>) -> nat
    decreases inputs.len(),
{
    if inputs.len() == 0 {
        0
    } else {
        count_inputs(inputs.drop_last(), key) + count_in(inputs.last().entries@, key)
    }
}

/// How many entries of `inputs` belong to the sections `order`.
pub open spec fn count_sections(inputs: Seq<LinkInput>, order: Seq<Option<Seq<char>>>) -> nat
    decreases order.len(),
{
    if order.len() == 0 {
        0
    } else {
        count_sections(inputs, order.drop_last()) + count_inputs(inputs, order.last())
    }
}

/// The place of `key` in `order`.
pub open spec fn key_index(order: Seq<Option<Seq<char>>>, key: Option<Seq<char>>) -> int {
    choose|k: int| 0 <= k < order.len() && order[k] == key
}

pub open spec fn valid_entry(inputs: Seq<LinkInput>, i: int, l: int) -> bool {
    0 <= i < inputs.len() && 0 <= l < inputs[i].entries@.len()
}

/// The merged position of input `i`'s entry `l`.
pub open spec fn global_of(inputs: Seq<LinkInput>, i: int, l: int) -> int {
    let key = section_key(inputs[i].entries@[l]);
    let order = section_order(inputs);
    (count_sections(inputs, order.take(key_index(order, key))) + count_inputs(inputs.take(i), key) + count_in(
        inputs[i].entries@.take(l),
        key,
    )) as int
}

/// How many entries the merged stream holds.
pub open spec fn entry_total(inputs: Seq<LinkInput>) -> nat {
    count_sections(inputs, section_order(inputs))
}

/// Where input `i`'s local position `local` (the entry that follows it;
/// its entry count means "after all its entries") lands: after its own
/// last entry where it is trailing, or at the very end where the input
/// emits nothing; `None` past its entry count.
pub open spec fn position_of(inputs: Seq<LinkInput>, i: int, local: int) -> Option<int> {
    let n = inputs[i].entries@.len() as int;
    if local < n {
        Some(global_of(inputs, i, local))
    } else if local == n {
        if n == 0 {
            Some(entry_total(inputs) as int)
        } else {
            Some(global_of(inputs, i, n - 1) + 1)
        }
    } else {
        None
    }
}

// ================
// lemmas
// ================

/// `first_seen` keeps each value once, and exactly the values of `s`.
pub proof fn lemma_first_seen(s: Seq<Option<Seq<char>>>)
    ensures
        forall|a: int, b: int|
            0 <= a < first_seen(s).len() && 0 <= b < first_seen(s).len() && a != b ==> first_seen(s)[a]
                != first_seen(s)[b],
        forall|x: Option<Seq<char>>| #[trigger] first_seen(s).contains(x) <==> s.contains(x),
    decreases s.len(),
{
    if s.len() > 0 {
        lemma_first_seen(s.drop_last());
        let earlier = first_seen(s.drop_last());
        assert forall|x: Option<Seq<char>>| #[trigger] first_seen(s).contains(x) <==> s.contains(x) by {
            if s.contains(x) {
                let k = choose|k: int| 0 <= k < s.len() && s[k] == x;
                if k < s.len() - 1 {
                    assert(s.drop_last()[k] == x);
                }
            }
            if s.drop_last().contains(x) {
                let k = choose|k: int| 0 <= k < s.drop_last().len() && s.drop_last()[k] == x;
                assert(s[k] == x);
            }
            if !earlier.contains(s.last()) {
                if first_seen(s).contains(x) {
                    let k = choose|k: int| 0 <= k < first_seen(s).len() && first_seen(s)[k] == x;
                    if k < earlier.len() {
                        assert(earlier[k] == x);
                    }
                }
                if earlier.contains(x) {
                    let k = choose|k: int| 0 <= k < earlier.len() && earlier[k] == x;
                    assert(first_seen(s)[k] == x);
                }
                assert(first_seen(s)[earlier.len() as int] == s.last());
            }
            assert(s[s.len() - 1] == s.last());
        }
    }
}

/// Every entry's section occurs in `sections_of`.
pub proof fn lemma_sections_of_contains(inputs: Seq<LinkInput>, i: int, l: int)
    requires
        valid_entry(inputs, i, l),
    ensures
        sections_of(inputs).contains(section_key(inputs[i].entries@[l])),
    decreases inputs.len(),
{
    let key = section_key(inputs[i].entries@[l]);
    let front = sections_of(inputs.drop_last());
    let back = entry_keys(inputs.last().entries@);
    if i == inputs.len() - 1 {
        assert(back[l] == key);
        assert((front + back)[front.len() + l] == key);
    } else {
        assert(inputs.drop_last()[i] == inputs[i]);
        lemma_sections_of_contains(inputs.drop_last(), i, l);
        let k = choose|k: int| 0 <= k < front.len() && front[k] == key;
        assert((front + back)[k] == key);
    }
}

/// Each entry's section sits at exactly one place in the order.
pub proof fn lemma_key_index(inputs: Seq<LinkInput>, i: int, l: int)
    requires
        valid_entry(inputs, i, l),
    ensures
        ({
            let order = section_order(inputs);
            let key = section_key(inputs[i].entries@[l]);
            &&& 0 <= key_index(order, key) < order.len()
            &&& order[key_index(order, key)] == key
            &&& forall|k: int| 0 <= k < order.len() && order[k] == key ==> k == key_index(order, key)
        }),
{
    let order = section_order(inputs);
    let key = section_key(inputs[i].entries@[l]);
    lemma_sections_of_contains(inputs, i, l);
    lemma_first_seen(sections_of(inputs));
    assert(order.contains(key));
}

/// Where input `i`'s entries start in the inputs' entries laid end to end.
pub open spec fn start_of(inputs: Seq<LinkInput>, i: int) -> nat
    decreases i,
{
    if i <= 0 {
        0
    } else {
        start_of(inputs, i - 1) + inputs[i - 1].entries@.len()
    }
}

/// Input `i`'s entry `l` in the inputs' entries laid end to end.
pub open spec fn flat(inputs: Seq<LinkInput>, i: int, l: int) -> int {
    start_of(inputs, i) + l
}

pub proof fn lemma_start_of_grows(inputs: Seq<LinkInput>, i: int, j: int)
    requires
        0 <= i <= j <= inputs.len(),
    ensures
        start_of(inputs, i) + (if i < j { inputs[i].entries@.len() } else { 0 }) <= start_of(inputs, j),
    decreases j - i,
{
    if i < j {
        lemma_start_of_grows(inputs, i + 1, j);
    }
}

/// Distinct entries sit at distinct places when laid end to end, all
/// before the end.
pub proof fn lemma_flat(inputs: Seq<LinkInput>)
    ensures
        forall|i: int, l: int|
            valid_entry(inputs, i, l) ==> 0 <= #[trigger] flat(inputs, i, l) < start_of(inputs, inputs.len() as int),
        forall|i: int, l: int, i2: int, l2: int|
            valid_entry(inputs, i, l) && valid_entry(inputs, i2, l2) && (i != i2 || l != l2) ==> #[trigger] flat(
                inputs,
                i,
                l,
            ) != #[trigger] flat(inputs, i2, l2),
{
    assert forall|i: int, l: int|
        valid_entry(inputs, i, l) implies 0 <= #[trigger] flat(inputs, i, l) < start_of(inputs, inputs.len() as int) by {
        lemma_start_of_grows(inputs, i, inputs.len() as int);
    }
    assert forall|i: int, l: int, i2: int, l2: int|
        valid_entry(inputs, i, l) && valid_entry(inputs, i2, l2) && (i != i2 || l != l2) implies #[trigger] flat(
            inputs,
            i,
            l,
        ) != #[trigger] flat(inputs, i2, l2) by {
        if i < i2 {
            lemma_start_of_grows(inputs, i, i2);
        } else if i2 < i {
            lemma_start_of_grows(inputs, i2, i);
        }
    }
}

// ================
// the order of the merged stream
// ================

proof fn lemma_count_in_grows(entries: Seq<EmittedEntry>, key: Option<Seq<char>>, a: int, b: int)
    requires
        0 <= a <= b <= entries.len(),
    ensures
        count_in(entries.take(a), key) + (if a < b && section_key(entries[a]) == key { 1int } else { 0int })
            <= count_in(entries.take(b), key),
    decreases b - a,
{
    if a < b {
        lemma_count_in_grows(entries, key, a + 1, b);
        assert(entries.take(a + 1).drop_last() =~= entries.take(a));
    }
}

proof fn lemma_count_inputs_grows(inputs: Seq<LinkInput>, key: Option<Seq<char>>, a: int, b: int)
    requires
        0 <= a <= b <= inputs.len(),
    ensures
        count_inputs(inputs.take(a), key) + (if a < b { count_in(inputs[a].entries@, key) as int } else { 0int })
            <= count_inputs(inputs.take(b), key),
    decreases b - a,
{
    if a < b {
        lemma_count_inputs_grows(inputs, key, a + 1, b);
        assert(inputs.take(a + 1).drop_last() =~= inputs.take(a));
    }
}

proof fn lemma_count_sections_grows(inputs: Seq<LinkInput>, order: Seq<Option<Seq<char>>>, a: int, b: int)
    requires
        0 <= a <= b <= order.len(),
    ensures
        count_sections(inputs, order.take(a)) + (if a < b { count_inputs(inputs, order[a]) as int } else { 0int })
            <= count_sections(inputs, order.take(b)),
    decreases b - a,
{
    if a < b {
        lemma_count_sections_grows(inputs, order, a + 1, b);
        assert(order.take(a + 1).drop_last() =~= order.take(a));
    }
}

/// An entry lands inside its section's stretch of the merged stream.
proof fn lemma_global_within_section(inputs: Seq<LinkInput>, i: int, l: int)
    requires
        valid_entry(inputs, i, l),
    ensures
        ({
            let order = section_order(inputs);
            let k = key_index(order, section_key(inputs[i].entries@[l]));
            &&& count_sections(inputs, order.take(k)) <= global_of(inputs, i, l)
            &&& global_of(inputs, i, l) < count_sections(inputs, order.take(k + 1))
        }),
{
    let order = section_order(inputs);
    let es = inputs[i].entries@;
    let key = section_key(es[l]);
    let k = key_index(order, key);
    lemma_key_index(inputs, i, l);
    lemma_count_in_grows(es, key, l, es.len() as int);
    assert(es.take(es.len() as int) =~= es);
    lemma_count_inputs_grows(inputs, key, i, inputs.len() as int);
    assert(inputs.take(inputs.len() as int) =~= inputs);
    lemma_count_sections_grows(inputs, order, k, k + 1);
}

/// The merged stream keeps sections in first-seen order, and within a
/// section, inputs in argument order and each input's own entry order.
pub proof fn lemma_merged_order(inputs: Seq<LinkInput>, i: int, l: int, i2: int, l2: int)
    requires
        valid_entry(inputs, i, l),
        valid_entry(inputs, i2, l2),
        ({
            let order = section_order(inputs);
            let k = key_index(order, section_key(inputs[i].entries@[l]));
            let k2 = key_index(order, section_key(inputs[i2].entries@[l2]));
            k < k2 || (k == k2 && (i < i2 || (i == i2 && l < l2)))
        }),
    ensures
        global_of(inputs, i, l) < global_of(inputs, i2, l2),
{
    let order = section_order(inputs);
    let key = section_key(inputs[i].entries@[l]);
    let key2 = section_key(inputs[i2].entries@[l2]);
    let k = key_index(order, key);
    let k2 = key_index(order, key2);
    lemma_global_within_section(inputs, i, l);
    lemma_global_within_section(inputs, i2, l2);
    lemma_key_index(inputs, i, l);
    lemma_key_index(inputs, i2, l2);
    if k < k2 {
        lemma_count_sections_grows(inputs, order, k + 1, k2);
    } else {
        assert(key == key2);
        if i < i2 {
            let es = inputs[i].entries@;
            lemma_count_in_grows(es, key, l, es.len() as int);
            assert(es.take(es.len() as int) =~= es);
            lemma_count_inputs_grows(inputs, key, i, i2);
        } else {
            lemma_count_in_grows(inputs[i].entries@, key, l, l2);
        }
    }
}

/// No two entries share a merged position.
pub proof fn lemma_entries_land_apart(inputs: Seq<LinkInput>, i: int, l: int, i2: int, l2: int)
    requires
        valid_entry(inputs, i, l),
        valid_entry(inputs, i2, l2),
        i != i2 || l != l2,
    ensures
        global_of(inputs, i, l) != global_of(inputs, i2, l2),
{
    let order = section_order(inputs);
    let k = key_index(order, section_key(inputs[i].entries@[l]));
    let k2 = key_index(order, section_key(inputs[i2].entries@[l2]));
    if k < k2 || (k == k2 && (i < i2 || (i == i2 && l < l2))) {
        lemma_merged_order(inputs, i, l, i2, l2);
    } else {
        lemma_merged_order(inputs, i2, l2, i, l);
    }
}

/// Whether every entry of `inputs` is in section `key`.
pub open spec fn all_in_section(inputs: Seq<LinkInput>, key: Option<Seq<char>>) -> bool {
    forall|i: int, l: int| valid_entry(inputs, i, l) ==> section_key(#[trigger] inputs[i].entries@[l]) == key
}

proof fn lemma_count_in_all(entries: Seq<EmittedEntry>, key: Option<Seq<char>>, l: int)
    requires
        0 <= l <= entries.len(),
        forall|m: int| 0 <= m < entries.len() ==> section_key(#[trigger] entries[m]) == key,
    ensures
        count_in(entries.take(l), key) == l,
    decreases l,
{
    if l > 0 {
        lemma_count_in_all(entries, key, l - 1);
        assert(entries.take(l).drop_last() =~= entries.take(l - 1));
    }
}

proof fn lemma_count_inputs_all(inputs: Seq<LinkInput>, key: Option<Seq<char>>, i: int)
    requires
        0 <= i <= inputs.len(),
        all_in_section(inputs, key),
    ensures
        count_inputs(inputs.take(i), key) == start_of(inputs, i),
    decreases i,
{
    if i > 0 {
        lemma_count_inputs_all(inputs, key, i - 1);
        assert(inputs.take(i).drop_last() =~= inputs.take(i - 1));
        let es = inputs[i - 1].entries@;
        assert forall|m: int| 0 <= m < es.len() implies section_key(#[trigger] es[m]) == key by {
            assert(valid_entry(inputs, i - 1, m));
        }
        lemma_count_in_all(es, key, es.len() as int);
        assert(es.take(es.len() as int) =~= es);
    }
}

proof fn lemma_sections_of_all(inputs: Seq<LinkInput>, key: Option<Seq<char>>)
    requires
        all_in_section(inputs, key),
    ensures
        forall|k: int| 0 <= k < sections_of(inputs).len() ==> #[trigger] sections_of(inputs)[k] == key,
    decreases inputs.len(),
{
    if inputs.len() > 0 {
        let front = inputs.drop_last();
        assert(all_in_section(front, key)) by {
            assert forall|i: int, l: int| valid_entry(front, i, l) implies section_key(
                #[trigger] front[i].entries@[l],
            ) == key by {
                assert(valid_entry(inputs, i, l));
            }
        }
        lemma_sections_of_all(front, key);
        let back = entry_keys(inputs.last().entries@);
        assert forall|k: int| 0 <= k < sections_of(inputs).len() implies #[trigger] sections_of(inputs)[k] == key by {
            if k >= sections_of(front).len() {
                assert(valid_entry(inputs, inputs.len() - 1, k - sections_of(front).len()));
            }
        }
    }
}

/// Where every entry is in one section, linking lays the inputs end to
/// end in argument order, each input's entries in their own order.
pub proof fn lemma_one_section_concatenates(inputs: Seq<LinkInput>, key: Option<Seq<char>>)
    requires
        all_in_section(inputs, key),
    ensures
        forall|i: int, l: int| valid_entry(inputs, i, l) ==> #[trigger] global_of(inputs, i, l) == flat(inputs, i, l),
        entry_total(inputs) == start_of(inputs, inputs.len() as int),
{
    let order = section_order(inputs);
    let all = sections_of(inputs);
    lemma_sections_of_all(inputs, key);
    lemma_first_seen(all);
    assert(order.len() <= 1) by {
        if order.len() > 1 {
            assert(order.contains(order[0]));
            assert(order.contains(order[1]));
            assert(all.contains(order[0]));
            assert(all.contains(order[1]));
            let a = choose|k: int| 0 <= k < all.len() && all[k] == order[0];
            let b = choose|k: int| 0 <= k < all.len() && all[k] == order[1];
            assert(order[0] == order[1]);
        }
    }
    assert(order.take(0) =~= Seq::<Option<Seq<char>>>::empty());
    assert forall|i: int, l: int| valid_entry(inputs, i, l) implies #[trigger] global_of(inputs, i, l) == flat(
        inputs,
        i,
        l,
    ) by {
        lemma_key_index(inputs, i, l);
        lemma_count_inputs_all(inputs, key, i);
        let es = inputs[i].entries@;
        assert forall|m: int| 0 <= m < es.len() implies section_key(#[trigger] es[m]) == key by {
            assert(valid_entry(inputs, i, m));
        }
        lemma_count_in_all(es, key, l);
    }
    lemma_count_inputs_all(inputs, key, inputs.len() as int);
    assert(inputs.take(inputs.len() as int) =~= inputs);
    if order.len() == 1 {
        assert(order.drop_last() =~= Seq::<Option<Seq<char>>>::empty());
        assert(order.contains(order[0]));
        assert(all.contains(order[0]));
        let k = choose|k: int| 0 <= k < all.len() && all[k] == order[0];
    } else {
        assert(start_of(inputs, inputs.len() as int) == 0) by {
            lemma_start_of_empty(inputs, inputs.len() as int);
        }
    }
}

/// With no sections seen, no input has an entry.
proof fn lemma_start_of_empty(inputs: Seq<LinkInput>, n: int)
    requires
        0 <= n <= inputs.len(),
        section_order(inputs).len() == 0,
    ensures
        start_of(inputs, n) == 0,
    decreases n,
{
    if n > 0 {
        lemma_start_of_empty(inputs, n - 1);
        if inputs[n - 1].entries@.len() > 0 {
            lemma_sections_of_contains(inputs, n - 1, 0);
            lemma_first_seen(sections_of(inputs));
        }
    }
}

// ================
// computing the order
// ================

pub open spec fn keys(order: Seq<Option<String>>) -> Seq<Option<Seq<char>>> {
    order.map_values(|section: Option<String>| key_of(section))
}

/// Whether two sections are the same one.
pub fn same_section(a: &Option<String>, b: &Option<String>) -> (same: bool)
    ensures
        same == (key_of(*a) == key_of(*b)),
{
    match (a, b) {
        (Some(x), Some(y)) => str_eq(x.as_str(), y.as_str()),
        (None, None) => true,
        _ => false,
    }
}

fn copy_section(section: &Option<String>) -> (copy: Option<String>)
    ensures
        key_of(copy) == key_of(*section),
{
    match section {
        Some(name) => Some(name.clone()),
        None => None,
    }
}

proof fn lemma_sections_of_step(inputs: Seq<LinkInput>, i: int)
    requires
        0 <= i < inputs.len(),
    ensures
        sections_of(inputs.take(i + 1)) == sections_of(inputs.take(i)) + entry_keys(inputs[i].entries@),
{
    assert(inputs.take(i + 1).drop_last() =~= inputs.take(i));
}

/// The merged stream's sections, in first-seen order.
pub fn section_order_of(inputs: &Vec<LinkInput>) -> (order: Vec<Option<String>>)
    ensures
        keys(order@) == section_order(inputs@),
{
    let mut order: Vec<Option<String>> = Vec::new();
    let mut i: usize = 0;
    assert(inputs@.take(0) =~= Seq::<LinkInput>::empty());
    while i < inputs.len()
        invariant
            i <= inputs@.len(),
            keys(order@) == first_seen(sections_of(inputs@.take(i as int))),
        decreases inputs@.len() - i,
    {
        let entries = &inputs[i].entries;
        let ghost before = sections_of(inputs@.take(i as int));
        let mut l: usize = 0;
        assert(before + entry_keys(entries@.take(0)) =~= before);
        while l < entries.len()
            invariant
                l <= entries@.len(),
                keys(order@) == first_seen(before + entry_keys(entries@.take(l as int))),
            decreases entries@.len() - l,
        {
            let section = &entries[l].section;
            let ghost grown = before + entry_keys(entries@.take(l + 1));
            assert(grown.drop_last() =~= before + entry_keys(entries@.take(l as int)));
            assert(grown.last() == key_of(*section));
            let mut k: usize = 0;
            let mut found = false;
            while k < order.len()
                invariant
                    k <= order@.len(),
                    found == exists|m: int| 0 <= m < k && keys(order@)[m] == key_of(*section),
                decreases order@.len() - k,
            {
                if !found && same_section(&order[k], section) {
                    found = true;
                }
                assert(keys(order@)[k as int] == key_of(order@[k as int]));
                k += 1;
            }
            if !found {
                order.push(copy_section(section));
                assert(keys(order@) =~= first_seen(grown.drop_last()).push(grown.last()));
            } else {
                proof {
                    let m = choose|m: int| 0 <= m < k && keys(order@)[m] == key_of(*section);
                    assert(first_seen(grown.drop_last())[m] == grown.last());
                }
            }
            l += 1;
        }
        proof {
            assert(entries@.take(entries@.len() as int) =~= entries@);
            lemma_sections_of_step(inputs@, i as int);
        }
        i += 1;
    }
    assert(inputs@.take(inputs@.len() as int) =~= inputs@);
    order
}

// ================
// placing every entry
// ================

/// `items` in the opposite order.
pub fn reversed<T>(items: Vec<T>) -> (back: Vec<T>)
    ensures
        back@.len() == items@.len(),
        forall|t: int| 0 <= t < items@.len() ==> #[trigger] back@[t] == items@[items@.len() - 1 - t],
{
    let ghost front = items@;
    let mut items = items;
    let mut back: Vec<T> = Vec::new();
    while items.len() > 0
        invariant
            items@ == front.take(front.len() - back@.len()),
            back@.len() <= front.len(),
            forall|t: int| 0 <= t < back@.len() ==> #[trigger] back@[t] == front[front.len() - 1 - t],
        decreases items@.len(),
    {
        let item = items.pop().unwrap();
        back.push(item);
        assert(front.take(front.len() - back@.len()) =~= front.take(front.len() - back@.len() + 1).drop_last());
    }
    back
}

/// The inputs taken apart: each input's name, labels, entry count and
/// start in the end-to-end numbering; every entry's merged position (by
/// that numbering); and the merged stream, each value with its input.
pub struct Arranged {
    pub files: Vec<String>,
    pub labels: Vec<Vec<(String, usize)>>,
    pub lens: Vec<usize>,
    pub offsets: Vec<usize>,
    pub positions: Vec<usize>,
    pub merged: Vec<(usize, EmittedValue)>,
}

/// Whether entry `(i2, l2)` is placed once the sweep reaches section `k`,
/// input `i`, entry `l`.
pub open spec fn done(inputs: Seq<LinkInput>, k: int, i: int, l: int, i2: int, l2: int) -> bool {
    let ki = key_index(section_order(inputs), section_key(inputs[i2].entries@[l2]));
    ki < k || (ki == k && (i2 < i || (i2 == i && l2 < l)))
}

/// A placed entry is out of the pool, at its merged position; the others
/// still wait in the pool.
pub open spec fn entry_state(
    inputs: Seq<LinkInput>,
    pool: Seq<Option<EmittedEntry>>,
    positions: Seq<usize>,
    merged: Seq<(usize, EmittedValue)>,
    k: int,
    i: int,
    l: int,
    i2: int,
    l2: int,
) -> bool {
    let at = flat(inputs, i2, l2);
    let g = global_of(inputs, i2, l2);
    if done(inputs, k, i, l, i2, l2) {
        &&& pool[at] is None
        &&& positions[at] == g
        &&& 0 <= g < merged.len()
        &&& merged[g].0 == i2
        &&& merged[g].1 == inputs[i2].entries@[l2].value
    } else {
        pool[at] == Some(inputs[i2].entries@[l2])
    }
}

pub open spec fn sweep_inv(
    inputs: Seq<LinkInput>,
    pool: Seq<Option<EmittedEntry>>,
    positions: Seq<usize>,
    merged: Seq<(usize, EmittedValue)>,
    k: int,
    i: int,
    l: int,
) -> bool {
    &&& pool.len() == start_of(inputs, inputs.len() as int)
    &&& positions.len() == pool.len()
    &&& forall|i2: int, l2: int|
        valid_entry(inputs, i2, l2) ==> #[trigger] entry_state(inputs, pool, positions, merged, k, i, l, i2, l2)
    &&& forall|g: int| 0 <= g < merged.len() ==> #[trigger] placed_at(inputs, k, i, l, g)
}

/// Some entry placed by this point of the sweep sits at merged position `g`.
pub open spec fn placed_at(inputs: Seq<LinkInput>, k: int, i: int, l: int, g: int) -> bool {
    exists|i2: int, l2: int|
        valid_entry(inputs, i2, l2) && done(inputs, k, i, l, i2, l2) && #[trigger] global_of(inputs, i2, l2) == g
}

/// Some entry sits at merged position `g`.
pub open spec fn entry_at(inputs: Seq<LinkInput>, g: int) -> bool {
    exists|i: int, l: int| valid_entry(inputs, i, l) && #[trigger] global_of(inputs, i, l) == g
}

/// Each input's name and labels, in argument order.
pub open spec fn names_of(files: Seq<String>, labels: Seq<Vec<(String, usize)>>, inputs: Seq<LinkInput>) -> bool {
    &&& files.len() == inputs.len()
    &&& labels.len() == inputs.len()
    &&& forall|i: int| 0 <= i < inputs.len() ==> #[trigger] files[i] == inputs[i].file
    &&& forall|i: int| 0 <= i < inputs.len() ==> #[trigger] labels[i] == inputs[i].labels
}

/// What `arrange` hands back, for the inputs `inputs`.
pub open spec fn arranged_from(a: Arranged, inputs: Seq<LinkInput>) -> bool {
    &&& a.files@.len() == inputs.len()
    &&& a.labels@.len() == inputs.len()
    &&& a.lens@.len() == inputs.len()
    &&& a.offsets@.len() == inputs.len()
    &&& forall|i: int| 0 <= i < inputs.len() ==> #[trigger] a.files@[i] == inputs[i].file
    &&& forall|i: int| 0 <= i < inputs.len() ==> #[trigger] a.labels@[i] == inputs[i].labels
    &&& forall|i: int| 0 <= i < inputs.len() ==> #[trigger] a.lens@[i] == inputs[i].entries@.len()
    &&& forall|i: int| 0 <= i < inputs.len() ==> #[trigger] a.offsets@[i] == start_of(inputs, i)
    &&& a.positions@.len() == start_of(inputs, inputs.len() as int)
    &&& a.merged@.len() == entry_total(inputs)
    &&& forall|i: int, l: int|
        valid_entry(inputs, i, l) ==> {
            let g = #[trigger] global_of(inputs, i, l);
            &&& a.positions@[flat(inputs, i, l)] == g
            &&& 0 <= g < a.merged@.len()
            &&& a.merged@[g].0 == i
            &&& a.merged@[g].1 == inputs[i].entries@[l].value
        }
    &&& forall|g: int| 0 <= g < a.merged@.len() ==> #[trigger] entry_at(inputs, g)
}

/// Takes the inputs apart and lays every entry out in merged order.
pub fn arrange(inputs: Vec<LinkInput>) -> (a: Arranged)
    ensures
        arranged_from(a, inputs@),
{
    broadcast use vstd::std_specs::vec::axiom_spec_len;

    let ghost model = inputs@;
    let count = inputs.len();
    let order = section_order_of(&inputs);
    proof {
        lemma_flat(model);
    }

    // Taking the inputs apart, entries laid end to end.
    let mut rest = reversed(inputs);
    let mut files: Vec<String> = Vec::new();
    let mut labels: Vec<Vec<(String, usize)>> = Vec::new();
    let mut lens: Vec<usize> = Vec::new();
    let mut offsets: Vec<usize> = Vec::new();
    let mut pool: Vec<Option<EmittedEntry>> = Vec::new();
    let mut i: usize = 0;
    while rest.len() > 0
        invariant
            i <= model.len(),
            rest@.len() == model.len() - i,
            forall|t: int| 0 <= t < rest@.len() ==> #[trigger] rest@[t] == model[model.len() - 1 - t],
            files@.len() == i,
            labels@.len() == i,
            lens@.len() == i,
            offsets@.len() == i,
            count == model.len(),
            forall|j: int| 0 <= j < i ==> #[trigger] files@[j] == model[j].file,
            forall|j: int| 0 <= j < i ==> #[trigger] labels@[j] == model[j].labels,
            forall|j: int| 0 <= j < i ==> #[trigger] lens@[j] == model[j].entries@.len(),
            forall|j: int| 0 <= j < i ==> #[trigger] offsets@[j] == start_of(model, j),
            pool@.len() == start_of(model, i as int),
            forall|j: int, l: int|
                0 <= j < i && 0 <= l < model[j].entries@.len() ==> pool@[#[trigger] flat(model, j, l)] == Some(
                    model[j].entries@[l],
                ),
        decreases rest@.len(),
    {
        let ghost last = rest@.len() - 1;
        assert(rest@[last] == model[i as int]);
        let input = rest.pop().unwrap();
        let LinkInput { file, entries, labels: own_labels } = input;
        offsets.push(pool.len());
        lens.push(entries.len());
        let ghost es = entries@;
        let ghost start = pool@.len();
        let mut waiting = reversed(entries);
        let mut l: usize = 0;
        while waiting.len() > 0
            invariant
                i < model.len(),
                l <= es.len(),
                waiting@.len() == es.len() - l,
                forall|t: int| 0 <= t < waiting@.len() ==> #[trigger] waiting@[t] == es[es.len() - 1 - t],
                es == model[i as int].entries@,
                start == start_of(model, i as int),
                pool@.len() == start + l,
                forall|j: int, l2: int|
                    0 <= j < i && 0 <= l2 < model[j].entries@.len() ==> pool@[#[trigger] flat(model, j, l2)]
                        == Some(model[j].entries@[l2]),
                forall|l2: int| 0 <= l2 < l ==> pool@[start + l2] == Some(es[l2]),
            decreases waiting@.len(),
        {
            proof {
                assert forall|j: int, l2: int|
                    0 <= j < i && 0 <= l2 < model[j].entries@.len() implies #[trigger] flat(model, j, l2) < start by {
                    lemma_start_of_grows(model, j, i as int);
                }
            }
            let ghost last = waiting@.len() - 1;
            assert(waiting@[last] == es[l as int]);
            let entry = waiting.pop().unwrap();
            pool.push(Some(entry));
            assert(l < pool.len());
            l += 1;
        }
        files.push(file);
        labels.push(own_labels);
        proof {
            assert forall|j: int, l2: int|
                0 <= j < i + 1 && 0 <= l2 < model[j].entries@.len() implies pool@[#[trigger] flat(model, j, l2)]
                    == Some(model[j].entries@[l2]) by {
                if j == i {
                    assert(flat(model, j, l2) == start + l2);
                }
            }
        }
        i += 1;
    }
    assert(i == model.len());

    let mut positions: Vec<usize> = Vec::new();
    while positions.len() < pool.len()
        invariant
            positions@.len() <= pool@.len(),
        decreases pool@.len() - positions@.len(),
    {
        positions.push(0);
    }

    // The sweep: sections in order, inputs in order, entries in order.
    let mut merged: Vec<(usize, EmittedValue)> = Vec::new();
    let ghost ord = section_order(model);
    let mut k: usize = 0;
    assert(ord.take(0) =~= Seq::<Option<Seq<char>>>::empty());
    proof {
        assert forall|i2: int, l2: int| valid_entry(model, i2, l2) implies #[trigger] entry_state(
            model,
            pool@,
            positions@,
            merged@,
            0,
            0,
            0,
            i2,
            l2,
        ) by {
            lemma_key_index(model, i2, l2);
        }
    }
    while k < order.len()
        invariant
            keys(order@) == ord,
            ord == section_order(model),
            k <= ord.len(),
            lens@.len() == model.len(),
            offsets@.len() == model.len(),
            forall|j: int| 0 <= j < model.len() ==> #[trigger] lens@[j] == model[j].entries@.len(),
            forall|j: int| 0 <= j < model.len() ==> #[trigger] offsets@[j] == start_of(model, j),
            names_of(files@, labels@, model),
            merged@.len() == count_sections(model, ord.take(k as int)),
            sweep_inv(model, pool@, positions@, merged@, k as int, 0, 0),
        decreases ord.len() - k,
    {
        let section = &order[k];
        let ghost key = ord[k as int];
        let mut i: usize = 0;
        assert(model.take(0) =~= Seq::<LinkInput>::empty());
        while i < lens.len()
            invariant
                keys(order@) == ord,
                ord == section_order(model),
                k < ord.len(),
                key == ord[k as int],
                key_of(*section) == key,
                i <= model.len(),
                lens@.len() == model.len(),
                offsets@.len() == model.len(),
                forall|j: int| 0 <= j < model.len() ==> #[trigger] lens@[j] == model[j].entries@.len(),
                forall|j: int| 0 <= j < model.len() ==> #[trigger] offsets@[j] == start_of(model, j),
                names_of(files@, labels@, model),
                merged@.len() == count_sections(model, ord.take(k as int)) + count_inputs(model.take(i as int), key),
                sweep_inv(model, pool@, positions@, merged@, k as int, i as int, 0),
            decreases model.len() - i,
        {
            let n = lens[i];
            let ghost es = model[i as int].entries@;
            let mut l: usize = 0;
            assert(es.take(0) =~= Seq::<EmittedEntry>::empty());
            while l < n
                invariant
                    keys(order@) == ord,
                    ord == section_order(model),
                    k < ord.len(),
                    key == ord[k as int],
                    key_of(*section) == key,
                    i < model.len(),
                    es == model[i as int].entries@,
                    n == es.len(),
                    l <= n,
                    offsets@.len() == model.len(),
                    offsets@[i as int] == start_of(model, i as int),
                    names_of(files@, labels@, model),
                    merged@.len() == count_sections(model, ord.take(k as int)) + count_inputs(model.take(i as int), key)
                        + count_in(es.take(l as int), key),
                    sweep_inv(model, pool@, positions@, merged@, k as int, i as int, l as int),
                decreases n - l,
            {
                proof {
                    lemma_flat(model);
                    lemma_start_of_grows(model, i as int, model.len() as int);
                    lemma_key_index(model, i as int, l as int);
                    assert(es.take(l + 1).drop_last() =~= es.take(l as int));
                    assert(entry_state(model, pool@, positions@, merged@, k as int, i as int, l as int, i as int, l as int));
                }
                assert(offsets@[i as int] + l < pool.len());
                let at = offsets[i] + l;
                assert(at == flat(model, i as int, l as int));
                let matches = match &pool[at] {
                    Some(entry) => same_section(&entry.section, section),
                    None => false,
                };
                let ghost pool0 = pool@;
                let ghost positions0 = positions@;
                let ghost merged0 = merged@;
                if matches {
                    let taken = pool[at].take();
                    let entry = taken.unwrap();
                    positions.set(at, merged.len());
                    merged.push((i, entry.value));
                    proof {
                        assert(key_index(ord, section_key(es[l as int])) == k);
                        assert(global_of(model, i as int, l as int) == merged0.len());
                        assert forall|i2: int, l2: int| valid_entry(model, i2, l2) implies #[trigger] entry_state(
                            model,
                            pool@,
                            positions@,
                            merged@,
                            k as int,
                            i as int,
                            l + 1,
                            i2,
                            l2,
                        ) by {
                            assert(entry_state(model, pool0, positions0, merged0, k as int, i as int, l as int, i2, l2));
                        }
                        assert forall|g: int| 0 <= g < merged@.len() implies #[trigger] placed_at(model, k as int, i as int, l + 1, g) by {
                            if g < merged0.len() {
                                assert(placed_at(model, k as int, i as int, l as int, g));
                                let (i2, l2) = choose|i2: int, l2: int|
                                    valid_entry(model, i2, l2) && done(model, k as int, i as int, l as int, i2, l2)
                                        && #[trigger] global_of(model, i2, l2) == g;
                                assert(done(model, k as int, i as int, l + 1, i2, l2));
                            } else {
                                assert(done(model, k as int, i as int, l + 1, i as int, l as int));
                            }
                        }
                    }
                } else {
                    proof {
                        assert forall|i2: int, l2: int| valid_entry(model, i2, l2) implies #[trigger] entry_state(
                            model,
                            pool@,
                            positions@,
                            merged@,
                            k as int,
                            i as int,
                            l + 1,
                            i2,
                            l2,
                        ) by {
                            assert(entry_state(model, pool0, positions0, merged0, k as int, i as int, l as int, i2, l2));
                            if i2 == i && l2 == l {
                                lemma_key_index(model, i2, l2);
                            }
                        }
                        assert forall|g: int| 0 <= g < merged@.len() implies #[trigger] placed_at(model, k as int, i as int, l + 1, g) by {
                            assert(placed_at(model, k as int, i as int, l as int, g));
                            let (i2, l2) = choose|i2: int, l2: int|
                                valid_entry(model, i2, l2) && done(model, k as int, i as int, l as int, i2, l2)
                                    && #[trigger] global_of(model, i2, l2) == g;
                            assert(done(model, k as int, i as int, l + 1, i2, l2));
                        }
                        if section_key(es[l as int]) == key {
                            assert(key_index(ord, section_key(es[l as int])) == k);
                        }
                    }
                }
                l += 1;
            }
            proof {
                assert(es.take(n as int) =~= es);
                assert(model.take(i + 1).drop_last() =~= model.take(i as int));
                assert(sweep_inv(model, pool@, positions@, merged@, k as int, i + 1, 0)) by {
                    assert forall|i2: int, l2: int| valid_entry(model, i2, l2) implies #[trigger] entry_state(
                        model,
                        pool@,
                        positions@,
                        merged@,
                        k as int,
                        i + 1,
                        0,
                        i2,
                        l2,
                    ) by {
                        assert(entry_state(model, pool@, positions@, merged@, k as int, i as int, n as int, i2, l2));
                    }
                    assert forall|g: int| 0 <= g < merged@.len() implies #[trigger] placed_at(model, k as int, i + 1, 0, g) by {
                        assert(placed_at(model, k as int, i as int, n as int, g));
                        let (i2, l2) = choose|i2: int, l2: int|
                            valid_entry(model, i2, l2) && done(model, k as int, i as int, n as int, i2, l2)
                                && #[trigger] global_of(model, i2, l2) == g;
                        assert(done(model, k as int, i + 1, 0, i2, l2));
                    }
                }
            }
            i += 1;
        }
        proof {
            assert(model.take(model.len() as int) =~= model);
            assert(ord.take(k + 1).drop_last() =~= ord.take(k as int));
            assert(sweep_inv(model, pool@, positions@, merged@, k + 1, 0, 0)) by {
                assert forall|i2: int, l2: int| valid_entry(model, i2, l2) implies #[trigger] entry_state(
                    model,
                    pool@,
                    positions@,
                    merged@,
                    k + 1,
                    0,
                    0,
                    i2,
                    l2,
                ) by {
                    assert(entry_state(model, pool@, positions@, merged@, k as int, model.len() as int, 0, i2, l2));
                }
                assert forall|g: int| 0 <= g < merged@.len() implies #[trigger] placed_at(model, k + 1, 0, 0, g) by {
                    assert(placed_at(model, k as int, model.len() as int, 0, g));
                    let (i2, l2) = choose|i2: int, l2: int|
                        valid_entry(model, i2, l2) && done(model, k as int, model.len() as int, 0, i2, l2)
                            && #[trigger] global_of(model, i2, l2) == g;
                    assert(done(model, k + 1, 0, 0, i2, l2));
                }
            }
        }
        k += 1;
    }
    proof {
        assert(ord.take(ord.len() as int) =~= ord);
        assert forall|i2: int, l2: int| valid_entry(model, i2, l2) implies #[trigger] done(
            model,
            ord.len() as int,
            0,
            0,
            i2,
            l2,
        ) by {
            lemma_key_index(model, i2, l2);
        }
    }
    let a = Arranged { files, labels, lens, offsets, positions, merged };
    proof {
        assert forall|i2: int, l2: int| valid_entry(model, i2, l2) implies {
            let g = #[trigger] global_of(model, i2, l2);
            &&& a.positions@[flat(model, i2, l2)] == g
            &&& 0 <= g < a.merged@.len()
            &&& a.merged@[g].0 == i2
            &&& a.merged@[g].1 == model[i2].entries@[l2].value
        } by {
            assert(entry_state(model, pool@, positions@, merged@, ord.len() as int, 0, 0, i2, l2));
            assert(done(model, ord.len() as int, 0, 0, i2, l2));
        }
        assert forall|g: int| 0 <= g < a.merged@.len() implies #[trigger] entry_at(model, g) by {
            assert(placed_at(model, ord.len() as int, 0, 0, g));
            let (i2, l2) = choose|i2: int, l2: int|
                valid_entry(model, i2, l2) && done(model, ord.len() as int, 0, 0, i2, l2)
                    && #[trigger] global_of(model, i2, l2) == g;
            assert(valid_entry(model, i2, l2) && global_of(model, i2, l2) == g);
        }
    }
    a
}

// ================
// label positions
// ================

/// The message for a position past the end of its input.
pub open spec fn past_end_message(what: Seq<char>, local: int, file: Seq<char>, count: int) -> Seq<char> {
    "`"@ + what + "` refers to position "@ + decimal(local as nat) + " in `"@ + file + "`, past its "@ + decimal(
        count as nat,
    ) + " emitted entries"@
}

/// Where a position lands, or why it has nowhere to land.
pub open spec fn landing(inputs: Seq<LinkInput>, i: int, local: int, what: Seq<char>) -> Result<int, Seq<char>> {
    match position_of(inputs, i, local) {
        Some(p) => Ok(p),
        None => Err(past_end_message(what, local, inputs[i].file@, inputs[i].entries@.len() as int)),
    }
}

/// What a label position needs of the arranged inputs.
pub struct Layout {
    pub files: Vec<String>,
    pub lens: Vec<usize>,
    pub offsets: Vec<usize>,
    pub positions: Vec<usize>,
    pub total: usize,
}

pub open spec fn layout_of(layout: Layout, inputs: Seq<LinkInput>) -> bool {
    &&& layout.files@.len() == inputs.len()
    &&& layout.lens@.len() == inputs.len()
    &&& layout.offsets@.len() == inputs.len()
    &&& forall|i: int| 0 <= i < inputs.len() ==> #[trigger] layout.files@[i] == inputs[i].file
    &&& forall|i: int| 0 <= i < inputs.len() ==> #[trigger] layout.lens@[i] == inputs[i].entries@.len()
    &&& forall|i: int| 0 <= i < inputs.len() ==> #[trigger] layout.offsets@[i] == start_of(inputs, i)
    &&& layout.positions@.len() == start_of(inputs, inputs.len() as int)
    &&& layout.total == entry_total(inputs)
    &&& forall|i: int, l: int|
        valid_entry(inputs, i, l) ==> {
            let g = #[trigger] global_of(inputs, i, l);
            &&& layout.positions@[flat(inputs, i, l)] == g
            &&& 0 <= g < layout.total
        }
}

/// Where input `input`'s position `local` lands in the merged stream;
/// `what` names the label or reference in the error.
pub fn global_position(
    layout: &Layout,
    input: usize,
    local: usize,
    what: &str,
    Ghost(inputs): Ghost<Seq<LinkInput>>,
) -> (position: Result<usize, String>)
    requires
        layout_of(*layout, inputs),
        input < inputs.len(),
    ensures
        match landing(inputs, input as int, local as int, what@) {
            Ok(p) => position == Ok::<usize, String>(p as usize),
            Err(message) => position is Err && position->Err_0@ == message,
        },
{
    broadcast use vstd::std_specs::vec::axiom_spec_len;

    let count = layout.lens[input];
    proof {
        lemma_flat(inputs);
    }
    if local < count {
        assert(valid_entry(inputs, input as int, local as int));
        assert(layout.positions@[flat(inputs, input as int, local as int)] == global_of(inputs, input as int, local as int));
        assert(flat(inputs, input as int, local as int) < layout.positions.len());
        Ok(layout.positions[layout.offsets[input] + local])
    } else if local > count {
        let file = layout.files[input].as_str();
        let mut message = String::from_str("`");
        message.append(what);
        message.append("` refers to position ");
        message.append(decimal_usize(local).as_str());
        message.append(" in `");
        message.append(file);
        message.append("`, past its ");
        message.append(decimal_usize(count).as_str());
        message.append(" emitted entries");
        Err(message)
    } else if count == 0 {
        Ok(layout.total)
    } else {
        assert(valid_entry(inputs, input as int, local - 1));
        assert(layout.positions@[flat(inputs, input as int, local - 1)] == global_of(inputs, input as int, local - 1));
        assert(flat(inputs, input as int, local - 1) < layout.positions.len());
        Ok(layout.positions[layout.offsets[input] + (count - 1)] + 1)
    }
}

} // verus!
