//! Multi-file link: given several compiled inputs' entry streams plus each
//! one's `pub`-label positions, concatenates same-named sections across all
//! of them (first-seen order, inputs in argument order), translates every
//! local label position (`Deferred.Pos`) into the merged numbering, builds
//! one table of every `pub` label, and replaces each `Deferred` reference
//! with the position its target resolved to.
use vstd::prelude::*;

pub mod layout;
pub mod rewrite;

use crate::emit::{EmittedEntry, EmittedValue};
use layout::{
    arrange, entry_at, entry_total, global_of, global_position, landing, layout_of, reversed, valid_entry, Arranged,
    Layout,
};
use rewrite::{
    holds_table, lemma_translation_keeps_references, links_to, lookup, resolve, translate, value_error, SymbolTable,
};
use crate::text::str_eq;

verus! {

/// One compiled input to a link.
///
/// `file` is the name `Deferred` references use for this input; `entries`
/// its emitted stream; `labels` its `pub` labels, each with a position
/// local to `entries`: how many entries precede it (`entries.len()` means
/// "after every entry this input emits").
pub struct LinkInput {
    pub file: String,
    pub entries: Vec<EmittedEntry>,
    pub labels: Vec<(String, usize)>,
}

/// A linked program: the merged values (section tags dropped) and every
/// input's `pub` labels at their merged positions, each name once.
#[derive(Debug)]
pub struct Linked {
    pub values: Vec<EmittedValue>,
    pub labels: Vec<(String, usize)>,
}

impl Linked {
    /// The merged position of the `pub` label `name`, if one was declared.
    pub fn label(&self, name: &str) -> (position: Option<usize>)
        ensures
            match position {
                Some(p) => exists|k: int|
                    0 <= k < self.labels@.len() && (#[trigger] self.labels@[k]).0@ == name@ && self.labels@[k].1 == p,
                None => forall|k: int| 0 <= k < self.labels@.len() ==> (#[trigger] self.labels@[k]).0@ != name@,
            },
    {
        let mut k: usize = 0;
        while k < self.labels.len()
            invariant
                k <= self.labels@.len(),
                forall|m: int| 0 <= m < k ==> (#[trigger] self.labels@[m]).0@ != name@,
            decreases self.labels@.len() - k,
        {
            if str_eq(self.labels[k].0.as_str(), name) {
                return Some(self.labels[k].1);
            }
            k += 1;
        }
        None
    }
}

// ================
// the symbol table
// ================

pub open spec fn duplicate_message(name: Seq<char>, first: Seq<char>, second: Seq<char>) -> Seq<char> {
    "duplicate `pub` label `"@ + name + "`: declared in both `"@ + first + "` and `"@ + second + "`"@
}

/// The table once input `i`'s label `label` is added: its position must
/// land, and a name may be declared again only by the same input.
pub open spec fn label_step(inputs: Seq<LinkInput>, i: int, table: SymbolTable, label: (String, usize)) -> Result<
    SymbolTable,
    Seq<char>,
> {
    match landing(inputs, i, label.1 as int, label.0@) {
        Err(message) => Err(message),
        Ok(p) => if table.contains_key(label.0@) && table[label.0@].0 != inputs[i].file@ {
            Err(duplicate_message(label.0@, table[label.0@].0, inputs[i].file@))
        } else {
            Ok(table.insert(label.0@, (inputs[i].file@, p)))
        },
    }
}

/// `start` with input `i`'s `labels` added in order.
pub open spec fn after_labels(
    inputs: Seq<LinkInput>,
    i: int,
    start: SymbolTable,
    labels: Seq<(String, usize)>,
) -> Result<SymbolTable, Seq<char>>
    decreases labels.len(),
{
    if labels.len() == 0 {
        Ok(start)
    } else {
        match after_labels(inputs, i, start, labels.drop_last()) {
            Err(message) => Err(message),
            Ok(table) => label_step(inputs, i, table, labels.last()),
        }
    }
}

/// The table of the first `n` inputs' labels.
pub open spec fn table_upto(inputs: Seq<LinkInput>, n: int) -> Result<SymbolTable, Seq<char>>
    decreases n,
{
    if n <= 0 {
        Ok(Map::empty())
    } else {
        match table_upto(inputs, n - 1) {
            Err(message) => Err(message),
            Ok(table) => after_labels(inputs, n - 1, table, inputs[n - 1].labels@),
        }
    }
}

/// Every input's `pub` labels at their merged positions.
pub open spec fn symbol_table(inputs: Seq<LinkInput>) -> Result<SymbolTable, Seq<char>> {
    table_upto(inputs, inputs.len() as int)
}

fn build_symbols(
    layout: &Layout,
    labels: Vec<Vec<(String, usize)>>,
    Ghost(inputs): Ghost<Seq<LinkInput>>,
) -> (symbols: Result<Vec<(String, String, usize)>, String>)
    requires
        layout_of(*layout, inputs),
        labels@.len() == inputs.len(),
        forall|i: int| 0 <= i < inputs.len() ==> #[trigger] labels@[i] == inputs[i].labels,
    ensures
        match symbol_table(inputs) {
            Ok(table) => symbols is Ok && holds_table(symbols->Ok_0@, table),
            Err(message) => symbols is Err && symbols->Err_0@ == message,
        },
{
    broadcast use vstd::std_specs::vec::axiom_spec_len;

    let ghost all = labels@;
    let count = layout.files.len();
    let mut outer = reversed(labels);
    let mut symbols: Vec<(String, String, usize)> = Vec::new();
    let ghost mut table: SymbolTable = Map::empty();
    let mut i: usize = 0;
    while outer.len() > 0
        invariant
            i <= inputs.len(),
            count == inputs.len(),
            all.len() == inputs.len(),
            forall|j: int| 0 <= j < inputs.len() ==> #[trigger] all[j] == inputs[j].labels,
            outer@.len() == inputs.len() - i,
            forall|t: int| 0 <= t < outer@.len() ==> #[trigger] outer@[t] == all[all.len() - 1 - t],
            layout_of(*layout, inputs),
            table_upto(inputs, i as int) == Ok::<SymbolTable, Seq<char>>(table),
            holds_table(symbols@, table),
        decreases outer@.len(),
    {
        let ghost last = outer@.len() - 1;
        assert(outer@[last] == all[i as int]);
        let own = outer.pop().unwrap();
        let ghost labs = own@;
        let own_count = own.len();
        let ghost start = table;
        let mut inner = reversed(own);
        let mut j: usize = 0;
        let file = layout.files[i].as_str();
        assert(labs.take(0) =~= Seq::<(String, usize)>::empty());
        while inner.len() > 0
            invariant
                i < inputs.len(),
                count == inputs.len(),
                own_count == labs.len(),
                labs == inputs[i as int].labels@,
                file@ == inputs[i as int].file@,
                j <= labs.len(),
                inner@.len() == labs.len() - j,
                forall|t: int| 0 <= t < inner@.len() ==> #[trigger] inner@[t] == labs[labs.len() - 1 - t],
                layout_of(*layout, inputs),
                table_upto(inputs, i as int) == Ok::<SymbolTable, Seq<char>>(start),
                after_labels(inputs, i as int, start, labs.take(j as int)) == Ok::<SymbolTable, Seq<char>>(table),
                holds_table(symbols@, table),
            decreases inner@.len(),
        {
            let ghost last = inner@.len() - 1;
            assert(inner@[last] == labs[j as int]);
            let (name, local) = inner.pop().unwrap();
            assert(labs.take(j + 1).drop_last() =~= labs.take(j as int));
            assert(labs.take(j + 1).last() == labs[j as int]);
            let position = match global_position(layout, i, local, name.as_str(), Ghost(inputs)) {
                Err(message) => {
                    proof {
                        lemma_after_labels_error(inputs, i as int, start, labs, j + 1);
                        lemma_table_upto_error(inputs, i + 1);
                    }
                    return Err(message);
                },
                Ok(p) => p,
            };
            match lookup(&symbols, name.as_str()) {
                Some(k) => {
                    if !str_eq(symbols[k].1.as_str(), file) {
                        let mut message = String::from_str("duplicate `pub` label `");
                        message.append(name.as_str());
                        message.append("`: declared in both `");
                        message.append(symbols[k].1.as_str());
                        message.append("` and `");
                        message.append(file);
                        message.append("`");
                        proof {
                            assert(table[name@] == (symbols@[k as int].1@, symbols@[k as int].2 as int));
                            lemma_after_labels_error(inputs, i as int, start, labs, j + 1);
                            lemma_table_upto_error(inputs, i + 1);
                        }
                        return Err(message);
                    }
                    let ghost old_symbols = symbols@;
                    let ghost old_table = table;
                    symbols.set(k, (name, layout.files[i].clone(), position));
                    proof {
                        table = table.insert(name@, (file@, position as int));
                        assert(holds_table(symbols@, table)) by {
                            assert forall|a: int, b: int|
                                0 <= a < symbols@.len() && 0 <= b < symbols@.len() && a != b implies (
                                #[trigger] symbols@[a]).0@ != (#[trigger] symbols@[b]).0@ by {
                                assert(old_symbols[a].0@ != old_symbols[b].0@);
                            }
                            assert forall|m: int| 0 <= m < symbols@.len() implies table.contains_key(
                                (#[trigger] symbols@[m]).0@,
                            ) && table[symbols@[m].0@] == (symbols@[m].1@, symbols@[m].2 as int) by {
                                if m != k {
                                    assert(old_symbols[m].0@ != old_symbols[k as int].0@);
                                }
                            }
                            assert forall|n: Seq<char>| #[trigger] table.contains_key(n) implies exists|m: int|
                                0 <= m < symbols@.len() && (#[trigger] symbols@[m]).0@ == n by {
                                if n == name@ {
                                    assert(symbols@[k as int].0@ == n);
                                } else {
                                    assert(old_table.contains_key(n));
                                    let m = choose|m: int| 0 <= m < old_symbols.len() && (#[trigger] old_symbols[m]).0@ == n;
                                    assert(symbols@[m].0@ == n);
                                }
                            }
                        }
                    }
                },
                None => {
                    let ghost old_symbols = symbols@;
                    let ghost old_table = table;
                    proof {
                        if table.contains_key(name@) {
                            let m = choose|m: int| 0 <= m < symbols@.len() && (#[trigger] symbols@[m]).0@ == name@;
                        }
                    }
                    symbols.push((name, layout.files[i].clone(), position));
                    proof {
                        table = table.insert(name@, (file@, position as int));
                        let k = old_symbols.len() as int;
                        assert(holds_table(symbols@, table)) by {
                            assert forall|a: int, b: int|
                                0 <= a < symbols@.len() && 0 <= b < symbols@.len() && a != b implies (
                                #[trigger] symbols@[a]).0@ != (#[trigger] symbols@[b]).0@ by {
                                if a != k && b != k {
                                    assert(old_symbols[a].0@ != old_symbols[b].0@);
                                } else if a == k {
                                    assert(old_symbols[b].0@ != name@);
                                } else {
                                    assert(old_symbols[a].0@ != name@);
                                }
                            }
                            assert forall|m: int| 0 <= m < symbols@.len() implies table.contains_key(
                                (#[trigger] symbols@[m]).0@,
                            ) && table[symbols@[m].0@] == (symbols@[m].1@, symbols@[m].2 as int) by {
                                if m != k {
                                    assert(old_symbols[m].0@ != name@);
                                }
                            }
                            assert forall|n: Seq<char>| #[trigger] table.contains_key(n) implies exists|m: int|
                                0 <= m < symbols@.len() && (#[trigger] symbols@[m]).0@ == n by {
                                if n == name@ {
                                    assert(symbols@[k].0@ == n);
                                } else {
                                    assert(old_table.contains_key(n));
                                    let m = choose|m: int| 0 <= m < old_symbols.len() && (#[trigger] old_symbols[m]).0@ == n;
                                    assert(symbols@[m].0@ == n);
                                }
                            }
                        }
                    }
                },
            }
            j += 1;
        }
        assert(labs.take(j as int) =~= labs);
        i += 1;
    }
    Ok(symbols)
}

/// A failure among input `i`'s first `k` labels is input `i`'s failure.
proof fn lemma_after_labels_error(
    inputs: Seq<LinkInput>,
    i: int,
    start: SymbolTable,
    labels: Seq<(String, usize)>,
    k: int,
)
    requires
        0 <= k <= labels.len(),
        after_labels(inputs, i, start, labels.take(k)) is Err,
    ensures
        after_labels(inputs, i, start, labels) == after_labels(inputs, i, start, labels.take(k)),
    decreases labels.len() - k,
{
    if k < labels.len() {
        assert(labels.take(k + 1).drop_last() =~= labels.take(k));
        lemma_after_labels_error(inputs, i, start, labels, k + 1);
    } else {
        assert(labels.take(k) =~= labels);
    }
}

/// A failure among the first `n` inputs' labels is the table's failure.
proof fn lemma_table_upto_error(inputs: Seq<LinkInput>, n: int)
    requires
        0 <= n <= inputs.len(),
        table_upto(inputs, n) is Err,
    ensures
        symbol_table(inputs) == table_upto(inputs, n),
    decreases inputs.len() - n,
{
    if n < inputs.len() {
        lemma_table_upto_error(inputs, n + 1);
    }
}

// ================
// the link
// ================

/// `labels` holds each of `table`'s names once, at its merged position.
pub open spec fn labels_match(labels: Seq<(String, usize)>, table: SymbolTable) -> bool {
    &&& forall|a: int, b: int|
        0 <= a < labels.len() && 0 <= b < labels.len() && a != b ==> (#[trigger] labels[a]).0@ != (
        #[trigger] labels[b]).0@
    &&& forall|k: int|
        0 <= k < labels.len() ==> table.contains_key((#[trigger] labels[k]).0@) && table[labels[k].0@].1
            == labels[k].1 as int
    &&& forall|name: Seq<char>|
        #[trigger] table.contains_key(name) ==> exists|k: int| 0 <= k < labels.len() && (#[trigger] labels[k]).0@ == name
}

/// The merged stream: every entry's value, linked, at its merged position,
/// and nothing else; and every `pub` label.
pub open spec fn linked_as(inputs: Seq<LinkInput>, table: SymbolTable, linked: Linked) -> bool {
    &&& linked.values@.len() == entry_total(inputs)
    &&& forall|i: int, l: int|
        valid_entry(inputs, i, l) ==> links_to(
            inputs,
            i,
            table,
            inputs[i].entries@[l].value,
            linked.values@[#[trigger] global_of(inputs, i, l)],
        )
    &&& forall|g: int| 0 <= g < linked.values@.len() ==> #[trigger] entry_at(inputs, g)
    &&& labels_match(linked.labels@, table)
}

/// `message` is the failure of the value that comes first in the merged
/// stream among those that fail.
pub open spec fn first_failure(inputs: Seq<LinkInput>, table: SymbolTable, message: Seq<char>) -> bool {
    exists|i: int, l: int|
        #![trigger global_of(inputs, i, l)]
        valid_entry(inputs, i, l) && value_error(inputs, i, table, inputs[i].entries@[l].value) == Some(message)
            && forall|i2: int, l2: int|
            valid_entry(inputs, i2, l2) && #[trigger] global_of(inputs, i2, l2) < global_of(inputs, i, l)
                ==> value_error(inputs, i2, table, inputs[i2].entries@[l2].value) is None
}

/// What linking `inputs` gives: the label table's failure; else the first
/// value that fails, in merged order; else the linked program.
pub open spec fn link_outcome(inputs: Seq<LinkInput>, result: Result<Linked, String>) -> bool {
    match symbol_table(inputs) {
        Err(message) => result is Err && result->Err_0@ == message,
        Ok(table) => {
            &&& result is Ok <==> forall|i: int, l: int|
                valid_entry(inputs, i, l) ==> #[trigger] value_error(inputs, i, table, inputs[i].entries@[l].value)
                    is None
            &&& result is Err ==> first_failure(inputs, table, result->Err_0@)
            &&& result is Ok ==> linked_as(inputs, table, result->Ok_0)
        },
    }
}

/// Links `inputs`: same-named sections concatenated across all inputs
/// (sections in first-seen order, inputs in argument order), local label
/// positions translated into the merged numbering, one table of every
/// `pub` label, and every `Deferred` reference replaced by the position of
/// the label it names.
pub fn link(inputs: Vec<LinkInput>) -> (linked: Result<Linked, String>)
    ensures
        link_outcome(inputs@, linked),
{
    let ghost model = inputs@;
    let arranged = arrange(inputs);
    let Arranged { files, labels, lens, offsets, positions, merged } = arranged;
    let total = merged.len();
    let layout = Layout { files, lens, offsets, positions, total };
    assert(layout_of(layout, model));
    let symbols = match build_symbols(&layout, labels, Ghost(model)) {
        Err(message) => return Err(message),
        Ok(symbols) => symbols,
    };
    let ghost table = symbol_table(model)->Ok_0;
    let ghost all = merged@;
    let values = match link_values(merged, &layout, &symbols, Ghost(model), Ghost(table)) {
        Err(message) => return Err(message),
        Ok(values) => values,
    };
    let labels = labels_of(symbols, Ghost(table));
    let linked = Linked { values, labels };
    proof {
        assert forall|i: int, l: int| valid_entry(model, i, l) implies #[trigger] value_error(
            model,
            i,
            table,
            model[i].entries@[l].value,
        ) is None by {
            assert(all[global_of(model, i, l)].1 == model[i].entries@[l].value);
        }
        assert forall|i: int, l: int| valid_entry(model, i, l) implies links_to(
            model,
            i,
            table,
            model[i].entries@[l].value,
            linked.values@[#[trigger] global_of(model, i, l)],
        ) by {
            assert(all[global_of(model, i, l)].1 == model[i].entries@[l].value);
        }
    }
    Ok(linked)
}

/// Every merged value linked, in merged order; or the first failure.
fn link_values(
    merged: Vec<(usize, EmittedValue)>,
    layout: &Layout,
    symbols: &Vec<(String, String, usize)>,
    Ghost(inputs): Ghost<Seq<LinkInput>>,
    Ghost(table): Ghost<SymbolTable>,
) -> (values: Result<Vec<EmittedValue>, String>)
    requires
        layout_of(*layout, inputs),
        holds_table(symbols@, table),
        merged@.len() == entry_total(inputs),
        forall|i: int, l: int|
            valid_entry(inputs, i, l) ==> {
                let g = #[trigger] global_of(inputs, i, l);
                &&& 0 <= g < merged@.len()
                &&& merged@[g].0 == i
                &&& merged@[g].1 == inputs[i].entries@[l].value
            },
        forall|g: int| 0 <= g < merged@.len() ==> #[trigger] entry_at(inputs, g),
    ensures
        values is Err ==> first_failure(inputs, table, values->Err_0@),
        values is Ok ==> {
            &&& values->Ok_0@.len() == merged@.len()
            &&& forall|g: int|
                0 <= g < merged@.len() ==> value_error(inputs, merged@[g].0 as int, table, #[trigger] merged@[g].1)
                    is None && links_to(inputs, merged@[g].0 as int, table, merged@[g].1, values->Ok_0@[g])
        },
{
    let ghost all = merged@;
    let mut waiting = reversed(merged);
    let mut values: Vec<EmittedValue> = Vec::new();
    while waiting.len() > 0
        invariant
            layout_of(*layout, inputs),
            holds_table(symbols@, table),
            forall|i: int, l: int|
                valid_entry(inputs, i, l) ==> {
                    let g = #[trigger] global_of(inputs, i, l);
                    &&& 0 <= g < all.len()
                    &&& all[g].0 == i
                    &&& all[g].1 == inputs[i].entries@[l].value
                },
            forall|g: int| 0 <= g < all.len() ==> #[trigger] entry_at(inputs, g),
            values@.len() <= all.len(),
            waiting@.len() == all.len() - values@.len(),
            forall|t: int| 0 <= t < waiting@.len() ==> #[trigger] waiting@[t] == all[all.len() - 1 - t],
            forall|g: int|
                0 <= g < values@.len() ==> value_error(inputs, all[g].0 as int, table, #[trigger] all[g].1) is None
                    && links_to(inputs, all[g].0 as int, table, all[g].1, values@[g]),
        decreases waiting@.len(),
    {
        let ghost g = values@.len() as int;
        let ghost last = waiting@.len() - 1;
        assert(waiting@[last] == all[g]);
        let (input, value) = waiting.pop().unwrap();
        proof {
            assert(entry_at(inputs, g));
            let (i, l) = choose|i: int, l: int| valid_entry(inputs, i, l) && #[trigger] global_of(inputs, i, l) == g;
            assert(input as int == i);
        }
        let ghost before = value;
        let middle = match translate(value, input, layout, Ghost(inputs)) {
            Err(message) => {
                proof {
                    lemma_first_failure(inputs, table, all, g, message@);
                }
                return Err(message);
            },
            Ok(middle) => middle,
        };
        proof {
            lemma_translation_keeps_references(inputs, input as int, table, before, middle);
        }
        let after = match resolve(middle, symbols, Ghost(table)) {
            Err(message) => {
                proof {
                    lemma_first_failure(inputs, table, all, g, message@);
                }
                return Err(message);
            },
            Ok(after) => after,
        };
        let ghost values_before = values@;
        values.push(after);
        proof {
            assert(links_to(inputs, input as int, table, before, after));
            assert forall|h: int|
                0 <= h < values@.len() implies value_error(inputs, all[h].0 as int, table, #[trigger] all[h].1) is None
                && links_to(inputs, all[h].0 as int, table, all[h].1, values@[h]) by {
                if h < g {
                    assert(values@[h] == values_before[h]);
                }
            }
        }
    }
    Ok(values)
}

/// The table's names and positions, each name once.
fn labels_of(symbols: Vec<(String, String, usize)>, Ghost(table): Ghost<SymbolTable>) -> (labels: Vec<(String, usize)>)
    requires
        holds_table(symbols@, table),
    ensures
        labels_match(labels@, table),
{
    let ghost kept = symbols@;
    let mut pending = reversed(symbols);
    let mut labels: Vec<(String, usize)> = Vec::new();
    while pending.len() > 0
        invariant
            holds_table(kept, table),
            labels@.len() <= kept.len(),
            pending@.len() == kept.len() - labels@.len(),
            forall|t: int| 0 <= t < pending@.len() ==> #[trigger] pending@[t] == kept[kept.len() - 1 - t],
            forall|k: int|
                0 <= k < labels@.len() ==> (#[trigger] labels@[k]).0@ == kept[k].0@ && labels@[k].1 == kept[k].2,
        decreases pending@.len(),
    {
        let ghost last = pending@.len() - 1;
        assert(pending@[last] == kept[labels@.len() as int]);
        let (name, _file, position) = pending.pop().unwrap();
        labels.push((name, position));
    }
    assert forall|a: int, b: int|
        0 <= a < labels@.len() && 0 <= b < labels@.len() && a != b implies (#[trigger] labels@[a]).0@ != (
        #[trigger] labels@[b]).0@ by {
        assert(kept[a].0@ != kept[b].0@);
    }
    assert forall|k: int| 0 <= k < labels@.len() implies table.contains_key((#[trigger] labels@[k]).0@)
        && table[labels@[k].0@].1 == labels@[k].1 as int by {
        assert(table.contains_key(kept[k].0@));
    }
    assert forall|name: Seq<char>| #[trigger] table.contains_key(name) implies exists|k: int|
        0 <= k < labels@.len() && (#[trigger] labels@[k]).0@ == name by {
        let k = choose|k: int| 0 <= k < kept.len() && (#[trigger] kept[k]).0@ == name;
        assert(labels@[k].0@ == name);
    }
    labels
}

/// The value at merged position `g` fails with `message`, and every value
/// before it links: `message` is the link's first failure.
proof fn lemma_first_failure(
    inputs: Seq<LinkInput>,
    table: SymbolTable,
    all: Seq<(usize, EmittedValue)>,
    g: int,
    message: Seq<char>,
)
    requires
        0 <= g < all.len(),
        forall|i: int, l: int|
            valid_entry(inputs, i, l) ==> {
                let h = #[trigger] global_of(inputs, i, l);
                &&& 0 <= h < all.len()
                &&& all[h].0 == i
                &&& all[h].1 == inputs[i].entries@[l].value
            },
        entry_at(inputs, g),
        forall|h: int| 0 <= h < g ==> value_error(inputs, all[h].0 as int, table, #[trigger] all[h].1) is None,
        value_error(inputs, all[g].0 as int, table, all[g].1) == Some(message),
    ensures
        first_failure(inputs, table, message),
{
    let (i, l) = choose|i: int, l: int| valid_entry(inputs, i, l) && #[trigger] global_of(inputs, i, l) == g;
    assert forall|i2: int, l2: int|
        valid_entry(inputs, i2, l2) && #[trigger] global_of(inputs, i2, l2) < global_of(inputs, i, l) implies value_error(
        inputs,
        i2,
        table,
        inputs[i2].entries@[l2].value,
    ) is None by {
        let h = global_of(inputs, i2, l2);
        assert(value_error(inputs, all[h].0 as int, table, all[h].1) is None);
    }
}

} // verus!
