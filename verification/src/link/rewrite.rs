//! The two rewrites a linked value goes through: its local label positions
//! (`Deferred.Pos`) into the merged numbering, then its `Deferred`
//! references to other inputs' `pub` labels into their merged positions.
use vstd::prelude::*;

use super::layout::{global_position, landing, layout_of, reversed, Layout};
use super::LinkInput;
use crate::emit::EmittedValue;
use crate::text::{chars_of, decimal, decimal_usize, parse_usize, parse_usize_spec, str_eq};

verus! {

/// The `.em` id of `std.bitter.deferred`'s `Deferred` enum.
pub const DEFERRED: &'static str = "std.bitter.deferred.Deferred";

/// What the link step knows of every `pub` label: its declaring input and
/// its merged position.
pub type SymbolTable = Map<Seq<char>, (Seq<char>, int)>;

// ================
// local positions
// ================

/// Whether an enum value is a `Deferred.Pos` label position.
pub open spec fn is_pos(id: String, variant: String) -> bool {
    id@ == DEFERRED@ && variant@ == "Pos"@
}

pub open spec fn pos_what(raw: Seq<char>) -> Seq<char> {
    "Deferred.Pos("@ + raw + ")"@
}

pub open spec fn bad_pos_message(raw: Seq<char>) -> Seq<char> {
    "`Deferred.Pos("@ + raw + ")` isn't a valid entry position"@
}

/// Where the position a `Deferred.Pos` payload spells lands, or why not.
pub open spec fn pos_target(inputs: Seq<LinkInput>, i: int, raw: Seq<char>) -> Result<int, Seq<char>> {
    match parse_usize_spec(raw) {
        None => Err(bad_pos_message(raw)),
        Some(local) => landing(inputs, i, local as int, pos_what(raw)),
    }
}

/// The first failure, in field order, of translating `value`'s positions.
pub open spec fn translate_error(inputs: Seq<LinkInput>, i: int, value: EmittedValue) -> Option<Seq<char>>
    decreases value,
{
    match value {
        EmittedValue::Enum { id, variant, payload, .. } => if is_pos(id, variant) {
            match payload {
                Some(inner) => match *inner {
                    EmittedValue::Int { value: raw } => match pos_target(inputs, i, raw@) {
                        Ok(_) => None,
                        Err(message) => Some(message),
                    },
                    _ => None,
                },
                None => None,
            }
        } else {
            match payload {
                Some(inner) => translate_error(inputs, i, *inner),
                None => None,
            }
        },
        EmittedValue::Struct { fields, .. } => fields_translate_error(inputs, i, fields@),
        _ => None,
    }
}

pub open spec fn fields_translate_error(
    inputs: Seq<LinkInput>,
    i: int,
    fields: Seq<(String, EmittedValue)>,
) -> Option<Seq<char>>
    decreases fields,
{
    if fields.len() == 0 {
        None
    } else {
        match fields_translate_error(inputs, i, fields.drop_last()) {
            Some(message) => Some(message),
            None => translate_error(inputs, i, fields[fields.len() - 1].1),
        }
    }
}

/// `after` is `before` with each `Deferred.Pos(n)` of input `i` holding
/// where `n` landed in the merged stream instead.
pub open spec fn translates_to(inputs: Seq<LinkInput>, i: int, before: EmittedValue, after: EmittedValue) -> bool
    decreases before,
{
    match before {
        EmittedValue::Enum { id, args, variant, payload } => {
            &&& after is Enum
            &&& after->Enum_id == id
            &&& after->Enum_args == args
            &&& after->Enum_variant == variant
            &&& if is_pos(id, variant) {
                match payload {
                    Some(inner) => match *inner {
                        EmittedValue::Int { value: raw } => match pos_target(inputs, i, raw@) {
                            Ok(p) => (after->Enum_payload matches Some(boxed) && ((*boxed) matches EmittedValue::Int {
                                value,
                            } && value@ == decimal(p as nat))),
                            Err(_) => false,
                        },
                        _ => after->Enum_payload == payload,
                    },
                    None => after->Enum_payload == payload,
                }
            } else {
                match payload {
                    Some(inner) => (after->Enum_payload matches Some(boxed) && translates_to(inputs, i, *inner, *boxed)),
                    None => after->Enum_payload is None,
                }
            }
        },
        EmittedValue::Struct { id, args, fields } => {
            &&& after is Struct
            &&& after->Struct_id == id
            &&& after->Struct_args == args
            &&& fields_translate_to(inputs, i, fields@, after->Struct_fields@)
        },
        _ => after == before,
    }
}

pub open spec fn fields_translate_to(
    inputs: Seq<LinkInput>,
    i: int,
    before: Seq<(String, EmittedValue)>,
    after: Seq<(String, EmittedValue)>,
) -> bool
    decreases before,
{
    &&& before.len() == after.len()
    &&& before.len() > 0 ==> {
        &&& fields_translate_to(inputs, i, before.drop_last(), after.drop_last())
        &&& before[before.len() - 1].0 == after[after.len() - 1].0
        &&& translates_to(inputs, i, before[before.len() - 1].1, after[after.len() - 1].1)
    }
}

/// Whether `id` and `variant` name `Deferred.Pos`.
fn is_pos_exec(id: &String, variant: &String) -> (pos: bool)
    ensures
        pos == is_pos(*id, *variant),
{
    str_eq(id.as_str(), DEFERRED) && str_eq(variant.as_str(), "Pos")
}

/// Rewrites every `Deferred.Pos(n)` inside `value` (a label position in
/// input `input`'s own numbering) to the merged position of the same
/// entry. A `Pos` whose payload is not an integer is left alone.
pub fn translate(
    value: EmittedValue,
    input: usize,
    layout: &Layout,
    Ghost(inputs): Ghost<Seq<LinkInput>>,
) -> (translated: Result<EmittedValue, String>)
    requires
        layout_of(*layout, inputs),
        input < inputs.len(),
    ensures
        translated is Ok <==> translate_error(inputs, input as int, value) is None,
        translated is Ok ==> translates_to(inputs, input as int, value, translated->Ok_0),
        translated is Err ==> translate_error(inputs, input as int, value) == Some(translated->Err_0@),
    decreases value,
{
    let ghost original = value;
    match value {
        EmittedValue::Enum { id, args, variant, payload } => {
            if is_pos_exec(&id, &variant) {
                match payload {
                    None => Ok(EmittedValue::Enum { id, args, variant, payload: None }),
                    Some(boxed) => {
                        let inner = *boxed;
                        match inner {
                            EmittedValue::Int { value: raw } => {
                                let digits = chars_of(raw.as_str());
                                match parse_usize(digits.as_slice()) {
                                    None => {
                                        let mut message = String::from_str("`Deferred.Pos(");
                                        message.append(raw.as_str());
                                        message.append(")` isn't a valid entry position");
                                        Err(message)
                                    },
                                    Some(local) => {
                                        let mut what = String::from_str("Deferred.Pos(");
                                        what.append(raw.as_str());
                                        what.append(")");
                                        match global_position(layout, input, local, what.as_str(), Ghost(inputs)) {
                                            Err(message) => Err(message),
                                            Ok(position) => {
                                                let text = decimal_usize(position);
                                                let landed = EmittedValue::Int { value: text };
                                                Ok(EmittedValue::Enum { id, args, variant, payload: Some(Box::new(landed)) })
                                            },
                                        }
                                    },
                                }
                            },
                            other => Ok(EmittedValue::Enum { id, args, variant, payload: Some(Box::new(other)) }),
                        }
                    },
                }
            } else {
                match payload {
                    None => Ok(EmittedValue::Enum { id, args, variant, payload: None }),
                    Some(boxed) => {
                        let inner = *boxed;
                        match translate(inner, input, layout, Ghost(inputs)) {
                            Err(message) => Err(message),
                            Ok(done) => Ok(EmittedValue::Enum { id, args, variant, payload: Some(Box::new(done)) }),
                        }
                    },
                }
            }
        },
        EmittedValue::Struct { id, args, fields } => {
            let ghost before = fields@;
            let mut waiting = reversed(fields);
            let mut done: Vec<(String, EmittedValue)> = Vec::new();
            let ghost mut k: int = 0;
            assert(before.take(0) =~= Seq::<(String, EmittedValue)>::empty());
            while waiting.len() > 0
                invariant
                    0 <= k <= before.len(),
                    original == value,
                    original == (EmittedValue::Struct { id, args, fields: original->Struct_fields }),
                    original->Struct_fields@ == before,
                    waiting@.len() == before.len() - k,
                    forall|t: int| 0 <= t < waiting@.len() ==> #[trigger] waiting@[t] == before[before.len() - 1 - t],
                    layout_of(*layout, inputs),
                    input < inputs.len(),
                    fields_translate_error(inputs, input as int, before.take(k)) is None,
                    fields_translate_to(inputs, input as int, before.take(k), done@),
                decreases waiting@.len(),
            {
                let ghost last = waiting@.len() - 1;
                assert(waiting@[last] == before[k]);
                let (name, field) = waiting.pop().unwrap();
                assert(field == before[k].1);
                assert(before.take(k + 1).drop_last() =~= before.take(k));
                assert(before.take(k + 1)[k] == before[k]);
                proof {
                    assert(decreases_to!(original => original->Struct_fields));
                    assert(decreases_to!(original->Struct_fields => before));
                    assert(decreases_to!(before => before[k]));
                    assert(decreases_to!(before[k] => before[k].1));
                }
                match translate(field, input, layout, Ghost(inputs)) {
                    Err(message) => {
                        assert(fields_translate_error(inputs, input as int, before.take(k + 1)) == Some(message@));
                        proof {
                            lemma_fields_error_prefix(inputs, input as int, before, k + 1);
                            assert(translate_error(inputs, input as int, original) == Some(message@));
                        }
                        return Err(message);
                    },
                    Ok(rewritten) => {
                        let ghost done_before = done@;
                        done.push((name, rewritten));
                        assert(done@.drop_last() =~= done_before);
                        proof {
                            k = k + 1;
                        }
                    },
                }
            }
            assert(before.take(k) =~= before);
            Ok(EmittedValue::Struct { id, args, fields: done })
        },
        other => Ok(other),
    }
}

/// An error in some prefix of the fields is the fields' error.
proof fn lemma_fields_error_prefix(inputs: Seq<LinkInput>, i: int, fields: Seq<(String, EmittedValue)>, k: int)
    requires
        0 <= k <= fields.len(),
        fields_translate_error(inputs, i, fields.take(k)) is Some,
    ensures
        fields_translate_error(inputs, i, fields) == fields_translate_error(inputs, i, fields.take(k)),
    decreases fields.len() - k,
{
    if k < fields.len() {
        assert(fields.take(k + 1).drop_last() =~= fields.take(k));
        lemma_fields_error_prefix(inputs, i, fields, k + 1);
    } else {
        assert(fields.take(k) =~= fields);
    }
}

// ================
// references to other inputs
// ================

pub open spec fn no_symbol_message(symbol: Seq<char>, module: Seq<char>) -> Seq<char> {
    "unresolved external symbol `"@ + symbol + "` from `"@ + module
        + "` \u{2014} no linked input declares a `pub` label named `"@ + symbol + "`"@
}

pub open spec fn wrong_file_message(symbol: Seq<char>, module: Seq<char>, declaring: Seq<char>) -> Seq<char> {
    "unresolved external symbol `"@ + symbol + "` from `"@ + module + "` \u{2014} no linked input compiles that file (`"@
        + symbol + "` is declared in `"@ + declaring
        + "` instead, which IS linked, but that's not the file this reference names)"@
}

/// Where `module`'s label `symbol` landed, or why it has no place.
pub open spec fn resolve_target(table: SymbolTable, module: Seq<char>, symbol: Seq<char>) -> Result<int, Seq<char>> {
    if !table.contains_key(symbol) {
        Err(no_symbol_message(symbol, module))
    } else if table[symbol].0 != module {
        Err(wrong_file_message(symbol, module, table[symbol].0))
    } else {
        Ok(table[symbol].1)
    }
}

/// The first failure, in field order, of resolving `value`'s references.
pub open spec fn resolve_error(table: SymbolTable, value: EmittedValue) -> Option<Seq<char>>
    decreases value,
{
    match value {
        EmittedValue::Deferred { module, symbol } => match resolve_target(table, module@, symbol@) {
            Ok(_) => None,
            Err(message) => Some(message),
        },
        EmittedValue::Int { .. } => None,
        EmittedValue::Struct { fields, .. } => fields_resolve_error(table, fields@),
        EmittedValue::Enum { payload, .. } => match payload {
            Some(inner) => resolve_error(table, *inner),
            None => None,
        },
    }
}

pub open spec fn fields_resolve_error(table: SymbolTable, fields: Seq<(String, EmittedValue)>) -> Option<Seq<char>>
    decreases fields,
{
    if fields.len() == 0 {
        None
    } else {
        match fields_resolve_error(table, fields.drop_last()) {
            Some(message) => Some(message),
            None => resolve_error(table, fields[fields.len() - 1].1),
        }
    }
}

/// `after` is `before` with each `Deferred` reference replaced by the
/// merged position of the label it names.
pub open spec fn resolves_to(table: SymbolTable, before: EmittedValue, after: EmittedValue) -> bool
    decreases before,
{
    match before {
        EmittedValue::Deferred { module, symbol } => match resolve_target(table, module@, symbol@) {
            Ok(p) => (after matches EmittedValue::Int { value } && value@ == decimal(p as nat)),
            Err(_) => false,
        },
        EmittedValue::Int { .. } => after == before,
        EmittedValue::Struct { id, args, fields } => {
            &&& after is Struct
            &&& after->Struct_id == id
            &&& after->Struct_args == args
            &&& fields_resolve_to(table, fields@, after->Struct_fields@)
        },
        EmittedValue::Enum { id, args, variant, payload } => {
            &&& after is Enum
            &&& after->Enum_id == id
            &&& after->Enum_args == args
            &&& after->Enum_variant == variant
            &&& match payload {
                Some(inner) => (after->Enum_payload matches Some(boxed) && resolves_to(table, *inner, *boxed)),
                None => after->Enum_payload is None,
            }
        },
    }
}

pub open spec fn fields_resolve_to(
    table: SymbolTable,
    before: Seq<(String, EmittedValue)>,
    after: Seq<(String, EmittedValue)>,
) -> bool
    decreases before,
{
    &&& before.len() == after.len()
    &&& before.len() > 0 ==> {
        &&& fields_resolve_to(table, before.drop_last(), after.drop_last())
        &&& before[before.len() - 1].0 == after[after.len() - 1].0
        &&& resolves_to(table, before[before.len() - 1].1, after[after.len() - 1].1)
    }
}

/// The symbol table held as name, declaring input and merged position,
/// each name once.
pub open spec fn holds_table(symbols: Seq<(String, String, usize)>, table: SymbolTable) -> bool {
    &&& forall|a: int, b: int|
        0 <= a < symbols.len() && 0 <= b < symbols.len() && a != b ==> (#[trigger] symbols[a]).0@ != (
        #[trigger] symbols[b]).0@
    &&& forall|k: int|
        0 <= k < symbols.len() ==> table.contains_key((#[trigger] symbols[k]).0@) && table[symbols[k].0@] == (
            symbols[k].1@,
            symbols[k].2 as int,
        )
    &&& forall|name: Seq<char>|
        #[trigger] table.contains_key(name) ==> exists|k: int| 0 <= k < symbols.len() && (#[trigger] symbols[k]).0@ == name
}

/// Where `name` is in `symbols`, if it is.
pub fn lookup(symbols: &Vec<(String, String, usize)>, name: &str) -> (found: Option<usize>)
    ensures
        match found {
            Some(k) => k < symbols@.len() && symbols@[k as int].0@ == name@,
            None => forall|k: int| 0 <= k < symbols@.len() ==> (#[trigger] symbols@[k]).0@ != name@,
        },
{
    let mut k: usize = 0;
    while k < symbols.len()
        invariant
            k <= symbols@.len(),
            forall|m: int| 0 <= m < k ==> (#[trigger] symbols@[m]).0@ != name@,
        decreases symbols@.len() - k,
    {
        if str_eq(symbols[k].0.as_str(), name) {
            return Some(k);
        }
        k += 1;
    }
    None
}

/// Replaces every `Deferred` reference inside `value` with the merged
/// position of the `pub` label it names, which must be declared by the
/// input the reference names.
pub fn resolve(
    value: EmittedValue,
    symbols: &Vec<(String, String, usize)>,
    Ghost(table): Ghost<SymbolTable>,
) -> (resolved: Result<EmittedValue, String>)
    requires
        holds_table(symbols@, table),
    ensures
        resolved is Ok <==> resolve_error(table, value) is None,
        resolved is Ok ==> resolves_to(table, value, resolved->Ok_0),
        resolved is Err ==> resolve_error(table, value) == Some(resolved->Err_0@),
    decreases value,
{
    let ghost original = value;
    match value {
        EmittedValue::Deferred { module, symbol } => {
            match lookup(symbols, symbol.as_str()) {
                None => {
                    proof {
                        if table.contains_key(symbol@) {
                            let k = choose|k: int| 0 <= k < symbols@.len() && (#[trigger] symbols@[k]).0@ == symbol@;
                        }
                    }
                    let mut message = String::from_str("unresolved external symbol `");
                    message.append(symbol.as_str());
                    message.append("` from `");
                    message.append(module.as_str());
                    message.append("` \u{2014} no linked input declares a `pub` label named `");
                    message.append(symbol.as_str());
                    message.append("`");
                    Err(message)
                },
                Some(k) => {
                    let declaring = symbols[k].1.as_str();
                    assert(table[symbol@] == (symbols@[k as int].1@, symbols@[k as int].2 as int));
                    if !str_eq(declaring, module.as_str()) {
                        let mut message = String::from_str("unresolved external symbol `");
                        message.append(symbol.as_str());
                        message.append("` from `");
                        message.append(module.as_str());
                        message.append("` \u{2014} no linked input compiles that file (`");
                        message.append(symbol.as_str());
                        message.append("` is declared in `");
                        message.append(declaring);
                        message.append("` instead, which IS linked, but that's not the file this reference names)");
                        Err(message)
                    } else {
                        Ok(EmittedValue::Int { value: decimal_usize(symbols[k].2) })
                    }
                },
            }
        },
        EmittedValue::Int { value: text } => Ok(EmittedValue::Int { value: text }),
        EmittedValue::Enum { id, args, variant, payload } => {
            match payload {
                None => Ok(EmittedValue::Enum { id, args, variant, payload: None }),
                Some(boxed) => {
                    let inner = *boxed;
                    match resolve(inner, symbols, Ghost(table)) {
                        Err(message) => Err(message),
                        Ok(done) => Ok(EmittedValue::Enum { id, args, variant, payload: Some(Box::new(done)) }),
                    }
                },
            }
        },
        EmittedValue::Struct { id, args, fields } => {
            let ghost before = fields@;
            let mut waiting = reversed(fields);
            let mut done: Vec<(String, EmittedValue)> = Vec::new();
            let ghost mut k: int = 0;
            assert(before.take(0) =~= Seq::<(String, EmittedValue)>::empty());
            while waiting.len() > 0
                invariant
                    0 <= k <= before.len(),
                    original == value,
                    original == (EmittedValue::Struct { id, args, fields: original->Struct_fields }),
                    original->Struct_fields@ == before,
                    waiting@.len() == before.len() - k,
                    forall|t: int| 0 <= t < waiting@.len() ==> #[trigger] waiting@[t] == before[before.len() - 1 - t],
                    holds_table(symbols@, table),
                    fields_resolve_error(table, before.take(k)) is None,
                    fields_resolve_to(table, before.take(k), done@),
                decreases waiting@.len(),
            {
                let ghost last = waiting@.len() - 1;
                assert(waiting@[last] == before[k]);
                let (name, field) = waiting.pop().unwrap();
                assert(field == before[k].1);
                assert(before.take(k + 1).drop_last() =~= before.take(k));
                assert(before.take(k + 1)[k] == before[k]);
                proof {
                    assert(decreases_to!(original => original->Struct_fields));
                    assert(decreases_to!(original->Struct_fields => before));
                    assert(decreases_to!(before => before[k]));
                    assert(decreases_to!(before[k] => before[k].1));
                }
                match resolve(field, symbols, Ghost(table)) {
                    Err(message) => {
                        assert(fields_resolve_error(table, before.take(k + 1)) == Some(message@));
                        proof {
                            lemma_fields_resolve_error_prefix(table, before, k + 1);
                            assert(resolve_error(table, original) == Some(message@));
                        }
                        return Err(message);
                    },
                    Ok(rewritten) => {
                        let ghost done_before = done@;
                        done.push((name, rewritten));
                        assert(done@.drop_last() =~= done_before);
                        proof {
                            k = k + 1;
                        }
                    },
                }
            }
            assert(before.take(k) =~= before);
            Ok(EmittedValue::Struct { id, args, fields: done })
        },
    }
}

proof fn lemma_fields_resolve_error_prefix(table: SymbolTable, fields: Seq<(String, EmittedValue)>, k: int)
    requires
        0 <= k <= fields.len(),
        fields_resolve_error(table, fields.take(k)) is Some,
    ensures
        fields_resolve_error(table, fields) == fields_resolve_error(table, fields.take(k)),
    decreases fields.len() - k,
{
    if k < fields.len() {
        assert(fields.take(k + 1).drop_last() =~= fields.take(k));
        lemma_fields_resolve_error_prefix(table, fields, k + 1);
    } else {
        assert(fields.take(k) =~= fields);
    }
}

// ================
// both rewrites
// ================

/// `after` is `before` with its positions translated, then its references
/// resolved.
pub open spec fn links_to(
    inputs: Seq<LinkInput>,
    i: int,
    table: SymbolTable,
    before: EmittedValue,
    after: EmittedValue,
) -> bool {
    exists|middle: EmittedValue| translates_to(inputs, i, before, middle) && resolves_to(table, middle, after)
}

/// Why a value of input `i` cannot be linked: a position first, then a
/// reference.
pub open spec fn value_error(inputs: Seq<LinkInput>, i: int, table: SymbolTable, value: EmittedValue) -> Option<
    Seq<char>,
> {
    match translate_error(inputs, i, value) {
        Some(message) => Some(message),
        None => resolve_error(table, value),
    }
}

/// Translating positions leaves every reference, and so every reference's
/// failure, where it was.
pub proof fn lemma_translation_keeps_references(
    inputs: Seq<LinkInput>,
    i: int,
    table: SymbolTable,
    before: EmittedValue,
    after: EmittedValue,
)
    requires
        translates_to(inputs, i, before, after),
    ensures
        resolve_error(table, after) == resolve_error(table, before),
    decreases before,
{
    match before {
        EmittedValue::Enum { id, args, variant, payload } => {
            if !is_pos(id, variant) {
                match payload {
                    Some(inner) => {
                        let boxed = after->Enum_payload->0;
                        lemma_translation_keeps_references(inputs, i, table, *inner, *boxed);
                    },
                    None => {},
                }
            }
        },
        EmittedValue::Struct { fields, .. } => {
            lemma_fields_translation_keeps_references(inputs, i, table, fields@, after->Struct_fields@);
        },
        _ => {},
    }
}

proof fn lemma_fields_translation_keeps_references(
    inputs: Seq<LinkInput>,
    i: int,
    table: SymbolTable,
    before: Seq<(String, EmittedValue)>,
    after: Seq<(String, EmittedValue)>,
)
    requires
        fields_translate_to(inputs, i, before, after),
    ensures
        fields_resolve_error(table, after) == fields_resolve_error(table, before),
    decreases before,
{
    if before.len() > 0 {
        lemma_fields_translation_keeps_references(inputs, i, table, before.drop_last(), after.drop_last());
        lemma_translation_keeps_references(
            inputs,
            i,
            table,
            before[before.len() - 1].1,
            after[after.len() - 1].1,
        );
    }
}


} // verus!
