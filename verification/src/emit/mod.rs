//! The `.em` file: what `bitterasm compile` writes and `bitter` reads back,
//! a versioned header around the emitted entries.
use std::collections::BTreeMap;

use vstd::prelude::*;

use crate::text::{concat2, concat3, decimal, decimal_string, str_eq};

pub mod features;

verus! {

/// The `.em` format version this crate writes and reads.
pub const EM_VERSION: u64 = 1;

/// A whole `.em` file.
#[derive(Debug, PartialEq)]
pub struct EmFile {
    /// Always [`EM_VERSION`] when written by this crate.
    pub version: u64,
    /// The language features the program uses (see [`features`]).
    pub requires: Vec<String>,
    /// The compiled file's own module path.
    pub module: String,
    /// Every top-level `pub` label's position: how many entries precede it.
    pub exports: BTreeMap<String, u64>,
    pub entries: Vec<EmittedEntry>,
}

/// One entry: a value plus the section active when it was emitted.
#[derive(Debug, PartialEq)]
pub struct EmittedEntry {
    pub value: EmittedValue,
    pub section: Option<String>,
}

#[derive(Debug, PartialEq)]
pub enum EmittedValue {
    /// An arbitrary-precision integer's decimal digits.
    Int { value: String },
    /// `id` is the struct's module path and name.
    Struct { id: String, args: Vec<EmittedGenericArg>, fields: Vec<(String, EmittedValue)> },
    Enum { id: String, args: Vec<EmittedGenericArg>, variant: String, payload: Option<Box<EmittedValue>> },
    /// Another file's `pub` label, resolved only by a later link step.
    Deferred { module: String, symbol: String },
}

#[derive(Debug, PartialEq)]
pub enum EmittedGenericArg {
    Const { value: String },
    Type(EmittedType),
}

#[derive(Debug, PartialEq)]
pub enum EmittedType {
    Builtin { name: String },
    Struct { id: String, args: Vec<EmittedGenericArg> },
    Enum { id: String, args: Vec<EmittedGenericArg> },
}

/// Whether a value holds a `Deferred` reference anywhere inside it.
pub open spec fn has_deferred(value: EmittedValue) -> bool
    decreases value,
{
    match value {
        EmittedValue::Deferred { .. } => true,
        EmittedValue::Int { .. } => false,
        EmittedValue::Struct { fields, .. } => fields_deferred(fields@),
        EmittedValue::Enum { payload, .. } => match payload {
            Some(inner) => has_deferred(*inner),
            None => false,
        },
    }
}

/// Whether any of a struct's field values holds a `Deferred` reference.
pub open spec fn fields_deferred(fields: Seq<(String, EmittedValue)>) -> bool
    decreases fields,
{
    if fields.len() == 0 {
        false
    } else {
        has_deferred(fields[0].1) || fields_deferred(fields.subrange(1, fields.len() as int))
    }
}

/// Whether a struct's fields hold a `Deferred` reference: exactly when the
/// field at some position does, whichever position that is.
pub proof fn lemma_fields_deferred_at_any_position(fields: Seq<(String, EmittedValue)>)
    ensures
        fields_deferred(fields) <==> exists|k: int| 0 <= k < fields.len() && has_deferred(#[trigger] fields[k].1),
    decreases fields.len(),
{
    if fields.len() > 0 {
        let rest = fields.subrange(1, fields.len() as int);
        lemma_fields_deferred_at_any_position(rest);
        if fields_deferred(fields) {
            if has_deferred(fields[0].1) {
                assert(0 <= 0 < fields.len() && has_deferred(fields[0].1));
            } else {
                let k = choose|k: int| 0 <= k < rest.len() && has_deferred(#[trigger] rest[k].1);
                assert(rest[k] == fields[k + 1]);
                assert(0 <= k + 1 < fields.len() && has_deferred(fields[k + 1].1));
            }
        }
        if exists|k: int| 0 <= k < fields.len() && has_deferred(#[trigger] fields[k].1) {
            let k = choose|k: int| 0 <= k < fields.len() && has_deferred(#[trigger] fields[k].1);
            if k > 0 {
                assert(rest[k - 1] == fields[k]);
                assert(0 <= k - 1 < rest.len() && has_deferred(rest[k - 1].1));
            }
        }
    }
}

/// Where a `Deferred` reference can hide: a value holds one when it is one,
/// never when it is an integer, when any field of a struct (at any
/// position) holds one, and when an enum's payload holds one.
pub proof fn lemma_deferred_anywhere(value: EmittedValue)
    ensures
        value is Deferred ==> has_deferred(value),
        value is Int ==> !has_deferred(value),
        value is Struct ==> (has_deferred(value) <==> exists|k: int|
            0 <= k < value->Struct_fields@.len() && has_deferred(#[trigger] value->Struct_fields@[k].1)),
        value matches EmittedValue::Enum { payload: Some(inner), .. } ==> has_deferred(value) == has_deferred(
            *inner,
        ),
        value matches EmittedValue::Enum { payload: None, .. } ==> !has_deferred(value),
{
    if value is Struct {
        lemma_fields_deferred_at_any_position(value->Struct_fields@);
    }
}

fn contains_deferred(value: &EmittedValue) -> (found: bool)
    ensures
        found == has_deferred(*value),
    decreases value,
{
    match value {
        EmittedValue::Deferred { .. } => true,
        EmittedValue::Int { .. } => false,
        EmittedValue::Struct { fields, .. } => {
            let mut i: usize = 0;
            assert(fields@.subrange(0, fields@.len() as int) =~= fields@);
            while i < fields.len()
                invariant
                    i <= fields@.len(),
                    *value is Struct,
                    value->Struct_fields == *fields,
                    fields_deferred(fields@) == fields_deferred(fields@.subrange(i as int, fields@.len() as int)),
                decreases fields@.len() - i,
            {
                let ghost rest = fields@.subrange(i as int, fields@.len() as int);
                proof {
                    let ghost entry = fields@[i as int];
                    assert(decreases_to!(*value => value->Struct_fields));
                    assert(decreases_to!(*fields => fields@));
                    assert(decreases_to!(fields@ => entry));
                    assert(decreases_to!(entry => entry.1));
                    assert(rest[0] == entry);
                    assert(rest.subrange(1, rest.len() as int) =~= fields@.subrange(i + 1, fields@.len() as int));
                }
                if contains_deferred(&fields[i].1) {
                    return true;
                }
                i += 1;
            }
            assert(fields@.subrange(i as int, fields@.len() as int).len() == 0);
            false
        },
        EmittedValue::Enum { payload, .. } => match payload {
            Some(inner) => contains_deferred(inner),
            None => false,
        },
    }
}

/// The features entries use: `sections` where any entry has a section,
/// then `extern-labels` where any value holds a `Deferred`.
pub open spec fn required_features(entries: Seq<EmittedEntry>) -> Seq<Seq<char>> {
    let sections = if exists|i: int| 0 <= i < entries.len() && (#[trigger] entries[i]).section is Some {
        seq!["sections"@]
    } else {
        Seq::empty()
    };
    let deferred = if exists|i: int| 0 <= i < entries.len() && has_deferred((#[trigger] entries[i]).value) {
        seq!["extern-labels"@]
    } else {
        Seq::empty()
    };
    sections + deferred
}

pub open spec fn string_models(strings: Seq<String>) -> Seq<Seq<char>> {
    strings.map_values(|s: String| s@)
}

impl EmFile {
    /// A file for `entries`, requiring exactly the features they use.
    pub fn new(module: String, exports: BTreeMap<String, u64>, entries: Vec<EmittedEntry>) -> (file: EmFile)
        ensures
            file.version == EM_VERSION,
            string_models(file.requires@) == required_features(entries@),
            file.module == module,
            file.exports == exports,
            file.entries == entries,
    {
        let mut needed: Vec<String> = Vec::new();
        let mut any_section = false;
        let mut any_deferred = false;
        let mut i: usize = 0;
        while i < entries.len()
            invariant
                i <= entries@.len(),
                any_section == exists|j: int| 0 <= j < i && (#[trigger] entries@[j]).section is Some,
                any_deferred == exists|j: int| 0 <= j < i && has_deferred((#[trigger] entries@[j]).value),
            decreases entries@.len() - i,
        {
            if entries[i].section.is_some() {
                any_section = true;
            }
            if contains_deferred(&entries[i].value) {
                any_deferred = true;
            }
            i += 1;
        }
        if any_section {
            needed.push(String::from_str(features::SECTIONS));
        }
        if any_deferred {
            needed.push(String::from_str(features::EXTERN_LABELS));
        }
        assert(string_models(needed@) =~= required_features(entries@));
        EmFile { version: EM_VERSION, requires: needed, module, exports, entries }
    }
}

/// What a reader looks at in a `.em` document before decoding it.
#[derive(Debug, PartialEq, Eq, Structural)]
pub enum EmHeader {
    /// A JSON object, with its `version` where that is an unsigned integer.
    Object { version: Option<u64> },
    /// A JSON array: the plain entry list written before `.em` version 1.
    List,
    /// Any other JSON value.
    Other,
}

/// A JSON document's top-level value as a reader first sees it: its kind,
/// and for an object, each member's name with the member read as an
/// unsigned integer where it is one.
#[derive(Debug, PartialEq, Eq)]
pub enum JsonTop {
    Null,
    Bool,
    Number,
    String,
    Array,
    Object(Vec<(String, Option<u64>)>),
}

/// What `serde_json` reads of a document: its top-level value, or the
/// message of the error it stopped at.
pub uninterp spec fn json_top(json: Seq<char>) -> Result<JsonTop, Seq<char>>;

/// Parses `json` with `serde_json::from_str` into a `serde_json::Value` and
/// hands back its top-level kind, and for an object its members with
/// `Value::as_u64` of each; a syntax error comes back as
/// `serde_json::Error`'s message. The contract only names the outcome:
/// JSON's grammar is not restated here.
#[verifier::external_body]
fn read_json_top(json: &str) -> (top: Result<JsonTop, String>)
    ensures
        top is Ok <==> json_top(json@) is Ok,
        top is Ok ==> json_top(json@) == Ok::<JsonTop, Seq<char>>(top->Ok_0),
        top is Err ==> json_top(json@) == Err::<JsonTop, Seq<char>>(top->Err_0@),
{
    match serde_json::from_str::<serde_json::Value>(json) {
        Ok(serde_json::Value::Null) => Ok(JsonTop::Null),
        Ok(serde_json::Value::Bool(_)) => Ok(JsonTop::Bool),
        Ok(serde_json::Value::Number(_)) => Ok(JsonTop::Number),
        Ok(serde_json::Value::String(_)) => Ok(JsonTop::String),
        Ok(serde_json::Value::Array(_)) => Ok(JsonTop::Array),
        Ok(serde_json::Value::Object(members)) => {
            Ok(JsonTop::Object(members.into_iter().map(|(name, value)| (name, value.as_u64())).collect()))
        },
        Err(error) => Err(error.to_string()),
    }
}

/// The unsigned-integer reading of the first member named `key`, if there
/// is one and it reads as one.
pub open spec fn member_number(members: Seq<(String, Option<u64>)>, key: Seq<char>) -> Option<u64>
    decreases members.len(),
{
    if members.len() == 0 {
        None
    } else if members[0].0@ == key {
        members[0].1
    } else {
        member_number(members.drop_first(), key)
    }
}

/// The header of a document with top-level value `top`: an object with its
/// `version`, a list, or anything else.
pub open spec fn header_of(top: JsonTop) -> EmHeader {
    match top {
        JsonTop::Object(members) => EmHeader::Object { version: member_number(members@, "version"@) },
        JsonTop::Array => EmHeader::List,
        _ => EmHeader::Other,
    }
}

/// The header of a document with top-level value `top`.
pub fn header_from(top: &JsonTop) -> (header: EmHeader)
    ensures
        header == header_of(*top),
{
    match top {
        JsonTop::Object(members) => {
            let mut k: usize = 0;
            assert(members@.skip(0) =~= members@);
            while k < members.len()
                invariant
                    k <= members@.len(),
                    header_of(*top) == (EmHeader::Object { version: member_number(members@, "version"@) }),
                    member_number(members@, "version"@) == member_number(members@.skip(k as int), "version"@),
                decreases members@.len() - k,
            {
                assert(members@.skip(k as int).drop_first() =~= members@.skip(k + 1));
                assert(members@.skip(k as int)[0] == members@[k as int]);
                if str_eq(members[k].0.as_str(), "version") {
                    return EmHeader::Object { version: members[k].1 };
                }
                k += 1;
            }
            assert(members@.skip(k as int).len() == 0);
            EmHeader::Object { version: None }
        },
        JsonTop::Array => EmHeader::List,
        _ => EmHeader::Other,
    }
}

/// Why a reader refuses a document with this header, if it does.
pub open spec fn header_error(header: EmHeader) -> Option<Seq<char>> {
    match header {
        EmHeader::List => Some(
            "this is an unversioned `.em` file from before `.em` version "@ + decimal(EM_VERSION as nat)
                + "; recompile its source with this `bitterasm`"@,
        ),
        EmHeader::Other => Some("a `.em` file must be a JSON object"@),
        EmHeader::Object { version: None } => Some("this `.em` file has no `version`"@),
        EmHeader::Object { version: Some(v) } => if v == EM_VERSION {
            None
        } else {
            Some(
                "`.em` version "@ + decimal(v as nat) + " isn't supported; this reader understands version "@
                    + decimal(EM_VERSION as nat),
            )
        },
    }
}

/// A reader accepts exactly the header a writer writes: an object whose
/// `version` is [`EM_VERSION`]; every other header is refused.
pub proof fn lemma_reader_accepts_exactly_the_written_version(header: EmHeader)
    ensures
        header_error(header) is None <==> header == (EmHeader::Object { version: Some(EM_VERSION) }),
{
}

/// A header's `version` is the reading of the first member named
/// `version`: members before it with other names are passed over, and with
/// no such member there is no version.
pub proof fn lemma_first_version_member_counts(members: Seq<(String, Option<u64>)>, i: int)
    requires
        0 <= i <= members.len(),
        forall|j: int| 0 <= j < i ==> (#[trigger] members[j]).0@ != "version"@,
    ensures
        i < members.len() && members[i].0@ == "version"@ ==> member_number(members, "version"@) == members[i].1,
        i == members.len() ==> member_number(members, "version"@) is None,
    decreases i,
{
    if i > 0 {
        let rest = members.drop_first();
        assert forall|j: int| 0 <= j < i - 1 implies (#[trigger] rest[j]).0@ != "version"@ by {
            assert(rest[j] == members[j + 1]);
        }
        lemma_first_version_member_counts(rest, i - 1);
        assert(members[0].0@ != "version"@);
        if i < members.len() {
            assert(rest[i - 1] == members[i]);
        }
    }
}

/// Accepts exactly a JSON object whose `version` is [`EM_VERSION`].
pub fn check_header(header: &EmHeader) -> (checked: Result<(), String>)
    ensures
        checked is Ok <==> header_error(*header) is None,
        checked is Err ==> header_error(*header) == Some(checked->Err_0@),
{
    match header {
        EmHeader::List => {
            let version = decimal_string(EM_VERSION);
            let head = concat2(
                "this is an unversioned `.em` file from before `.em` version ",
                version.as_str(),
            );
            Err(concat2(head.as_str(), "; recompile its source with this `bitterasm`"))
        },
        EmHeader::Other => Err(String::from_str("a `.em` file must be a JSON object")),
        EmHeader::Object { version: None } => Err(String::from_str("this `.em` file has no `version`")),
        EmHeader::Object { version: Some(v) } => {
            if *v == EM_VERSION {
                Ok(())
            } else {
                let found = decimal_string(*v);
                let ours = decimal_string(EM_VERSION);
                let head = concat3("`.em` version ", found.as_str(), " isn't supported; this reader understands version ");
                Err(concat2(head.as_str(), ours.as_str()))
            }
        },
    }
}

/// The refusal a reader gives a document before decoding it: a JSON syntax
/// error, then [`header_error`].
pub open spec fn document_error(json: Seq<char>) -> Option<Seq<char>> {
    match json_top(json) {
        Err(message) => Some(message),
        Ok(top) => header_error(header_of(top)),
    }
}

/// Reads `json`'s header and accepts it where [`check_header`] does: the
/// checks `EmFile` decoding makes before it decodes the entries.
pub fn check_document(json: &str) -> (checked: Result<(), String>)
    ensures
        checked is Ok <==> document_error(json@) is None,
        checked is Err ==> document_error(json@) == Some(checked->Err_0@),
{
    match read_json_top(json) {
        Err(message) => Err(message),
        Ok(top) => check_header(&header_from(&top)),
    }
}

/// The message for a required feature the reader does not support.
pub open spec fn feature_error(feature: Seq<char>) -> Seq<char> {
    "this `.em` file requires `"@ + feature + "`, which this reader doesn't support"@
}

/// Whether `feature` is one of `supported`.
pub open spec fn supports(supported: Seq<&str>, feature: Seq<char>) -> bool {
    exists|k: int| 0 <= k < supported.len() && (#[trigger] supported[k])@ == feature
}

impl EmFile {
    /// Refuses a file that requires a feature not in `supported`, naming
    /// the first such feature.
    pub fn check_features(&self, supported: &[&str]) -> (checked: Result<(), String>)
        ensures
            checked is Ok <==> forall|i: int|
                0 <= i < self.requires@.len() ==> supports(supported@, #[trigger] self.requires@[i]@),
            checked is Err ==> exists|i: int|
                0 <= i < self.requires@.len() && !supports(supported@, #[trigger] self.requires@[i]@)
                    && (forall|j: int| 0 <= j < i ==> supports(supported@, #[trigger] self.requires@[j]@))
                    && checked->Err_0@ == feature_error(self.requires@[i]@),
    {
        let mut i: usize = 0;
        while i < self.requires.len()
            invariant
                i <= self.requires@.len(),
                forall|j: int| 0 <= j < i ==> supports(supported@, #[trigger] self.requires@[j]@),
            decreases self.requires@.len() - i,
        {
            let feature = self.requires[i].as_str();
            let mut k: usize = 0;
            let mut found = false;
            while k < supported.len()
                invariant
                    k <= supported@.len(),
                    feature@ == self.requires@[i as int]@,
                    found ==> supports(supported@, feature@),
                    !found ==> forall|m: int| 0 <= m < k ==> (#[trigger] supported@[m])@ != feature@,
                decreases supported@.len() - k,
            {
                if !found && str_eq(supported[k], feature) {
                    found = true;
                }
                k += 1;
            }
            if !found {
                let head = concat3("this `.em` file requires `", feature, "`, which this reader doesn't support");
                return Err(head);
            }
            i += 1;
        }
        Ok(())
    }
}

/// Every feature a file written by [`EmFile::new`] requires is one this
/// version defines: such a file passes [`EmFile::check_features`] with
/// [`features::all`].
pub proof fn lemma_written_features_are_defined(entries: Seq<EmittedEntry>)
    ensures
        forall|k: int|
            0 <= k < required_features(entries).len() ==> supports(
                features::defined(),
                #[trigger] required_features(entries)[k],
            ),
{
    let found = required_features(entries);
    assert forall|k: int| 0 <= k < found.len() implies supports(features::defined(), #[trigger] found[k]) by {
        if found[k] == "sections"@ {
            assert(features::defined()[0]@ == found[k]);
        } else {
            assert(features::defined()[1]@ == found[k]);
        }
    }
}

} // verus!
