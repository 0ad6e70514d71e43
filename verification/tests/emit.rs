use bitterasm::emit::{header_from, JsonTop};
use std::collections::BTreeMap;

use bitterasm::emit::features;
use bitterasm::emit::{check_document, check_header, EmFile, EmHeader, EmittedEntry, EmittedValue, EM_VERSION};

fn int_entry(section: Option<&str>) -> EmittedEntry {
    EmittedEntry { value: EmittedValue::Int { value: "1".to_string() }, section: section.map(str::to_string) }
}

#[test]
fn requires_lists_exactly_the_features_used() {
    let plain = EmFile::new("m".to_string(), BTreeMap::new(), vec![int_entry(None)]);
    assert!(plain.requires.is_empty());

    let sectioned = EmFile::new("m".to_string(), BTreeMap::new(), vec![int_entry(Some(".text"))]);
    assert_eq!(sectioned.requires, [features::SECTIONS]);

    // A `Deferred` nested inside a struct still counts.
    let nested = EmittedValue::Struct {
        id: "m.S".to_string(),
        args: Vec::new(),
        fields: vec![(
            "target".to_string(),
            EmittedValue::Deferred { module: "other".to_string(), symbol: "label".to_string() },
        )],
    };
    let linked = EmFile::new("m".to_string(), BTreeMap::new(), vec![EmittedEntry { value: nested, section: None }]);
    assert_eq!(linked.requires, [features::EXTERN_LABELS]);
}

/// The reader's checks in order: the header first, then (once the file is
/// decoded) its required features against `supported`.
fn error(json: &str, requires: &[&str], supported: &[&str]) -> String {
    if let Err(message) = check_document(json) {
        return message;
    }
    let file = EmFile {
        version: EM_VERSION,
        requires: requires.iter().map(|feature| feature.to_string()).collect(),
        module: "m".to_string(),
        exports: BTreeMap::new(),
        entries: Vec::new(),
    };
    file.check_features(supported).unwrap_err()
}

#[test]
fn parse_rejects_what_it_cant_read_correctly() {
    let all = features::all();

    assert!(error("[]", &[], &all).contains("unversioned `.em` file"));
    assert!(error(r#"{"requires": [], "module": "m", "exports": {}, "entries": []}"#, &[], &all)
        .contains("no `version`"));
    assert!(error(r#"{"version": 2, "requires": [], "module": "m", "exports": {}, "entries": []}"#, &[], &all)
        .contains("version 2 isn't supported"));
    assert!(error(
        r#"{"version": 1, "requires": ["sections"], "module": "m", "exports": {}, "entries": []}"#,
        &["sections"],
        &[]
    )
    .contains("requires `sections`"));
    assert!(error(
        r#"{"version": 1, "requires": ["teleport"], "module": "m", "exports": {}, "entries": []}"#,
        &["teleport"],
        &all
    )
    .contains("requires `teleport`"));
}

#[test]
fn a_versioned_object_passes_the_header_check() {
    let json = r#"{"version": 1, "requires": [], "module": "m", "exports": {}, "entries": []}"#;
    assert_eq!(check_document(json), Ok(()));
}

#[test]
fn header_messages_are_exact() {
    assert_eq!(
        check_header(&EmHeader::List),
        Err("this is an unversioned `.em` file from before `.em` version 1; recompile its source with this `bitterasm`"
            .to_string())
    );
    assert_eq!(check_header(&EmHeader::Other), Err("a `.em` file must be a JSON object".to_string()));
    assert_eq!(
        check_header(&EmHeader::Object { version: Some(12) }),
        Err("`.em` version 12 isn't supported; this reader understands version 1".to_string())
    );
    assert_eq!(check_header(&EmHeader::Object { version: Some(1) }), Ok(()));
    assert!(check_document("3").unwrap_err().contains("JSON object"));
    assert!(check_document("{").is_err());
}

#[test]
fn what_new_writes_passes_the_full_reader() {
    let entries = vec![
        int_entry(Some(".text")),
        EmittedEntry { value: EmittedValue::Deferred { module: "o".to_string(), symbol: "l".to_string() }, section: None },
    ];
    let file = EmFile::new("m".to_string(), BTreeMap::new(), entries);
    assert_eq!(file.requires, [features::SECTIONS, features::EXTERN_LABELS]);
    assert_eq!(file.check_features(&features::all()), Ok(()));
    assert_eq!(file.check_features(&[features::SECTIONS]).unwrap_err(),
        "this `.em` file requires `extern-labels`, which this reader doesn't support");
}

#[test]
fn the_header_is_the_version_member_of_an_object() {
    let members = vec![("module".to_string(), None), ("version".to_string(), Some(1))];
    assert_eq!(header_from(&JsonTop::Object(members)), EmHeader::Object { version: Some(1) });
    let unversioned = vec![("version".to_string(), None)];
    assert_eq!(header_from(&JsonTop::Object(unversioned)), EmHeader::Object { version: None });
    assert_eq!(header_from(&JsonTop::Array), EmHeader::List);
    assert_eq!(header_from(&JsonTop::String), EmHeader::Other);
    assert!(check_document(r#"{"version": "1"}"#).unwrap_err().contains("no `version`"));
    assert!(check_document("null").unwrap_err().contains("JSON object"));
}
