//! The structured value wrapper and the token-holding decoders.

use configure::codec::{EnvDeserializer, FieldValue, Kind};
use configure::config::Configuration;
use configure::source::{ConfigSource, DefaultSource, DocState};
use configure::value::{DocEntry, DocValue, StructuredValue};
use configure::Configure;

#[test]
fn env_deserializer_decodes_its_token() {
    let token = EnvDeserializer(String::from("0xdeadbeef"));
    assert_eq!(
        token.decode(&Kind::Bytes).unwrap(),
        FieldValue::Bytes(vec![0xde, 0xad, 0xbe, 0xef])
    );
    assert!(token.decode(&Kind::U32).is_err());
}

#[test]
fn structured_value_from_text_splits_on_commas() {
    let single = StructuredValue::from_text("plain");
    assert_eq!(
        single.decode(&Kind::Str).unwrap(),
        FieldValue::Str(String::from("plain"))
    );

    let listed = StructuredValue::from_text("a,b");
    assert_eq!(
        listed.decode(&Kind::Sequence(Box::new(Kind::Str))).unwrap(),
        FieldValue::Sequence(vec![
            FieldValue::Str(String::from("a")),
            FieldValue::Str(String::from("b")),
        ])
    );
}

#[test]
fn structured_value_wraps_document_nodes() {
    let value = StructuredValue::from_doc(DocValue::Int(31));
    assert_eq!(value.decode(&Kind::U8).unwrap(), FieldValue::UInt(31));
}

#[test]
fn document_lookup_walks_tables() {
    let doc = DocValue::Table(vec![DocEntry {
        key: String::from("test"),
        value: DocValue::Table(vec![DocEntry {
            key: String::from("first_field"),
            value: DocValue::Int(4),
        }]),
    }]);

    let inner = doc.get("test").unwrap();
    assert_eq!(inner.get("first_field"), Some(&DocValue::Int(4)));
    assert_eq!(inner.get("missing"), None);
    assert_eq!(DocValue::Int(1).get("anything"), None);
}

#[test]
fn a_test_source_holds_only_the_document() {
    let doc = DocValue::Table(vec![DocEntry {
        key: String::from("test"),
        value: DocValue::Table(vec![DocEntry {
            key: String::from("first_field"),
            value: DocValue::Int(55),
        }]),
    }]);
    let mut source = ConfigSource::EnvAndDocument(DefaultSource::test(Some(doc)));

    let cfg = Configuration::generate(&mut source).unwrap();
    assert_eq!(cfg.first_field, 55);
    assert_eq!(cfg.second_field, "FooBar");

    let mut bare = ConfigSource::EnvAndDocument(DefaultSource::test(None));
    assert_eq!(
        Configuration::generate(&mut bare).unwrap(),
        Configuration::default()
    );
}

#[test]
fn a_document_failure_leaves_env_overrides_healthy() {
    // a field answered by the environment never needs the document, so
    // a recorded load failure stays unsurfaced for it
    let mut source = ConfigSource::EnvAndDocument(DefaultSource::new(
        vec![
            configure::source::EnvVar {
                name: String::from("TEST_FIRST_FIELD"),
                entry: configure::source::EnvEntry::Text(String::from("8")),
            },
            configure::source::EnvVar {
                name: String::from("TEST_SECOND_FIELD"),
                entry: configure::source::EnvEntry::Text(String::from("fine")),
            },
            configure::source::EnvVar {
                name: String::from("TEST_THIRD_FIELD"),
                entry: configure::source::EnvEntry::Text(String::from("1,2")),
            },
        ],
        DocState::Failed(String::from("bad manifest")),
    ));

    assert_eq!(
        Configuration::generate(&mut source).unwrap(),
        Configuration {
            first_field: 8,
            second_field: String::from("fine"),
            third_field: Some(vec![1, 2]),
        }
    );
}
