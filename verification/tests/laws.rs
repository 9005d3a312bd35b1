//! Concrete instances of the library's general properties, and the
//! error taxonomy.

use configure::codec::{decode_text, join_commas, split_commas, FieldValue, Kind};
use configure::config::Configuration;
use configure::source::{
    env_var_name, load_document, parse_document, ConfigError, ConfigSource, DefaultSource,
    DocState, EnvEntry, EnvVar,
};
use configure::value::{decode_doc, DocEntry, DocValue};
use configure::codec::DecodeFault;
use configure::Configure;

#[test]
fn decoding_is_idempotent() {
    let kind = Kind::Sequence(Box::new(Kind::U16));
    let once = decode_text("0,1,2", &kind);
    let twice = decode_text("0,1,2", &kind);
    assert_eq!(once, twice);

    let kind = Kind::Bytes;
    assert_eq!(decode_text("0xdeadbeef", &kind), decode_text("0xdeadbeef", &kind));
}

#[test]
fn comma_join_round_trip() {
    let parts = vec![
        String::from("alpha"),
        String::from("beta"),
        String::from("gamma"),
    ];
    let joined = join_commas(&parts);
    assert_eq!(joined, "alpha,beta,gamma");
    assert_eq!(split_commas(&joined), parts);

    assert_eq!(
        decode_text(&joined, &Kind::Sequence(Box::new(Kind::Str))).unwrap(),
        FieldValue::Sequence(vec![
            FieldValue::Str(String::from("alpha")),
            FieldValue::Str(String::from("beta")),
            FieldValue::Str(String::from("gamma")),
        ])
    );
}

#[test]
fn splitting_edge_cases() {
    assert_eq!(split_commas(""), vec![String::new()]);
    assert_eq!(split_commas("solo"), vec![String::from("solo")]);
    assert_eq!(split_commas(","), vec![String::new(), String::new()]);
    assert_eq!(
        split_commas("a,,b"),
        vec![String::from("a"), String::new(), String::from("b")]
    );
}

#[test]
fn environment_variable_names() {
    assert_eq!(env_var_name("test", "first_field"), "TEST_FIRST_FIELD");
    assert_eq!(env_var_name("example", "tls_cert"), "EXAMPLE_TLS_CERT");
    assert_eq!(env_var_name("my-app", "port"), "MY_APP_PORT");
}

#[test]
fn documents_parse_into_the_tree() {
    let doc = parse_document("x = 1\ny = \"two\"\nz = [true, false]\n").unwrap();
    assert_eq!(
        doc,
        DocValue::Table(vec![
            DocEntry { key: String::from("x"), value: DocValue::Int(1) },
            DocEntry { key: String::from("y"), value: DocValue::Str(String::from("two")) },
            DocEntry {
                key: String::from("z"),
                value: DocValue::Array(vec![DocValue::Bool(true), DocValue::Bool(false)]),
            },
        ])
    );

    assert!(parse_document("definitely = = not toml").is_err());
}

#[test]
fn document_decoding_coerces_structurally() {
    assert_eq!(
        decode_doc(&DocValue::Int(9), &Kind::U32).unwrap(),
        FieldValue::UInt(9)
    );
    assert_eq!(
        decode_doc(&DocValue::Int(300), &Kind::U8).unwrap_err(),
        DecodeFault::OutOfRange(300)
    );
    assert_eq!(
        decode_doc(&DocValue::Str(String::from("9")), &Kind::U32).unwrap_err(),
        DecodeFault::Mismatch
    );
    assert_eq!(
        decode_doc(&DocValue::Bool(true), &Kind::Bool).unwrap(),
        FieldValue::Bool(true)
    );
    assert_eq!(
        decode_doc(
            &DocValue::Array(vec![DocValue::Int(1), DocValue::Int(255)]),
            &Kind::Bytes
        )
        .unwrap(),
        FieldValue::Bytes(vec![1, 255])
    );
    assert_eq!(
        decode_doc(&DocValue::Str(String::from("Bar")), &Kind::Enum(vec![String::from("Bar")]))
            .unwrap(),
        FieldValue::Variant(String::from("Bar"))
    );
}

#[test]
fn a_non_unicode_variable_is_a_hard_error() {
    let mut source = ConfigSource::EnvAndDocument(DefaultSource::new(
        vec![EnvVar {
            name: String::from("TEST_FIRST_FIELD"),
            entry: EnvEntry::NotUnicode,
        }],
        DocState::Absent,
    ));

    match Configuration::generate(&mut source).unwrap_err() {
        ConfigError::NotUnicode { var } => assert_eq!(var, "TEST_FIRST_FIELD"),
        other => panic!("expected a non-unicode error, got {:?}", other),
    }
}

#[test]
fn a_failed_document_load_surfaces_once() {
    let state = load_document("broken = = manifest");
    assert!(matches!(state, DocState::Failed(_)));

    let mut source = ConfigSource::EnvAndDocument(DefaultSource::new(Vec::new(), state));

    // the first resolution that would have needed the document gets the
    // stored error
    match Configuration::generate(&mut source).unwrap_err() {
        ConfigError::Document { .. } => {},
        other => panic!("expected the stored load error, got {:?}", other),
    }

    // later resolutions proceed cleanly on the defaults
    assert_eq!(
        Configuration::generate(&mut source).unwrap(),
        Configuration::default()
    );
}

#[test]
fn an_absent_manifest_table_is_no_document() {
    assert_eq!(load_document("[package]\nname = \"bare\"\n"), DocState::Absent);
    assert_eq!(load_document("unrelated = 1\n"), DocState::Absent);
}

#[test]
fn a_decode_error_names_the_field() {
    let mut source = ConfigSource::EnvAndDocument(DefaultSource::new(
        vec![EnvVar {
            name: String::from("TEST_FIRST_FIELD"),
            entry: EnvEntry::Text(String::from("twelve")),
        }],
        DocState::Absent,
    ));

    match Configuration::generate(&mut source).unwrap_err() {
        ConfigError::Decode { field, kind, fault } => {
            assert_eq!(field, "first_field");
            assert_eq!(kind, Kind::U32);
            assert_eq!(fault, DecodeFault::Invalid(String::from("twelve")));
        },
        other => panic!("expected a decode error, got {:?}", other),
    }
}
