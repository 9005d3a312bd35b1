//! Whole resolutions of the ready-made configuration struct.

use configure::config::Configuration;
use configure::source::{
    load_document, ConfigSource, DefaultSource, DocState, EnvEntry, EnvVar,
};
use configure::Configure;

fn env(rows: &[(&str, &str)]) -> Vec<EnvVar> {
    rows.iter()
        .map(|(name, value)| EnvVar {
            name: String::from(*name),
            entry: EnvEntry::Text(String::from(*value)),
        })
        .collect()
}

#[test]
fn defaults_only_env_vars_set() {
    let mut source = ConfigSource::EnvAndDocument(DefaultSource::new(env(&[]), DocState::Absent));

    assert_eq!(
        Configuration::generate(&mut source).unwrap(),
        Configuration::default()
    );
}

#[test]
fn with_env_vars_env_vars_set() {
    let mut source = ConfigSource::EnvAndDocument(DefaultSource::new(
        env(&[
            ("TEST_FIRST_FIELD", "7"),
            ("TEST_SECOND_FIELD", "BazQuux"),
            ("TEST_THIRD_FIELD", "0,1"),
        ]),
        DocState::Absent,
    ));

    assert_eq!(
        Configuration::generate(&mut source).unwrap(),
        Configuration {
            first_field: 7,
            second_field: String::from("BazQuux"),
            third_field: Some(vec![0, 1]),
        }
    );
}

const MANIFEST: &str = "\
[package]
name = \"test-setup\"

[package.metadata.test]
first_field = 9
second_field = \"Colonel Aureliano Buendia\"
third_field = [10, 20, 30]
";

#[test]
fn from_toml_values() {
    let mut source =
        ConfigSource::EnvAndDocument(DefaultSource::new(env(&[]), load_document(MANIFEST)));

    assert_eq!(
        Configuration::generate(&mut source).unwrap(),
        Configuration {
            first_field: 9,
            second_field: String::from("Colonel Aureliano Buendia"),
            third_field: Some(vec![10, 20, 30]),
        }
    );
}

const ALT_MANIFEST: &str = "\
[package]
name = \"alt-toml\"

[package.metadata.test]
first_field = 9
second_field = \"Labyrinth\"
";

#[test]
fn mixed() {
    let mut source = ConfigSource::EnvAndDocument(DefaultSource::new(
        env(&[("TEST_FIRST_FIELD", "12")]),
        load_document(ALT_MANIFEST),
    ));

    assert_eq!(
        Configuration::generate(&mut source).unwrap(),
        Configuration {
            first_field: 12,
            second_field: String::from("Labyrinth"),
            ..Configuration::default()
        }
    );
}

#[test]
fn regenerate_replaces_every_field() {
    let mut source = ConfigSource::EnvAndDocument(DefaultSource::new(
        env(&[("TEST_FIRST_FIELD", "3")]),
        DocState::Absent,
    ));
    let mut cfg = Configuration {
        first_field: 1,
        second_field: String::from("stale"),
        third_field: None,
    };

    cfg.regenerate(&mut source).unwrap();

    assert_eq!(
        cfg,
        Configuration {
            first_field: 3,
            ..Configuration::default()
        }
    );
}

#[test]
fn regenerate_keeps_the_value_on_failure() {
    let mut source = ConfigSource::EnvAndDocument(DefaultSource::new(
        env(&[("TEST_FIRST_FIELD", "not a number")]),
        DocState::Absent,
    ));
    let mut cfg = Configuration {
        first_field: 1,
        second_field: String::from("kept"),
        third_field: None,
    };

    assert!(cfg.regenerate(&mut source).is_err());
    assert_eq!(cfg.first_field, 1);
    assert_eq!(cfg.second_field, "kept");
    assert_eq!(cfg.third_field, None);
}

#[test]
fn bad_env_value_fails_the_whole_resolution() {
    let mut source = ConfigSource::EnvAndDocument(DefaultSource::new(
        env(&[("TEST_FIRST_FIELD", "7"), ("TEST_SECOND_FIELD", "fine"), ("TEST_THIRD_FIELD", "x")]),
        DocState::Absent,
    ));

    assert!(Configuration::generate(&mut source).is_err());
}
