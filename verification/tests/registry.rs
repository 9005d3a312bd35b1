//! The first-wins policy of the active configuration registry.

use configure::config::Configuration;
use configure::registry::ActiveConfiguration;
use configure::source::{ConfigSource, DefaultSource, DocState, NullDeserializer, SuppliedEntry, SuppliedSource};
use configure::value::StructuredValue;
use configure::Configure;

fn supplied(field: &str, raw: &str) -> ConfigSource {
    ConfigSource::UserSupplied(SuppliedSource {
        entries: vec![SuppliedEntry {
            package: String::from("test"),
            field: String::from(field),
            value: StructuredValue::from_text(raw),
        }],
    })
}

fn empty_default() -> ConfigSource {
    ConfigSource::EnvAndDocument(DefaultSource::new(Vec::new(), DocState::Absent))
}

#[test]
fn set_wins_over_later_get() {
    let mut registry = ActiveConfiguration::new();
    registry.set(supplied("second_field", "from the set source"));

    assert!(registry.is_overriden());
    assert!(!registry.is_default());

    let mut source = registry.get(empty_default());
    let cfg = Configuration::generate(&mut source).unwrap();
    assert_eq!(cfg.second_field, "from the set source");
}

#[test]
fn get_installs_the_fallback_once() {
    let mut registry = ActiveConfiguration::new();

    let mut source = registry.get(empty_default());
    assert!(registry.is_default());
    assert!(!registry.is_overriden());
    assert_eq!(
        Configuration::generate(&mut source).unwrap(),
        Configuration::default()
    );

    // a set after the first get changes nothing
    registry.set(supplied("second_field", "too late"));
    assert!(registry.is_default());
    let mut source = registry.get(supplied("second_field", "also too late"));
    let cfg = Configuration::generate(&mut source).unwrap();
    assert_eq!(cfg.second_field, "FooBar");
}

#[test]
fn set_is_first_wins() {
    let mut registry = ActiveConfiguration::new();
    registry.set(supplied("second_field", "first"));
    registry.set(supplied("second_field", "second"));

    let mut source = registry.get(empty_default());
    let cfg = Configuration::generate(&mut source).unwrap();
    assert_eq!(cfg.second_field, "first");
}

#[test]
fn the_null_source_yields_defaults() {
    let mut source = ConfigSource::Null(NullDeserializer);

    assert_eq!(
        Configuration::generate(&mut source).unwrap(),
        Configuration::default()
    );
}

#[test]
fn supplied_values_split_on_commas() {
    // a supplied raw string with commas becomes an array of strings, so
    // it feeds a sequence-of-strings field; for this struct's numeric
    // third field the string segments do not coerce
    let mut source = supplied("third_field", "0,1");
    assert!(Configuration::generate(&mut source).is_err());

    let mut source = supplied("second_field", "no commas here");
    let cfg = Configuration::generate(&mut source).unwrap();
    assert_eq!(cfg.second_field, "no commas here");
}
