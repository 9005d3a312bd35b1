//! The scalar decoder on raw text tokens.

use configure::codec::{decode_bool, decode_text, hex, DecodeFault, FieldValue, Kind};

#[test]
fn test_hex_parser() {
    assert_eq!(hex(""), Some(vec![]));
    assert_eq!(hex("01"), Some(vec![0x1]));
    assert_eq!(hex("ff"), Some(vec![0xff]));
    assert_eq!(hex("01ff70"), Some(vec![0x1, 0xff, 0x70]));
    assert_eq!(hex("0x04"), Some(vec![0x4]));
    assert_eq!(hex("0xdeadbeef"), Some(vec![0xde, 0xad, 0xbe, 0xef]));
    assert_eq!(hex("1"), None);
    assert_eq!(hex("not hexadecimal"), None);
}

#[test]
fn test_enum_accessor() {
    let kind = Kind::Enum(vec![String::from("Bar"), String::from("Baz")]);

    assert_eq!(
        decode_text("Bar", &kind).unwrap(),
        FieldValue::Variant(String::from("Bar"))
    );
    assert_eq!(
        decode_text("Baz", &kind).unwrap(),
        FieldValue::Variant(String::from("Baz"))
    );
    assert!(decode_text("Foo", &kind).is_err());
}

#[test]
fn test_numbers() {
    assert_eq!(decode_text("-7", &Kind::I8).unwrap(), FieldValue::Int(-7));
    assert_eq!(decode_text("-300", &Kind::I16).unwrap(), FieldValue::Int(-300));
    assert_eq!(decode_text("-55555", &Kind::I32).unwrap(), FieldValue::Int(-55555));
    assert_eq!(decode_text("1", &Kind::U64).unwrap(), FieldValue::UInt(1));
    // a float field keeps its validated token; the conversion itself is
    // the standard textual parse
    assert_eq!(
        decode_text("0.25", &Kind::F32).unwrap(),
        FieldValue::FloatText(String::from("0.25"))
    );
    assert_eq!("0.25".parse::<f32>().unwrap(), 0.25f32);
}

#[test]
fn test_strings() {
    assert_eq!(
        decode_text("Hello world!", &Kind::Str).unwrap(),
        FieldValue::Str(String::from("Hello world!"))
    );
}

#[test]
fn bool_literal_set() {
    assert_eq!(decode_bool("0"), Some(false));
    assert_eq!(decode_bool("false"), Some(false));
    assert_eq!(decode_bool("False"), Some(false));
    assert_eq!(decode_bool("FALSE"), Some(false));
    assert_eq!(decode_bool("1"), Some(true));
    assert_eq!(decode_bool("true"), Some(true));
    assert_eq!(decode_bool("True"), Some(true));
    assert_eq!(decode_bool("TRUE"), Some(true));
    assert_eq!(decode_bool("yes"), None);
    assert_eq!(decode_bool(""), None);
}

#[test]
fn char_is_single_character() {
    assert_eq!(decode_text("x", &Kind::Char).unwrap(), FieldValue::Char('x'));
    assert!(decode_text("xy", &Kind::Char).is_err());
    assert!(decode_text("", &Kind::Char).is_err());
}

#[test]
fn unsigned_bounds() {
    assert_eq!(decode_text("255", &Kind::U8).unwrap(), FieldValue::UInt(255));
    assert!(decode_text("300", &Kind::U8).is_err());
    assert_eq!(decode_text("+5", &Kind::U16).unwrap(), FieldValue::UInt(5));
    assert!(decode_text("-5", &Kind::U16).is_err());
    assert_eq!(
        decode_text("18446744073709551615", &Kind::U64).unwrap(),
        FieldValue::UInt(u64::MAX)
    );
    assert!(decode_text("18446744073709551616", &Kind::U64).is_err());
    assert!(decode_text("", &Kind::U32).is_err());
    assert!(decode_text("12a", &Kind::U32).is_err());
}

#[test]
fn signed_bounds() {
    assert_eq!(decode_text("-128", &Kind::I8).unwrap(), FieldValue::Int(-128));
    assert_eq!(decode_text("127", &Kind::I8).unwrap(), FieldValue::Int(127));
    assert!(decode_text("-129", &Kind::I8).is_err());
    assert!(decode_text("128", &Kind::I8).is_err());
    assert_eq!(
        decode_text("-9223372036854775808", &Kind::I64).unwrap(),
        FieldValue::Int(i64::MIN)
    );
}

#[test]
fn float_tokens() {
    assert!(decode_text("3.5", &Kind::F64).is_ok());
    assert!(decode_text("-3.5e-2", &Kind::F64).is_ok());
    assert!(decode_text("inf", &Kind::F32).is_ok());
    assert!(decode_text("-Infinity", &Kind::F64).is_ok());
    assert!(decode_text("NaN", &Kind::F32).is_ok());
    assert!(decode_text("3.", &Kind::F64).is_ok());
    assert!(decode_text(".5", &Kind::F64).is_ok());
    assert!(decode_text(".", &Kind::F64).is_err());
    assert!(decode_text("1e", &Kind::F64).is_err());
    assert!(decode_text("e5", &Kind::F64).is_err());
    assert!(decode_text("0x1p3", &Kind::F64).is_err());
}

#[test]
fn sequences_split_on_commas() {
    assert_eq!(
        decode_text("0,1", &Kind::Sequence(Box::new(Kind::U16))).unwrap(),
        FieldValue::Sequence(vec![FieldValue::UInt(0), FieldValue::UInt(1)])
    );
    // a token with no commas is a single-element sequence
    assert_eq!(
        decode_text("7", &Kind::Sequence(Box::new(Kind::U16))).unwrap(),
        FieldValue::Sequence(vec![FieldValue::UInt(7)])
    );
    // the first bad segment fails the whole sequence
    assert!(decode_text("1,x,3", &Kind::Sequence(Box::new(Kind::U16))).is_err());
}

#[test]
fn option_wraps_the_decoded_token() {
    assert_eq!(
        decode_text("7", &Kind::Optional(Box::new(Kind::U32))).unwrap(),
        FieldValue::Optional(Some(Box::new(FieldValue::UInt(7))))
    );
}

#[test]
fn unsupported_shapes_fail() {
    assert_eq!(
        decode_text("anything", &Kind::Table).unwrap_err(),
        DecodeFault::Mismatch
    );
    assert_eq!(
        decode_text("anything", &Kind::EnumNonUnit).unwrap_err(),
        DecodeFault::ExpectedUnitVariant
    );
    assert_eq!(
        decode_text("maybe", &Kind::Bool).unwrap_err(),
        DecodeFault::Invalid(String::from("maybe"))
    );
    assert_eq!(
        decode_text("Foo", &Kind::Enum(vec![String::from("Bar")])).unwrap_err(),
        DecodeFault::UnknownVariant(String::from("Foo"))
    );
}
