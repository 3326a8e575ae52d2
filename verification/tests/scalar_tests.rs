//! Scalar edge cases: floats, bytes, timestamps, reference ids, errors.

use glyph_codec::GValue;
use glyph_codec::GlyphError;
use glyph_codec::RefId;
use glyph_codec::Timestamp;
use glyph_codec::canonicalize_loose;
use glyph_codec::equal_loose;
use glyph_codec::field;
use glyph_codec::hash_loose;
use glyph_codec::hex;

#[test]
fn test_float_nan_rejected() {
    let r = canonicalize_loose(&GValue::float(f64::NAN.to_bits()));
    assert!(matches!(r, Err(GlyphError::InvalidNumber)));
}

#[test]
fn test_float_infinity_rejected() {
    let pos = canonicalize_loose(&GValue::float(f64::INFINITY.to_bits()));
    assert!(matches!(pos, Err(GlyphError::InvalidNumber)));
    let neg = canonicalize_loose(&GValue::float(f64::NEG_INFINITY.to_bits()));
    assert!(matches!(neg, Err(GlyphError::InvalidNumber)));
}

#[test]
fn test_nested_nan_rejected() {
    let gv = GValue::list(vec![
        GValue::int_val(1),
        GValue::map(vec![field("x", GValue::float(f64::NAN.to_bits()))]),
    ]);
    assert!(matches!(
        canonicalize_loose(&gv),
        Err(GlyphError::InvalidNumber)
    ));
}

#[test]
fn test_float_whole_renders_bare() {
    assert_eq!(
        canonicalize_loose(&GValue::float(5.0f64.to_bits())).unwrap(),
        "5"
    );
    assert_eq!(
        canonicalize_loose(&GValue::float((-17.0f64).to_bits())).unwrap(),
        "-17"
    );
}

#[test]
fn test_float_decimal_forms() {
    assert_eq!(
        canonicalize_loose(&GValue::float(0.001f64.to_bits())).unwrap(),
        "0.001"
    );
    assert_eq!(
        canonicalize_loose(&GValue::float((-3.14f64).to_bits())).unwrap(),
        "-3.14"
    );
    assert_eq!(
        canonicalize_loose(&GValue::float(0.5f64.to_bits())).unwrap(),
        "0.5"
    );
}

#[test]
fn test_float_exponential_forms() {
    assert_eq!(
        canonicalize_loose(&GValue::float(1e20f64.to_bits())).unwrap(),
        "1e+20"
    );
    assert_eq!(
        canonicalize_loose(&GValue::float(1.5e-5f64.to_bits())).unwrap(),
        "1.5e-05"
    );
}

#[test]
fn test_bytes_base64() {
    let gv = GValue::bytes(vec![104u8, 105u8]);
    assert_eq!(canonicalize_loose(&gv).unwrap(), "b64\"aGk=\"");
    let empty = GValue::bytes(vec![]);
    assert_eq!(canonicalize_loose(&empty).unwrap(), "b64\"\"");
}

#[test]
fn test_timestamp_utc_format() {
    let t = Timestamp::new(2024, 1, 15, 10, 30, 5).unwrap();
    assert_eq!(
        canonicalize_loose(&GValue::time(t)).unwrap(),
        "2024-01-15T10:30:05Z"
    );
}

#[test]
fn test_ref_id_quoted_value() {
    let gv = GValue::simple_id("a b");
    assert_eq!(canonicalize_loose(&gv).unwrap(), "^\"a b\"");
    let digits = GValue::Id(RefId::simple("123"));
    assert_eq!(canonicalize_loose(&digits).unwrap(), "^123");
}

#[test]
fn test_reserved_words_quoted() {
    for word in ["t", "f", "true", "false", "null", "_"] {
        let out = canonicalize_loose(&GValue::str(word)).unwrap();
        assert_eq!(out, format!("\"{}\"", word));
    }
}

#[test]
fn test_string_leading_digit_quoted() {
    assert_eq!(canonicalize_loose(&GValue::str("1abc")).unwrap(), "\"1abc\"");
    assert_eq!(canonicalize_loose(&GValue::str("-x")).unwrap(), "\"-x\"");
    assert_eq!(canonicalize_loose(&GValue::str("")).unwrap(), "\"\"");
}

#[test]
fn test_control_char_escaped() {
    let gv = GValue::str("a\u{01}b");
    assert_eq!(canonicalize_loose(&gv).unwrap(), "\"a\\u0001b\"");
}

#[test]
fn test_sum_values() {
    let with_payload = GValue::sum("tag", Some(GValue::int_val(1)));
    assert_eq!(canonicalize_loose(&with_payload).unwrap(), "tag(1)");
    let bare = GValue::sum("off", None);
    assert_eq!(canonicalize_loose(&bare).unwrap(), "off()");
}

#[test]
fn test_struct_value() {
    let gv = GValue::struct_val(
        "Point",
        vec![
            field("y", GValue::int_val(2)),
            field("x", GValue::int_val(1)),
        ],
    );
    assert_eq!(canonicalize_loose(&gv).unwrap(), "Point{x=1 y=2}");
}

#[test]
fn test_duplicate_keys_both_survive() {
    let gv = GValue::map(vec![
        field("a", GValue::int_val(1)),
        field("a", GValue::int_val(2)),
    ]);
    assert_eq!(canonicalize_loose(&gv).unwrap(), "{a=1 a=2}");
}

#[test]
fn test_quoted_key_sorts_by_quoted_form() {
    let gv = GValue::map(vec![
        field("a", GValue::int_val(2)),
        field("hello world", GValue::int_val(1)),
    ]);
    // the quoted key starts with a quote character, which sorts first
    assert_eq!(
        canonicalize_loose(&gv).unwrap(),
        "{\"hello world\"=1 a=2}"
    );
}

#[test]
fn test_hash_differs_between_values() {
    let h1 = hash_loose(&GValue::int_val(1)).unwrap();
    let h2 = hash_loose(&GValue::int_val(2)).unwrap();
    assert_ne!(h1, h2);
    assert!(h1.chars().all(|c| c.is_ascii_hexdigit()));
}

#[test]
fn test_equal_false_on_leaf_change() {
    let a = GValue::map(vec![field("x", GValue::int_val(1))]);
    let b = GValue::map(vec![field("x", GValue::int_val(2))]);
    assert!(!equal_loose(&a, &b));
}

#[test]
fn test_equal_false_on_invalid_float() {
    let a = GValue::float(f64::NAN.to_bits());
    assert!(!equal_loose(&a, &a));
}

#[test]
fn test_float_fixed_point_exact_digits() {
    // the canonical fixed-point form carries the exactly rounded fifteen
    // decimal places of the stored double
    assert_eq!(
        canonicalize_loose(&GValue::float(0.1f64.to_bits())).unwrap(),
        "0.1"
    );
    assert_eq!(
        canonicalize_loose(&GValue::float(123.456f64.to_bits())).unwrap(),
        "123.456000000000003"
    );
}

#[test]
fn test_float_whole_large_exponential() {
    assert_eq!(
        canonicalize_loose(&GValue::float(1e15f64.to_bits())).unwrap(),
        "1e+15"
    );
}

#[test]
fn test_error_message() {
    assert_eq!(
        GlyphError::InvalidNumber.message(),
        "invalid number: NaN or infinite float"
    );
}

#[test]
fn test_hex_encode() {
    assert_eq!(hex::encode(&[0u8, 255u8, 16u8]), "00ff10");
    assert_eq!(hex::encode(&[]), "");
}

#[test]
fn test_getters() {
    let gv = GValue::map(vec![field("k", GValue::int_val(7))]);
    assert!(gv.is_map());
    assert_eq!(gv.get("k").and_then(|v| v.as_int()), Some(7));
    assert_eq!(gv.get("missing").map(|_| ()), None);
    let l = GValue::list(vec![GValue::bool(true)]);
    assert_eq!(l.index(0).and_then(|v| v.as_bool()), Some(true));
    assert_eq!(l.index(1).map(|_| ()), None);
}
