//! Tests of lazily unescaped parameter values.

use http_auth::parser::quoted_string;
use http_auth::ParamValue;

#[test]
fn unescape() {
    assert_eq!(&ParamValue::new(0, "").to_unescaped(), "");
    assert_eq!(&ParamValue::new(0, "foo").to_unescaped(), "foo");
    assert_eq!(&ParamValue::new(1, "\\foo").to_unescaped(), "foo");
    assert_eq!(&ParamValue::new(1, "fo\\o").to_unescaped(), "foo");
    assert_eq!(&ParamValue::new(1, "foo\\bar").to_unescaped(), "foobar");
    assert_eq!(&ParamValue::new(3, "\\foo\\ba\\r").to_unescaped(), "foobar");
}

/// A quoted value containing an escaped quote unescapes to the text with
/// the quote kept literally.
#[test]
fn unescape_escaped_quote() {
    let (v, rest) = quoted_string("\"a\\\"b\"").unwrap();
    assert_eq!(rest, "");
    assert_eq!(v, ParamValue::new(1, "a\\\"b"));
    assert_eq!(v.unescaped_len(), 3);
    assert_eq!(v.to_unescaped(), "a\"b");
}

/// The empty quoted string is a zero-length value with zero escapes.
#[test]
fn empty_quoted_string() {
    let (v, rest) = quoted_string("\"\"").unwrap();
    assert_eq!(rest, "");
    assert_eq!(v, ParamValue::new(0, ""));
    assert_eq!(v.unescaped_len(), 0);
    assert_eq!(v.to_unescaped(), "");
}

/// Unescaping a value with zero escapes returns the raw text unchanged,
/// and unescaping twice returns equal strings.
#[test]
fn unescape_idempotent() {
    let v = ParamValue::new(0, "blah blah");
    assert_eq!(v.to_unescaped(), "blah blah");
    let w = ParamValue::new(2, "a\\\\b\\\"c");
    let once = w.to_unescaped();
    let twice = w.to_unescaped();
    assert_eq!(once, twice);
    assert_eq!(once, "a\\b\"c");
}

/// The unescaped length is the raw length minus the escape count, and is
/// available without unescaping.
#[test]
fn unescaped_len_is_cheap_arithmetic() {
    assert_eq!(ParamValue::new(0, "foo").unescaped_len(), 3);
    assert_eq!(ParamValue::new(1, "a\\\"b").unescaped_len(), 3);
    assert_eq!(ParamValue::new(3, "\\foo\\ba\\r").unescaped_len(), 6);
}
