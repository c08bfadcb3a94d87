//! Tests of the password-client builder.

use http_auth::{ChallengeRef, PasswordClient};

/// With no scheme clients compiled in, the first challenge's scheme is
/// reported as unsupported.
#[test]
fn builder_reports_first_scheme() {
    let r = PasswordClient::builder()
        .challenges("UnsupportedSchemeA, Basic realm=\"foo\", UnsupportedSchemeB")
        .build();
    assert_eq!(r.unwrap_err(), "Unsupported scheme \"UnsupportedSchemeA\"");
}

/// The first error sticks: later challenge lists cannot change it.
#[test]
fn builder_keeps_first_error() {
    let r = PasswordClient::builder()
        .challenges("SchemeA")
        .challenges("SchemeB")
        .build();
    assert_eq!(r.unwrap_err(), "Unsupported scheme \"SchemeA\"");
}

/// A parse failure in the first list item is reported.
#[test]
fn builder_reports_parse_error() {
    let r = PasswordClient::builder().challenges(",").build();
    assert_eq!(r.unwrap_err(), "no challenge in list");
    let r = PasswordClient::builder().challenges("Scheme realm=\"x").build();
    assert_eq!(r.unwrap_err(), "unterminated quoted string");
}

/// A builder shown nothing at all reports that.
#[test]
fn builder_empty() {
    let r = PasswordClient::builder().build();
    assert_eq!(r.unwrap_err(), "no challenges given");
}

/// A single challenge handed over directly is considered.
#[test]
fn builder_single_challenge() {
    let c = ChallengeRef::new("Basic");
    let r = PasswordClient::builder().challenge(&c).build();
    assert_eq!(r.unwrap_err(), "Unsupported scheme \"Basic\"");
}

/// Challenges can come straight from a header value; one whose bytes are
/// not visible ASCII has no text to parse.
#[test]
fn builder_header_value() {
    let v = http::header::HeaderValue::from_static("Bearer realm=\"api\"");
    let r = PasswordClient::builder().header_value(&v).build();
    assert_eq!(r.unwrap_err(), "Unsupported scheme \"Bearer\"");

    let bad = http::header::HeaderValue::from_bytes(b"Basic \xff").unwrap();
    let r = PasswordClient::builder().header_value(&bad).build();
    assert_eq!(r.unwrap_err(), "non-ASCII header value");
}
