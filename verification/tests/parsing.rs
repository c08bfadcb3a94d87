//! Tests of the challenge-list parser and the relaxed list forms.

use http_auth::parse_challenges;
use http_auth::parser::{
    auth_param, foo_bar_list, quoted_string, token_list0, token_list1, Error, ErrorKind,
};
use http_auth::{ChallengeRef, ParamValue};

#[test]
fn test_quoted_string() {
    assert_eq!(quoted_string("\"foo\""), Ok((ParamValue::new(0, "foo"), "")));
    assert_eq!(quoted_string("\"foo bar\""), Ok((ParamValue::new(0, "foo bar"), "")));
    assert_eq!(quoted_string("\"foo \\\" bar\""), Ok((ParamValue::new(1, "foo \\\" bar"), "")));
    assert_eq!(quoted_string("\"\""), Ok((ParamValue::new(0, ""), "")));
}

#[test]
fn test_challenges() {
    assert_eq!(
        parse_challenges("Scheme foo=\"blah \\\" blah\""),
        Ok(vec![ChallengeRef {
            scheme: "Scheme",
            params: vec![("foo", ParamValue::new(1, "blah \\\" blah"))],
        }])
    );
}

#[test]
fn test_list1() {
    assert_eq!(token_list1("foo,bar"), Ok((vec!["foo", "bar"], "")));
    assert_eq!(token_list1("foo ,bar"), Ok((vec!["foo", "bar"], "")));
    assert_eq!(token_list1("foo ,bar, charlie   "), Ok((vec!["foo", "bar", "charlie"], "   ")));
    assert_eq!(token_list1(""), Err(Error { kind: ErrorKind::EmptyToken, pos: 0 }));
    assert_eq!(token_list1(","), Err(Error { kind: ErrorKind::EmptyToken, pos: 1 }));
    assert_eq!(token_list1(",  ,"), Err(Error { kind: ErrorKind::EmptyToken, pos: 4 }));
}

#[test]
fn test_2level_list1() {
    assert_eq!(
        foo_bar_list(", foo bar,bar, foo bar,"),
        Ok((vec![vec!["bar", "bar"], vec!["bar"]], ""))
    );
}

#[test]
fn test_list0() {
    assert_eq!(token_list0("foo,bar"), (vec!["foo", "bar"], ""));
    assert_eq!(token_list0("foo ,bar"), (vec!["foo", "bar"], ""));
    assert_eq!(token_list0("foo ,bar, charlie   "), (vec!["foo", "bar", "charlie"], "   "));
    assert_eq!(token_list0(""), (vec![], ""));
    assert_eq!(token_list0(","), (vec![], ""));
    assert_eq!(token_list0(",  ,"), (vec![], ""));
}

/// A challenge list holding only separators has zero challenges and must
/// be rejected.
#[test]
fn challenge_list_rejects_empty() {
    for input in ["", ",", ",  ,"] {
        let e = parse_challenges(input).unwrap_err();
        assert_eq!(e.kind, ErrorKind::NoChallenges, "input {:?}", input);
    }
}

/// One challenge, one quoted parameter with one escape.
#[test]
fn scheme_with_quoted_param() {
    let cs = parse_challenges("Scheme foo=\"blah \\\" blah\"").unwrap();
    assert_eq!(cs.len(), 1);
    assert_eq!(cs[0].scheme, "Scheme");
    assert_eq!(cs[0].params.len(), 1);
    assert_eq!(cs[0].params[0].0, "foo");
    assert_eq!(cs[0].params[0].1, ParamValue::new(1, "blah \\\" blah"));
    assert_eq!(cs[0].params[0].1.to_unescaped(), "blah \" blah");
}

/// Several challenges with relaxed commas, parameter lists ending at the
/// outer list's boundaries.
#[test]
fn challenge_list_boundaries() {
    let cs = parse_challenges("UnsupportedSchemeA, Basic realm=\"foo\", UnsupportedSchemeB")
        .unwrap();
    assert_eq!(cs.len(), 3);
    assert_eq!(cs[0].scheme, "UnsupportedSchemeA");
    assert!(cs[0].params.is_empty());
    assert_eq!(cs[1].scheme, "Basic");
    assert_eq!(cs[1].params, vec![("realm", ParamValue::new(0, "foo"))]);
    assert_eq!(cs[2].scheme, "UnsupportedSchemeB");
    assert!(cs[2].params.is_empty());
}

/// A parameter list with several parameters, bad whitespace around the
/// equals signs, and token as well as quoted values.
#[test]
fn params_with_bad_whitespace() {
    let cs = parse_challenges("Digest realm = \"x\" , nonce=abc,qop=\"auth\"").unwrap();
    assert_eq!(cs.len(), 1);
    assert_eq!(cs[0].scheme, "Digest");
    assert_eq!(
        cs[0].params,
        vec![
            ("realm", ParamValue::new(0, "x")),
            ("nonce", ParamValue::new(0, "abc")),
            ("qop", ParamValue::new(0, "auth")),
        ]
    );
}

/// Leading commas are tolerated; a trailing comma is legal; empty slots
/// between commas are skipped.
#[test]
fn relaxed_commas() {
    let cs = parse_challenges(",,, A,, B,").unwrap();
    assert_eq!(cs.len(), 2);
    assert_eq!(cs[0].scheme, "A");
    assert_eq!(cs[1].scheme, "B");
}

/// A scheme followed by a space and a non-parameter token is not a
/// `token68` value: the challenge ends and the leftover text must then
/// fit the outer list, which it does not.
#[test]
fn token68_form_is_not_supported() {
    let e = parse_challenges("Negotiate SGVsbG8=").unwrap_err();
    assert_eq!(e.kind, ErrorKind::UnexpectedCharacter);
    let e = parse_challenges("A B").unwrap_err();
    assert_eq!(e, Error { kind: ErrorKind::UnexpectedCharacter, pos: 2 });
}

/// A single trailing space after a challenge is part of its (empty)
/// parameter list; further trailing whitespace fits no production.
#[test]
fn trailing_whitespace() {
    let cs = parse_challenges("B ").unwrap();
    assert_eq!(cs.len(), 1);
    assert_eq!(cs[0].scheme, "B");
    assert!(cs[0].params.is_empty());
    assert!(parse_challenges("B  ").is_err());
    assert!(parse_challenges("A , ").is_err());
}

/// An unterminated quoted value is fatal for the whole list.
#[test]
fn unterminated_quoted_string() {
    let e = parse_challenges("Scheme realm=\"unterminated").unwrap_err();
    assert_eq!(e, Error { kind: ErrorKind::UnterminatedQuotedString, pos: 13 });
    let e = quoted_string("\"abc").unwrap_err();
    assert_eq!(e, Error { kind: ErrorKind::UnterminatedQuotedString, pos: 0 });
}

/// After a comma a new challenge must begin with a token character.
#[test]
fn bad_challenge_start() {
    let e = parse_challenges("A,@").unwrap_err();
    assert_eq!(e, Error { kind: ErrorKind::EmptyToken, pos: 2 });
}

/// A committed parameter whose value fits no production is fatal.
#[test]
fn bad_param_value() {
    let e = parse_challenges("S a=b, c=@").unwrap_err();
    assert_eq!(e.kind, ErrorKind::UnexpectedCharacter);
    assert_eq!(e.pos, 9);
}

/// The auth-param scanner demands an equals sign after the name.
#[test]
fn auth_param_missing_equals() {
    let e = auth_param("name value").unwrap_err();
    assert_eq!(e, Error { kind: ErrorKind::MissingEquals, pos: 5 });
    let ((name, value), rest) = auth_param("a = b rest").unwrap();
    assert_eq!(name, "a");
    assert_eq!(value, ParamValue::new(0, "b"));
    assert_eq!(rest, " rest");
}

/// Parse error messages.
#[test]
fn error_messages() {
    let e = Error { kind: ErrorKind::MissingEquals, pos: 4 };
    assert_eq!(e.message(), "expected an equals sign after a parameter name");
    let e = parse_challenges("").unwrap_err();
    assert_eq!(e.message(), "no challenge in list");
}

/// Text outside ASCII fits no character class, raw or escaped.
#[test]
fn non_ascii_is_rejected() {
    assert!(parse_challenges("S a=\u{e9}").is_err());
    assert!(parse_challenges("S a=\"caf\u{e9}\"").is_err());
    assert!(parse_challenges("S a=\"caf\\\u{e9}\"").is_err());
    assert!(quoted_string("\"\u{abcd}\"").is_err());
}

/// An escaped backslash unescapes to a single backslash.
#[test]
fn escaped_backslash() {
    let cs = parse_challenges("S a=\"x\\\\y\"").unwrap();
    assert_eq!(cs[0].params[0].1.to_unescaped(), "x\\y");
}

/// Horizontal tab counts as optional whitespace in the list separators.
#[test]
fn tab_as_whitespace() {
    let cs = parse_challenges("A\t,\tB").unwrap();
    assert_eq!(cs.len(), 2);
    assert_eq!(cs[0].scheme, "A");
    assert_eq!(cs[1].scheme, "B");
    // A tab cannot take the place of the single space before parameters.
    assert!(parse_challenges("A\tb=c").is_err());
}

/// The space before a parameter list must be a space proper, and exactly
/// one of it belongs to the challenge.
#[test]
fn single_space_before_params() {
    let cs = parse_challenges("A  b=c").err();
    assert!(cs.is_some());
    let cs = parse_challenges("A b=c").unwrap();
    assert_eq!(cs[0].params, vec![("b", ParamValue::new(0, "c"))]);
}
