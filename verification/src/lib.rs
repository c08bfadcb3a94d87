//! HTTP authentication challenge lists.
//!
//! Parses the value of a `WWW-Authenticate` / `Proxy-Authenticate` header
//! (RFC 7235 `challenge` records embedded in RFC 7230's relaxed comma-list
//! syntax) into structured challenge records, zero-copy, with lazily
//! unescaped parameter values.
//!
//! The grammar exists twice in this crate: once declaratively, as spec
//! functions in [`grammar`], and once imperatively, as the scanners of
//! [`parser`]. Their agreement on every input is proved, which takes the
//! place of differential fuzzing between two independently written
//! parsers.

use vstd::prelude::*;

pub mod grammar;
pub mod parser;

pub mod table;

use crate::grammar::{
    esc_count, esc_valid, lemma_unescape_len, lemma_unescape_run,
    spec_challenges, unescape, SpecChallenge, SpecParam, SpecValue,
};
use crate::parser::{challenge_m, machine_parse, Error, ErrorKind, SpecErr};
use crate::grammar::{lead_end, tchar_c};

verus! {

use vstd::string::{StrSliceExecFns, StringSliceAdditionalSpecFns};

broadcast use vstd::string::group_string_axioms;

/// Whether a parameter value is internally consistent: the raw text is
/// ASCII, scans left to right into non-overlapping backslash escapes each
/// followed by one character, and the stored count matches that scan.
pub open spec fn value_wf(v: SpecValue) -> bool {
    &&& esc_valid(v.raw)
    &&& v.escapes == esc_count(v.raw)
    &&& vstd::utf8::is_ascii_chars(v.raw)
}

/// Parsed parameter value: a raw slice of the original input together
/// with the number of backslash escapes it contains. Unescaping is
/// deferred until [`ParamValue::to_unescaped`] is called.
#[derive(Copy, Clone, Debug, Eq, PartialEq)]
pub struct ParamValue<'i> {
    /// The number of backslash escapes in a quoted-text parameter; 0 for a plain token.
    escapes: usize,
    /// The raw text, which must be pure ASCII and consistent with `escapes`.
    raw: &'i str,
}

impl<'i> View for ParamValue<'i> {
    type V = SpecValue;

    closed spec fn view(&self) -> SpecValue {
        SpecValue { escapes: self.escapes as nat, raw: self.raw@ }
    }
}

impl<'i> ParamValue<'i> {
    #[verifier::type_invariant]
    spec fn type_inv(self) -> bool {
        value_wf(self@)
    }

    /// Creates a new parameter value over a raw slice already known to be
    /// consistent with the escape count.
    pub fn new(escapes: usize, raw: &'i str) -> (r: Self)
        requires
            value_wf(SpecValue { escapes: escapes as nat, raw: raw@ }),
        ensures
            r@ == (SpecValue { escapes: escapes as nat, raw: raw@ }),
    {
        ParamValue { escapes, raw }
    }

    /// Returns the length of the unescaped form without computing it:
    /// pure arithmetic on the stored fields.
    pub fn unescaped_len(&self) -> (r: usize)
        ensures
            r == unescape(self@.raw).len(),
    {
        proof {
            use_type_invariant(*self);
            lemma_unescape_len(self.raw@);
            // The raw text is ASCII, so its byte length is its character
            // count.
            assert(vstd::string::is_ascii(self.raw));
            assert(self.raw.spec_bytes().len() == self.raw@.len());
        }
        let bytes = self.raw.as_bytes();
        bytes.len() - self.escapes
    }

    /// Returns the unescaped form as a fresh string: literal runs are
    /// copied verbatim and each backslash is dropped, keeping the
    /// character after it.
    pub fn to_unescaped(&self) -> (r: String)
        ensures
            r@ == unescape(self@.raw),
    {
        proof {
            use_type_invariant(*self);
        }
        let n = self.raw.unicode_len();
        let mut to = String::new();
        let mut first_unwritten: usize = 0;
        let mut i: usize = 0;
        proof {
            assert(self.raw@.skip(0) =~= self.raw@);
            assert(unescape(self.raw@) =~= to@ + unescape(self.raw@.skip(0)));
        }
        while i < n
            invariant
                n == self.raw@.len(),
                first_unwritten <= i <= n,
                esc_valid(self.raw@.skip(i as int)),
                forall|j: int| first_unwritten <= j < i ==> self.raw@[j] != '\\',
                unescape(self.raw@) == to@ + unescape(self.raw@.skip(first_unwritten as int)),
            decreases n - i,
        {
            let c = self.raw.get_char(i);
            if c == '\\' {
                proof {
                    // The escape model guarantees a character follows.
                    assert(self.raw@.skip(i as int)[0] == '\\');
                    assert(self.raw@.skip(i as int).len() >= 2);
                }
                let run = self.raw.substring_char(first_unwritten, i);
                let esc = self.raw.substring_char(i + 1, i + 2);
                proof {
                    let s = self.raw@;
                    let fu = first_unwritten as int;
                    let ii = i as int;
                    assert forall|j: int| 0 <= j < ii - fu implies s.skip(fu)[j] != '\\' by {
                        assert(s.skip(fu)[j] == s[fu + j]);
                    }
                    lemma_unescape_run(s.skip(fu), ii - fu);
                    assert(s.skip(fu).subrange(0, ii - fu) =~= s.subrange(fu, ii));
                    assert(s.skip(fu).skip(ii - fu) =~= s.skip(ii));
                    assert(s.skip(ii)[1] == s[ii + 1]);
                    assert(s.skip(ii).skip(2) =~= s.skip(ii + 2));
                    assert(unescape(s.skip(ii)) == seq![s[ii + 1]] + unescape(s.skip(ii + 2)));
                    assert(run@ == s.subrange(fu, ii));
                    assert(esc@ =~= seq![s[ii + 1]]);
                    assert(unescape(s) =~= (to@ + run@ + esc@) + unescape(s.skip(ii + 2)));
                }
                to.append(run);
                to.append(esc);
                first_unwritten = i + 2;
                i = i + 2;
            } else {
                proof {
                    assert(self.raw@.skip(i as int)[0] == self.raw@[i as int]);
                    assert(self.raw@.skip(i as int).skip(1) =~= self.raw@.skip(i as int + 1));
                }
                i = i + 1;
            }
        }
        proof {
            let s = self.raw@;
            let fu = first_unwritten as int;
            assert forall|j: int| 0 <= j < n - fu implies s.skip(fu)[j] != '\\' by {
                assert(s.skip(fu)[j] == s[fu + j]);
            }
            lemma_unescape_run(s.skip(fu), n - fu);
            assert(s.skip(fu).subrange(0, n - fu) =~= s.subrange(fu, n as int));
            assert(s.skip(fu).skip(n - fu) =~= Seq::<char>::empty());
        }
        let rest = self.raw.substring_char(first_unwritten, n);
        to.append(rest);
        proof {
            assert(to@ =~= unescape(self.raw@));
        }
        to
    }
}

/// Unescaping is deterministic: the unescaped form is a function of the
/// raw text alone, so computing it twice gives equal strings.
pub proof fn lemma_unescape_deterministic(v: SpecValue, r1: Seq<char>, r2: Seq<char>)
    requires
        r1 == unescape(v.raw),
        r2 == unescape(v.raw),
    ensures
        r1 == r2,
{
}

/// The view of one `(name, value)` parameter pair.
pub open spec fn param_pair_view<'i>(p: (&'i str, ParamValue<'i>)) -> SpecParam {
    SpecParam { name: p.0@, value: p.1@ }
}

/// The view of a parameter vector, pair by pair.
pub open spec fn params_view<'i>(v: Seq<(&'i str, ParamValue<'i>)>) -> Seq<SpecParam> {
    v.map_values(|p: (&'i str, ParamValue<'i>)| param_pair_view(p))
}

/// The view of a vector of challenges, record by record.
pub open spec fn challenges_view<'i>(v: Seq<ChallengeRef<'i>>) -> Seq<SpecChallenge> {
    v.map_values(|c: ChallengeRef<'i>| c@)
}

pub proof fn lemma_params_view_push<'i>(v: Seq<(&'i str, ParamValue<'i>)>, x: (
    &'i str,
    ParamValue<'i>,
))
    ensures
        params_view(v.push(x)) == params_view(v).push(param_pair_view(x)),
{
    assert(params_view(v.push(x)) =~= params_view(v).push(param_pair_view(x)));
}

pub proof fn lemma_params_view_empty<'i>()
    ensures
        params_view(Seq::<(&'i str, ParamValue<'i>)>::empty()) == Seq::<SpecParam>::empty(),
{
    assert(params_view(Seq::<(&'i str, ParamValue<'i>)>::empty()) =~= Seq::<SpecParam>::empty());
}

pub proof fn lemma_challenges_view_push<'i>(v: Seq<ChallengeRef<'i>>, c: ChallengeRef<'i>)
    ensures
        challenges_view(v.push(c)) == challenges_view(v).push(c@),
{
    assert(challenges_view(v.push(c)) =~= challenges_view(v).push(c@));
}

pub proof fn lemma_challenges_view_empty<'i>()
    ensures
        challenges_view(Seq::<ChallengeRef<'i>>::empty()) == Seq::<SpecChallenge>::empty(),
{
    assert(challenges_view(Seq::<ChallengeRef<'i>>::empty()) =~= Seq::<SpecChallenge>::empty());
}

/// A parsed challenge: a scheme name and its parameters, in source order,
/// all borrowing from the original header value.
///
/// Only the parameter-list form of a challenge is represented; the
/// apocryphal `token68` form is not supported, as described in
/// [`parser`].
#[derive(Clone, Debug, Eq, PartialEq)]
pub struct ChallengeRef<'i> {
    /// The scheme name, which should be compared case-insensitively.
    pub scheme: &'i str,
    /// Zero or more parameters, as a vector of key-value pairs in source
    /// order; callers scan them linearly.
    pub params: Vec<(&'i str, ParamValue<'i>)>,
}

impl<'i> View for ChallengeRef<'i> {
    type V = SpecChallenge;

    open spec fn view(&self) -> SpecChallenge {
        SpecChallenge { scheme: self.scheme@, params: params_view(self.params@) }
    }
}

impl<'i> ChallengeRef<'i> {
    /// Creates a challenge with the given scheme and no parameters.
    pub fn new(scheme: &'i str) -> (r: Self)
        ensures
            r@ == (SpecChallenge { scheme: scheme@, params: Seq::<SpecParam>::empty() }),
    {
        let r = ChallengeRef { scheme, params: Vec::new() };
        proof {
            assert(r@.params =~= Seq::<SpecParam>::empty());
        }
        r
    }
}

/// Parses a whole header value into its list of challenges.
///
/// The result is `Ok` exactly when the input derives from the challenge
/// list grammar, and then holds exactly the challenges the grammar
/// denotes; otherwise the error names the first violation the committed
/// scan meets and the offset where it was detected.
pub fn parse_challenges<'i>(input: &'i str) -> (r: Result<Vec<ChallengeRef<'i>>, Error>)
    ensures
        r is Ok <==> spec_challenges(input@) is Some,
        r matches Ok(v) ==> spec_challenges(input@) == Some(challenges_view(v@)),
        r matches Ok(v) ==> machine_parse(input@) == Ok::<Seq<SpecChallenge>, SpecErr>(
            challenges_view(v@),
        ),
        r matches Err(e) ==> (machine_parse(input@) matches Err(ee) && ee.kind == e.kind && ee.pos
            == e.pos as int),
{
    proof {
        parser::lemma_machine_agrees_with_grammar(input@);
    }
    parser::scan_challenges(input)
}

/// Parameters for responding to a password challenge. The caller supplies
/// each field in the form the server expects; this crate does not
/// normalize them.
#[derive(Copy, Clone, Debug, Eq, PartialEq)]
pub struct PasswordParams<'a> {
    pub username: &'a str,
    pub password: &'a str,
    /// The URI from the request line.
    pub uri: &'a str,
    /// The HTTP method, such as `GET`.
    pub method: &'a str,
    /// The entity body, if available; `Some(&[])` for methods without
    /// one.
    pub body: Option<&'a [u8]>,
}


// ---------------------------------------------------------------------------
// Selecting a password client from a challenge list.
// ---------------------------------------------------------------------------

/// The message recorded for a challenge whose scheme no client of this
/// crate supports.
pub open spec fn unsupported_scheme_msg(scheme: Seq<char>) -> Seq<char> {
    "Unsupported scheme \""@ + scheme + "\""@
}

/// The message a parse failure of the given kind carries.
pub open spec fn error_msg(k: ErrorKind) -> Seq<char> {
    match k {
        ErrorKind::EmptyToken => "expected a token"@,
        ErrorKind::MissingEquals => "expected an equals sign after a parameter name"@,
        ErrorKind::UnterminatedQuotedString => "unterminated quoted string"@,
        ErrorKind::NoChallenges => "no challenge in list"@,
        ErrorKind::UnexpectedCharacter => "unexpected character"@,
    }
}

/// The message the first item of a challenge list leaves in a builder
/// that supports no scheme: the unsupported-scheme report for the first
/// challenge, or the parse failure that stops the list before one.
pub open spec fn first_step_msg(s: Seq<char>) -> Seq<char> {
    let l = lead_end(s, 0);
    if l >= s.len() {
        error_msg(ErrorKind::NoChallenges)
    } else if !tchar_c(s[l]) {
        error_msg(ErrorKind::EmptyToken)
    } else {
        match challenge_m(s, l) {
            Ok((m, c)) => unsupported_scheme_msg(c.scheme),
            Err(e) => error_msg(e.kind),
        }
    }
}

#[verifier::external_type_specification]
#[verifier::external_body]
pub struct ExHeaderValue(http::header::HeaderValue);

/// Relies on `http::header::HeaderValue::to_str`: it yields the value's
/// text exactly when every byte is visible ASCII, space or tab, and such
/// text is ASCII. The error case is mapped to `None` here.
#[verifier::external_body]
fn header_value_str<'a>(value: &'a http::header::HeaderValue) -> (r: Option<&'a str>)
    ensures
        r matches Some(v) ==> vstd::utf8::is_ascii_chars(v@),
{
    match value.to_str() {
        Ok(v) => Some(v),
        Err(_) => None,
    }
}

/// Witness carried by a scheme client; it has no public constructor and
/// this crate never creates one.
#[derive(Debug, Eq, PartialEq)]
pub struct NoSchemeClient {
    _reserved: (),
}

/// Client for responding to a password challenge of some supported
/// scheme. Response generation lies outside this crate's verified core:
/// no scheme client is compiled here and its stand-in variant cannot be
/// created, so a builder never completes with a client.
#[derive(Debug, Eq, PartialEq)]
#[non_exhaustive]
pub enum PasswordClient {
    /// Stands in for the scheme clients that are not part of this crate.
    Unsupported(NoSchemeClient),
}

/// What a builder has seen so far: the first error message recorded, and
/// whether a client has been selected.
pub ghost struct BuilderView {
    pub first_err: Option<Seq<char>>,
    pub has_client: bool,
}

/// Builds a [`PasswordClient`] from the challenges it is shown. It keeps
/// the first error met; with no scheme clients compiled in, every
/// challenge is unsupported and building always reports that first
/// error.
pub struct PasswordClientBuilder {
    /// Error of the first problem challenge, if any.
    first_err: Option<String>,
    /// Client of the best challenge seen so far, if any.
    cur_client: Option<PasswordClient>,
}

impl View for PasswordClientBuilder {
    type V = BuilderView;

    closed spec fn view(&self) -> BuilderView {
        BuilderView {
            first_err: match self.first_err {
                Some(m) => Some(m@),
                None => None,
            },
            has_client: self.cur_client is Some,
        }
    }
}

impl Default for PasswordClientBuilder {
    /// An empty builder: no error recorded, no client selected.
    fn default() -> (r: Self)
        ensures
            r@.first_err is None,
            !r@.has_client,
    {
        PasswordClientBuilder { first_err: None, cur_client: None }
    }
}

impl PasswordClientBuilder {
    /// Returns true if no more challenges need to be examined.
    fn complete(&self) -> (r: bool)
        ensures
            r == self@.has_client,
    {
        self.cur_client.is_some()
    }

    /// Considers a single challenge.
    pub fn challenge(self, challenge: &ChallengeRef<'_>) -> (r: Self)
        ensures
            self@.has_client ==> r@ == self@,
            !self@.has_client ==> !r@.has_client && (match self@.first_err {
                Some(m) => r@.first_err == Some(m),
                None => r@.first_err == Some(unsupported_scheme_msg(challenge@.scheme)),
            }),
    {
        if self.complete() {
            return self;
        }
        if self.first_err.is_none() {
            let mut msg = String::from_str("Unsupported scheme \"");
            msg.append(challenge.scheme);
            msg.append("\"");
            return PasswordClientBuilder { first_err: Some(msg), cur_client: self.cur_client };
        }
        self
    }

    /// Considers all challenges from the given challenge list.
    pub fn challenges(self, value: &str) -> (r: Self)
        ensures
            self@.has_client ==> r@ == self@,
            !self@.has_client ==> !r@.has_client && (match self@.first_err {
                Some(m) => r@.first_err == Some(m),
                None => r@.first_err == Some(first_step_msg(value@)),
            }),
    {
        if self.complete() {
            return self;
        }
        // Every challenge is unsupported here, so the first list item
        // alone determines the error that is recorded; later items and a
        // later parse failure can no longer change it.
        match parser::first_challenge(value) {
            parser::FirstRes::Item(c) => self.challenge(&c),
            parser::FirstRes::Fail(e) => {
                let mut s = self;
                if s.first_err.is_none() {
                    s.first_err = Some(e.message());
                }
                s
            },
        }
    }

    /// Considers all challenges from the given header value's challenge
    /// list. A value whose bytes are not all visible ASCII (or space and
    /// tab) has no text to parse; that is recorded as the first error.
    pub fn header_value(self, value: &http::header::HeaderValue) -> (r: Self)
        ensures
            self@.has_client ==> r@ == self@,
            !self@.has_client ==> !r@.has_client && (match self@.first_err {
                Some(m) => r@.first_err == Some(m),
                None => (r@.first_err matches Some(m2) && (m2 == "non-ASCII header value"@
                    || exists|v: Seq<char>| m2 == first_step_msg(v))),
            }),
    {
        if self.complete() {
            return self;
        }
        match header_value_str(value) {
            Some(v) => {
                let ghost w = v@;
                let r = self.challenges(v);
                proof {
                    if self@.first_err is None {
                        assert(r@.first_err == Some(first_step_msg(w)));
                    }
                }
                r
            },
            None => {
                let mut s = self;
                if s.first_err.is_none() {
                    s.first_err = Some(String::from_str("non-ASCII header value"));
                }
                s
            },
        }
    }

    /// Returns a new [`PasswordClient`] or fails with the first error.
    pub fn build(self) -> (r: Result<PasswordClient, String>)
        ensures
            self@.has_client ==> r is Ok,
            !self@.has_client ==> (match self@.first_err {
                Some(m) => r matches Err(s) && s@ == m,
                None => r matches Err(s) && s@ == "no challenges given"@,
            }),
    {
        match self.cur_client {
            Some(c) => Ok(c),
            None => match self.first_err {
                Some(e) => Err(e),
                None => Err(String::from_str("no challenges given")),
            },
        }
    }
}

impl PasswordClient {
    /// Builds a new `PasswordClient`.
    pub fn builder() -> (r: PasswordClientBuilder)
        ensures
            r@.first_err is None,
            !r@.has_client,
    {
        PasswordClientBuilder::default()
    }

    /// Responds to the challenge with the supplied parameters. The caller
    /// would use the returned string as an `Authorization` or
    /// `Proxy-Authorization` header value; with no scheme client compiled
    /// into this crate, responding always fails.
    #[allow(unused_variables)]
    pub fn respond(&mut self, p: &PasswordParams) -> (r: Result<String, String>)
        ensures
            r matches Err(m) && m@ == "no scheme client available"@,
    {
        match *self {
            PasswordClient::Unsupported(_) => Err(String::from_str("no scheme client available")),
        }
    }
}

} // verus!
