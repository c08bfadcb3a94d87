//! The challenge-list parser: an incremental scan over the whole header
//! value that either yields every challenge record or reports the first
//! grammar violation and stops.
//!
//! The parser commits as it scans: once `name BWS "="` has been seen, a
//! parameter value must follow, and a violation there is fatal for the
//! whole list rather than a cue to backtrack. Its committed behaviour is
//! written down here as spec functions (`machine_parse` and its parts),
//! the executable scanners are proved to implement them exactly, and
//! [`lemma_machine_agrees_with_grammar`] proves that the committed
//! machine accepts precisely the language of the declarative grammar in
//! [`crate::grammar`], with equal records.
//!
//! The apocryphal `token68` challenge form (a bare opaque token after the
//! scheme name) is deliberately not supported: text after a scheme that
//! does not begin an `auth-param` list is left for the outer list to
//! reinterpret.

use vstd::prelude::*;

use crate::grammar::{
    auth_param_at, challenge_at, challenges_tail, commas_end, escapable_c, has_comma, lead_end,
    ows_c, ows_end, params_tail, qdtext_c, qs_body_end, qs_escapes, quoted_at, region_oc, sep_end,
    spec_challenges, tchar_c, token_end, token_list0_at, token_list1_at, tokens_tail, trail_end,
    SpecChallenge, SpecParam, SpecValue,
};
use crate::{param_pair_view, ChallengeRef, ParamValue};

verus! {

use vstd::string::StrSliceExecFns;

/// The kind of a parse failure.
#[derive(Copy, Clone, Debug, PartialEq, Eq, Structural)]
pub enum ErrorKind {
    /// A token was required and zero token characters matched.
    EmptyToken,
    /// An auth-param name was not followed by `=`.
    MissingEquals,
    /// A quoted-string was opened and never closed.
    UnterminatedQuotedString,
    /// The list was well formed but held no challenge at all.
    NoChallenges,
    /// Some other character did not match the grammar at this point.
    UnexpectedCharacter,
}

/// A parse failure: its kind and the character offset at which it was
/// detected.
#[derive(Copy, Clone, Debug, PartialEq, Eq, Structural)]
pub struct Error {
    pub kind: ErrorKind,
    pub pos: usize,
}

/// A parse failure at the mathematical level, with an unbounded offset.
pub ghost struct SpecErr {
    pub kind: ErrorKind,
    pub pos: int,
}

/// Whether an auth-param begins at `i`: a nonempty token followed, after
/// optional whitespace, by `=`. This is the bounded lookahead that
/// resolves the grammar's ambiguity: the parser commits to a parameter
/// only when this holds, and otherwise leaves the text for the outer
/// list.
pub open spec fn param_start(s: Seq<char>, i: int) -> bool {
    let te = token_end(s, i);
    let w = ows_end(s, te);
    te > i && w < s.len() && s[w] == '='
}

/// Committed scan of a parameter value (after `=` and bad whitespace):
/// a nonempty token, or a quoted-string.
pub open spec fn value_m(s: Seq<char>, i: int) -> Result<(int, SpecValue), SpecErr> {
    let ve = token_end(s, i);
    if ve > i {
        Ok((ve, SpecValue { escapes: 0, raw: s.subrange(i, ve) }))
    } else if 0 <= i < s.len() && s[i] == '"' {
        let b = qs_body_end(s, i + 1);
        if b < s.len() && s[b] == '"' {
            Ok((b + 1, SpecValue { escapes: qs_escapes(s, i + 1), raw: s.subrange(i + 1, b) }))
        } else if b >= s.len() {
            Err(SpecErr { kind: ErrorKind::UnterminatedQuotedString, pos: i })
        } else {
            Err(SpecErr { kind: ErrorKind::UnexpectedCharacter, pos: b })
        }
    } else {
        Err(SpecErr { kind: ErrorKind::UnexpectedCharacter, pos: i })
    }
}

/// Committed scan of one auth-param: `token BWS "=" BWS value`.
pub open spec fn param_m(s: Seq<char>, i: int) -> Result<(int, SpecParam), SpecErr> {
    if 0 <= i <= s.len() {
        let te = token_end(s, i);
        if te == i {
            Err(SpecErr { kind: ErrorKind::EmptyToken, pos: i })
        } else {
            let w = ows_end(s, te);
            if w < s.len() && s[w] == '=' {
                let k = ows_end(s, w + 1);
                match value_m(s, k) {
                    Ok((m, v)) => Ok((m, SpecParam { name: s.subrange(i, te), value: v })),
                    Err(e) => Err(e),
                }
            } else {
                Err(SpecErr { kind: ErrorKind::MissingEquals, pos: w })
            }
        }
    } else {
        Err(SpecErr { kind: ErrorKind::EmptyToken, pos: i })
    }
}

/// Committed scan of a whole `#auth-param` list whose first parameter
/// begins at `i`. After each parameter, the scan continues past a
/// separator only when another parameter demonstrably begins there;
/// having committed, a violation in that parameter is fatal.
pub open spec fn params_m(s: Seq<char>, i: int) -> Result<(int, Seq<SpecParam>), SpecErr>
    decreases s.len() - i,
{
    match param_m(s, i) {
        Err(e) => Err(e),
        Ok((k, p)) => match sep_end(s, k) {
            Some(c) => {
                if i < c <= s.len() && param_start(s, c) {
                    match params_m(s, c) {
                        Ok((m, ps)) => Ok((m, seq![p] + ps)),
                        Err(e) => Err(e),
                    }
                } else {
                    Ok((k, seq![p]))
                }
            },
            None => Ok((k, seq![p])),
        },
    }
}

/// Committed scan of one challenge whose scheme begins at `i` (the caller
/// has seen a token character there): the scheme token, then optionally a
/// single space and a parameter list. When the space is present but no
/// parameter begins after it, the space alone is consumed and the rest is
/// left for the outer list.
pub open spec fn challenge_m(s: Seq<char>, i: int) -> Result<(int, SpecChallenge), SpecErr> {
    let te = token_end(s, i);
    let scheme = s.subrange(i, te);
    if te < s.len() && s[te] == ' ' {
        if param_start(s, te + 1) {
            match params_m(s, te + 1) {
                Ok((m, ps)) => Ok((m, SpecChallenge { scheme, params: ps })),
                Err(e) => Err(e),
            }
        } else {
            Ok((te + 1, SpecChallenge { scheme, params: Seq::empty() }))
        }
    } else {
        Ok((te, SpecChallenge { scheme, params: Seq::empty() }))
    }
}

/// The outcome of scanning for a list separator after a challenge.
pub ghost enum SepScan {
    /// The input ended at a legal boundary.
    AtEnd,
    /// A comma was crossed and the next challenge starts here.
    Next(int),
    /// The text matches no continuation of the list.
    Bad(SpecErr),
}

/// Separator scan after a challenge: absorbs `OWS ","` groups. The input
/// may end right here or right after any comma; after at least one comma
/// a new challenge may start. `seen` records whether a comma has been
/// crossed yet.
pub open spec fn sep_scan(s: Seq<char>, i: int, seen: bool) -> SepScan
    decreases s.len() - i,
{
    if !(0 <= i <= s.len()) {
        SepScan::Bad(SpecErr { kind: ErrorKind::UnexpectedCharacter, pos: i })
    } else if i == s.len() {
        SepScan::AtEnd
    } else {
        let j = ows_end(s, i);
        if i <= j < s.len() && s[j] == ',' {
            sep_scan(s, j + 1, true)
        } else if j >= s.len() {
            // Trailing whitespace not followed by a comma.
            SepScan::Bad(SpecErr { kind: ErrorKind::UnexpectedCharacter, pos: j })
        } else if seen {
            if tchar_c(s[j]) {
                SepScan::Next(j)
            } else {
                SepScan::Bad(SpecErr { kind: ErrorKind::EmptyToken, pos: j })
            }
        } else {
            SepScan::Bad(SpecErr { kind: ErrorKind::UnexpectedCharacter, pos: j })
        }
    }
}

/// The committed machine after the first challenge: separator scans and
/// further challenges until the input ends at a legal boundary.
pub open spec fn machine_rest(s: Seq<char>, i: int) -> Result<Seq<SpecChallenge>, SpecErr>
    decreases s.len() - i,
{
    match sep_scan(s, i, false) {
        SepScan::AtEnd => Ok(Seq::empty()),
        SepScan::Bad(e) => Err(e),
        SepScan::Next(j) => match challenge_m(s, j) {
            Err(e) => Err(e),
            Ok((m, c)) => {
                if i < m <= s.len() {
                    match machine_rest(s, m) {
                        Ok(cs) => Ok(seq![c] + cs),
                        Err(e) => Err(e),
                    }
                } else {
                    Ok(seq![c])
                }
            },
        },
    }
}

// ---------------------------------------------------------------------------
// Agreement of the committed machine with the declarative grammar.
// ---------------------------------------------------------------------------

proof fn lemma_sep_end_bounds(s: Seq<char>, i: int)
    requires
        0 <= i <= s.len(),
    ensures
        sep_end(s, i) matches Some(c) ==> i < c <= s.len(),
{
    crate::grammar::lemma_ows_end(s, i);
    let j = ows_end(s, i);
    if j < s.len() && s[j] == ',' {
        crate::grammar::lemma_ows_end(s, j + 1);
        let j2 = ows_end(s, j + 1);
        crate::grammar::lemma_commas_end_bounds(s, j2);
        assert(commas_end(s, j) == commas_end(s, j2));
    }
}

proof fn lemma_params_tail_bounds(s: Seq<char>, i: int)
    requires
        0 <= i <= s.len(),
    ensures
        i <= params_tail(s, i).0 <= s.len(),
    decreases s.len() - i,
{
    lemma_sep_end_bounds(s, i);
    match sep_end(s, i) {
        Some(j) => match auth_param_at(s, j) {
            Some((k, p)) => {
                if i < k <= s.len() {
                    lemma_params_tail_bounds(s, k);
                }
            },
            None => {},
        },
        None => {},
    }
}

proof fn lemma_challenges_tail_bounds(s: Seq<char>, i: int)
    requires
        0 <= i <= s.len(),
    ensures
        i <= challenges_tail(s, i).0 <= s.len(),
    decreases s.len() - i,
{
    lemma_sep_end_bounds(s, i);
    match sep_end(s, i) {
        Some(j) => match challenge_at(s, j) {
            Some((k, c)) => {
                if i < k <= s.len() {
                    lemma_challenges_tail_bounds(s, k);
                }
            },
            None => {},
        },
        None => {},
    }
}

/// One auth-param: the committed scan succeeds exactly where the
/// declarative grammar matches, with equal results, and where the scan
/// has committed (a `name =` shape is present) but fails, the grammar
/// does not match either.
proof fn lemma_param(s: Seq<char>, i: int)
    requires
        0 <= i <= s.len(),
    ensures
        !param_start(s, i) ==> auth_param_at(s, i) is None,
        param_start(s, i) && param_m(s, i) is Ok ==> auth_param_at(s, i) == Some(
            param_m(s, i)->Ok_0,
        ) && i < param_m(s, i)->Ok_0.0 <= s.len(),
        param_start(s, i) && param_m(s, i) is Err ==> auth_param_at(s, i) is None,
{
    let te = token_end(s, i);
    crate::grammar::lemma_token_end(s, i);
    if te != i {
        let w = ows_end(s, te);
        crate::grammar::lemma_ows_end(s, te);
        if w < s.len() && s[w] == '=' {
            assert(param_start(s, i));
            let k = ows_end(s, w + 1);
            crate::grammar::lemma_ows_end(s, w + 1);
            let ve = token_end(s, k);
            crate::grammar::lemma_token_end(s, k);
            if ve > k {
            } else {
                if 0 <= k < s.len() && s[k] == '"' {
                    crate::grammar::lemma_qs_body(s, k + 1);
                }
            }
        }
    }
}

/// A committed parameter-list scan against the grammar's first-param +
/// tail composite: success agrees exactly; a committed failure leaves
/// the grammar's shorter parameter list followed by text it can never
/// absorb.
proof fn lemma_params(s: Seq<char>, i: int)
    requires
        0 <= i <= s.len(),
        param_start(s, i),
    ensures
        params_m(s, i) matches Ok((m, ps)) ==> (auth_param_at(s, i) matches Some((k, p)) && ps
            == seq![p] + params_tail(s, k).1 && m == params_tail(s, k).0 && i < m <= s.len()),
        params_m(s, i) is Err ==> (auth_param_at(s, i) is None || (auth_param_at(s, i) matches Some(
            (k, p),
        ) && sep_end(s, params_tail(s, k).0) matches Some(c) && param_start(s, c) && i <= params_tail(
            s,
            k,
        ).0 <= s.len())),
    decreases s.len() - i,
{
    lemma_param(s, i);
    match param_m(s, i) {
        Err(e) => {},
        Ok((k, p)) => {
            lemma_sep_end_bounds(s, k);
            match sep_end(s, k) {
                None => {
                    assert(params_tail(s, k) == (k, Seq::<SpecParam>::empty()));
                    assert(seq![p] + Seq::<SpecParam>::empty() =~= seq![p]);
                },
                Some(c) => {
                    if i < c <= s.len() && param_start(s, c) {
                        lemma_params(s, c);
                        lemma_param(s, c);
                        match params_m(s, c) {
                            Ok((m, ps2)) => {
                                let (k2, p2) = auth_param_at(s, c)->Some_0;
                                assert(params_tail(s, k) == (
                                    params_tail(s, k2).0,
                                    seq![p2] + params_tail(s, k2).1,
                                ));
                                assert(seq![p] + ps2 =~= seq![p] + (seq![p2] + params_tail(
                                    s,
                                    k2,
                                ).1));
                            },
                            Err(e) => {
                                if auth_param_at(s, c) is None {
                                    assert(params_tail(s, k) == (k, Seq::<SpecParam>::empty()));
                                } else {
                                    let (k2, p2) = auth_param_at(s, c)->Some_0;
                                    assert(params_tail(s, k) == (
                                        params_tail(s, k2).0,
                                        seq![p2] + params_tail(s, k2).1,
                                    ));
                                    lemma_params_tail_bounds(s, k2);
                                }
                            },
                        }
                    } else {
                        assert(!param_start(s, c) || !(i < c <= s.len()));
                        if i < c <= s.len() {
                            lemma_param(s, c);
                            assert(auth_param_at(s, c) is None);
                        }
                        assert(params_tail(s, k) == (k, Seq::<SpecParam>::empty()));
                        assert(seq![p] + Seq::<SpecParam>::empty() =~= seq![p]);
                    }
                },
            }
        },
    }
}

/// The whole committed machine over a header value: leading separators,
/// a first challenge (required), then [`machine_rest`].
pub open spec fn machine_parse(s: Seq<char>) -> Result<Seq<SpecChallenge>, SpecErr> {
    let l = lead_end(s, 0);
    if l >= s.len() {
        Err(SpecErr { kind: ErrorKind::NoChallenges, pos: l })
    } else if tchar_c(s[l]) {
        match challenge_m(s, l) {
            Err(e) => Err(e),
            Ok((m, c)) => match machine_rest(s, m) {
                Ok(cs) => Ok(seq![c] + cs),
                Err(e) => Err(e),
            },
        }
    } else {
        Err(SpecErr { kind: ErrorKind::EmptyToken, pos: l })
    }
}

/// After a committed failure the grammar is left, at some position `q`,
/// with a list separator followed by a `name BWS "="` shape; the `=` can
/// never be absorbed by the list machinery, so the grammar rejects the
/// whole input.
proof fn lemma_dead_b(s: Seq<char>, q: int)
    requires
        0 <= q <= s.len(),
        sep_end(s, q) is Some,
        param_start(s, sep_end(s, q)->Some_0),
    ensures
        trail_end(s, challenges_tail(s, q).0) != s.len(),
{
    crate::grammar::lemma_ows_end(s, q);
    lemma_sep_end_bounds(s, q);
    let c = sep_end(s, q)->Some_0;
    let te1 = token_end(s, c);
    crate::grammar::lemma_token_end(s, c);
    assert(te1 > c);
    let w = ows_end(s, te1);
    crate::grammar::lemma_ows_end(s, te1);
    assert(w < s.len() && s[w] == '=');
    assert(!tchar_c(s[w]));
    assert(!ows_c(s[w]));
    assert(s[w] != ',');
    let m1: int = if te1 < s.len() && s[te1] == ' ' {
        te1 + 1
    } else {
        te1
    };
    if te1 < s.len() && s[te1] == ' ' {
        // The space is whitespace, so `=` lies beyond it and nothing
        // after it starts a token.
        assert(ows_c(s[te1]));
        assert(w >= te1 + 1);
        if te1 + 1 < w {
            assert(ows_c(s[te1 + 1]));
            assert(!tchar_c(s[te1 + 1]));
        } else {
            assert(!tchar_c(s[w]));
        }
        assert(token_end(s, te1 + 1) == te1 + 1);
        assert(auth_param_at(s, te1 + 1) is None);
        assert(challenge_at(s, c) matches Some((x, ch)) && x == m1);
    } else {
        assert(challenge_at(s, c) matches Some((x, ch)) && x == m1);
    }
    assert(forall|x: int| m1 <= x < w ==> ows_c(s[x]));
    crate::grammar::lemma_ows_end_exact(s, m1, w);
    assert(ows_end(s, m1) == w);
    assert(sep_end(s, m1) is None);
    assert(challenges_tail(s, m1) == (m1, Seq::<SpecChallenge>::empty()));
    assert(q < m1 <= s.len());
    let c1 = challenge_at(s, c)->Some_0.1;
    assert(challenges_tail(s, q) == (m1, seq![c1] + Seq::<SpecChallenge>::empty()));
    assert(trail_end(s, m1) == m1);
    assert(m1 <= w < s.len());
}

/// One challenge: the committed scan succeeds exactly where the grammar
/// matches, with an equal record; where it has committed to a parameter
/// and fails, the grammar yields a shorter challenge whose leftover text
/// it can never absorb.
proof fn lemma_challenge(s: Seq<char>, i: int)
    requires
        0 <= i < s.len(),
        tchar_c(s[i]),
    ensures
        challenge_m(s, i) matches Ok((m, c)) ==> challenge_at(s, i) == Some((m, c)) && i < m
            <= s.len(),
        challenge_m(s, i) is Err ==> (challenge_at(s, i) matches Some((m0, c0)) && trail_end(
            s,
            challenges_tail(s, m0).0,
        ) != s.len() && i < m0 <= s.len()),
{
    let te = token_end(s, i);
    crate::grammar::lemma_token_end(s, i);
    assert(te > i);
    if te < s.len() && s[te] == ' ' {
        lemma_param(s, te + 1);
        if param_start(s, te + 1) {
            lemma_params(s, te + 1);
            match params_m(s, te + 1) {
                Ok((m, ps)) => {
                    let (k, p) = auth_param_at(s, te + 1)->Some_0;
                    assert(challenge_at(s, i) matches Some((x, ch)) && x == m && ch.params == ps);
                },
                Err(e) => {
                    if auth_param_at(s, te + 1) is None {
                        // The grammar records the scheme alone and leaves
                        // the `name =` text standing right after the
                        // space; no separator can begin with it.
                        let m0 = te + 1;
                        assert(challenge_at(s, i) matches Some((x, ch)) && x == m0);
                        assert(token_end(s, m0) > m0);
                        assert(tchar_c(s[m0]));
                        assert(!ows_c(s[m0]));
                        assert(s[m0] != ',');
                        assert(ows_end(s, m0) == m0);
                        assert(sep_end(s, m0) is None);
                        assert(challenges_tail(s, m0) == (m0, Seq::<SpecChallenge>::empty()));
                        assert(trail_end(s, m0) == m0);
                        assert(m0 < s.len());
                    } else {
                        let (k, p) = auth_param_at(s, te + 1)->Some_0;
                        let m0 = params_tail(s, k).0;
                        lemma_param(s, te + 1);
                        lemma_params_tail_bounds(s, k);
                        assert(challenge_at(s, i) matches Some((x, ch)) && x == m0);
                        lemma_dead_b(s, m0);
                    }
                },
            }
        } else {
            assert(auth_param_at(s, te + 1) is None);
            assert(challenge_at(s, i) matches Some((x, ch)) && x == te + 1);
        }
    } else {
        assert(challenge_at(s, i) matches Some((x, ch)) && x == te);
    }
}

/// What each outcome of the separator scan says about the text it
/// crossed: a whitespace-and-comma region with the boundary the outcome
/// names.
proof fn lemma_sep_scan(s: Seq<char>, i: int, seen: bool)
    requires
        0 <= i <= s.len(),
    ensures
        sep_scan(s, i, seen) is AtEnd ==> region_oc(s, i, s.len() as int) && (i == s.len() || s[s.len()
            - 1] == ','),
        sep_scan(s, i, seen) matches SepScan::Next(j) ==> region_oc(s, i, j) && (seen || has_comma(
            s,
            i,
            j,
        )) && i <= j < s.len() && tchar_c(s[j]),
        sep_scan(s, i, seen) matches SepScan::Bad(e) ==> ((e.kind == ErrorKind::UnexpectedCharacter
            && e.pos == s.len() && region_oc(s, i, s.len() as int) && i < s.len() && ows_c(
            s[s.len() - 1],
        )) || (!seen && e.kind == ErrorKind::UnexpectedCharacter && e.pos == ows_end(s, i) && i
            <= ows_end(s, i) < s.len() && s[ows_end(s, i)] != ',') || (e.kind
            == ErrorKind::EmptyToken && region_oc(s, i, e.pos) && (seen || has_comma(s, i, e.pos))
            && i <= e.pos < s.len() && !tchar_c(s[e.pos]) && !ows_c(s[e.pos]) && s[e.pos] != ',')),
    decreases s.len() - i,
{
    if i == s.len() {
    } else {
        let j = ows_end(s, i);
        crate::grammar::lemma_ows_end(s, i);
        if i <= j < s.len() && s[j] == ',' {
            lemma_sep_scan(s, j + 1, true);
            match sep_scan(s, j + 1, true) {
                SepScan::AtEnd => {
                    assert(region_oc(s, i, s.len() as int));
                    if j + 1 == s.len() {
                        assert(s[s.len() - 1] == ',');
                    }
                },
                SepScan::Next(j2) => {
                    assert(region_oc(s, i, j2));
                    assert(i <= j < j2 && s[j] == ',');
                },
                SepScan::Bad(e) => {
                    if e.kind == ErrorKind::UnexpectedCharacter && e.pos == s.len() {
                        assert(region_oc(s, i, s.len() as int));
                    } else {
                        assert(e.kind == ErrorKind::EmptyToken);
                        assert(region_oc(s, i, e.pos));
                        assert(i <= j < e.pos && s[j] == ',');
                    }
                },
            }
        }
    }
}

/// The committed machine after a challenge accepts the remaining input
/// exactly when the grammar's list tail followed by its trailing
/// separators consumes it all, and yields the same challenges.
proof fn lemma_rest(s: Seq<char>, i: int)
    requires
        0 <= i <= s.len(),
    ensures
        machine_rest(s, i) matches Ok(cs) ==> challenges_tail(s, i).1 == cs && trail_end(
            s,
            challenges_tail(s, i).0,
        ) == s.len(),
        machine_rest(s, i) is Err ==> trail_end(s, challenges_tail(s, i).0) != s.len(),
    decreases s.len() - i,
{
    lemma_sep_scan(s, i, false);
    crate::grammar::lemma_ows_end(s, i);
    let j1 = ows_end(s, i);
    match sep_scan(s, i, false) {
        SepScan::AtEnd => {
            if i == s.len() {
                assert(sep_end(s, i) is None);
                assert(challenges_tail(s, i) == (i, Seq::<SpecChallenge>::empty()));
                assert(trail_end(s, i) == i);
            } else {
                assert(s[s.len() - 1] == ',');
                assert(!ows_c(s[s.len() - 1]));
                assert(j1 < s.len()) by {
                    if j1 == s.len() {
                        assert(ows_c(s[s.len() - 1]));
                    }
                }
                assert(s[j1] == ',');
                crate::grammar::lemma_commas_end_exact(s, j1, s.len() as int);
                assert(sep_end(s, i) == Some(s.len() as int));
                assert(challenge_at(s, s.len() as int) is None);
                assert(challenges_tail(s, i) == (i, Seq::<SpecChallenge>::empty()));
                crate::grammar::lemma_trail_end_region(s, i);
                assert(trail_end(s, i) == s.len());
            }
        },
        SepScan::Bad(e) => {
            if e.kind == ErrorKind::UnexpectedCharacter && e.pos == s.len() && i < s.len() {
                // Dangling whitespace at the end of the input.
                assert(ows_c(s[s.len() - 1]));
                if j1 == s.len() {
                    assert(sep_end(s, i) is None);
                    assert(challenges_tail(s, i) == (i, Seq::<SpecChallenge>::empty()));
                } else {
                    assert(s[j1] == ',' || !(ows_c(s[j1]) || s[j1] == ',')) by {
                        assert(region_oc(s, i, s.len() as int));
                    }
                    assert(s[j1] == ',');
                    crate::grammar::lemma_commas_end_exact(s, j1, s.len() as int);
                    assert(sep_end(s, i) == Some(s.len() as int));
                    assert(challenge_at(s, s.len() as int) is None);
                    assert(challenges_tail(s, i) == (i, Seq::<SpecChallenge>::empty()));
                }
                crate::grammar::lemma_trail_end_region(s, i);
                assert(s[s.len() - 1] != ',');
                assert(trail_end(s, i) != s.len());
            } else if e.kind == ErrorKind::UnexpectedCharacter {
                // No comma follows this challenge.
                assert(e.pos == j1 && j1 < s.len() && s[j1] != ',');
                assert(sep_end(s, i) is None);
                assert(challenges_tail(s, i) == (i, Seq::<SpecChallenge>::empty()));
                assert(trail_end(s, i) == i);
                assert(i <= j1 < s.len());
            } else {
                // A comma was crossed but no token follows: the grammar
                // finds no further challenge and cannot absorb the
                // offending character either.
                let p = e.pos;
                assert(e.kind == ErrorKind::EmptyToken);
                assert(has_comma(s, i, p));
                assert(j1 < p) by {
                    if j1 >= p {
                        let x = choose|x: int| i <= x < p && s[x] == ',';
                        assert(ows_c(s[x]));
                    }
                }
                assert(s[j1] == ',') by {
                    assert(region_oc(s, i, p));
                    assert(!ows_c(s[j1]));
                }
                crate::grammar::lemma_commas_end_exact(s, j1, p);
                assert(sep_end(s, i) == Some(p));
                assert(token_end(s, p) == p);
                assert(challenge_at(s, p) is None);
                assert(challenges_tail(s, i) == (i, Seq::<SpecChallenge>::empty()));
                crate::grammar::lemma_trail_end_stop(s, i, p);
                assert(trail_end(s, i) <= p < s.len());
            }
        },
        SepScan::Next(j) => {
            assert(has_comma(s, i, j));
            assert(j1 < j) by {
                if j1 >= j {
                    let x = choose|x: int| i <= x < j && s[x] == ',';
                    assert(ows_c(s[x]));
                }
            }
            assert(s[j1] == ',') by {
                assert(region_oc(s, i, j));
                assert(!ows_c(s[j1]));
            }
            assert(!ows_c(s[j]) && s[j] != ',');
            crate::grammar::lemma_commas_end_exact(s, j1, j);
            assert(sep_end(s, i) == Some(j));
            lemma_challenge(s, j);
            match challenge_m(s, j) {
                Err(e) => {
                    let (m0, c0) = challenge_at(s, j)->Some_0;
                    assert(i < m0 <= s.len());
                    assert(challenges_tail(s, i) == (
                        challenges_tail(s, m0).0,
                        seq![c0] + challenges_tail(s, m0).1,
                    ));
                },
                Ok((m, c)) => {
                    assert(challenge_at(s, j) == Some((m, c)));
                    assert(i < m <= s.len());
                    lemma_rest(s, m);
                    assert(challenges_tail(s, i) == (
                        challenges_tail(s, m).0,
                        seq![c] + challenges_tail(s, m).1,
                    ));
                    match machine_rest(s, m) {
                        Ok(cs2) => {
                            assert(challenges_tail(s, m).1 == cs2);
                        },
                        Err(e2) => {},
                    }
                },
            }
        },
    }
}

/// The two encodings of the grammar agree on every input: the committed
/// machine accepts a header value exactly when the declarative grammar
/// derives it, and then yields exactly the challenges the grammar
/// denotes. This is the differential-correctness statement for the
/// parser, proved once for all inputs.
pub proof fn lemma_machine_agrees_with_grammar(s: Seq<char>)
    ensures
        machine_parse(s) is Ok <==> spec_challenges(s) is Some,
        machine_parse(s) matches Ok(cs) ==> spec_challenges(s) == Some(cs),
{
    crate::grammar::lemma_lead_end_bounds(s, 0);
    let l = lead_end(s, 0);
    if l >= s.len() {
        assert(token_end(s, l) == l);
        assert(challenge_at(s, l) is None);
    } else if tchar_c(s[l]) {
        lemma_challenge(s, l);
        match challenge_m(s, l) {
            Err(e) => {},
            Ok((m, c)) => {
                lemma_rest(s, m);
            },
        }
    } else {
        assert(token_end(s, l) == l);
        assert(challenge_at(s, l) is None);
    }
}

// ---------------------------------------------------------------------------
// Executable scanners, each proved to implement its spec function.
// ---------------------------------------------------------------------------

/// Returns whether the character is a token character.
fn char_tchar(c: char) -> (r: bool)
    ensures
        r == tchar_c(c),
{
    let u = c as u32;
    u <= 0x7F && crate::table::is_tchar(u as u8)
}

/// Returns whether the character is optional whitespace.
fn char_ows(c: char) -> (r: bool)
    ensures
        r == ows_c(c),
{
    let u = c as u32;
    u <= 0x7F && crate::table::is_ows(u as u8)
}

/// Returns whether the character is raw quoted-string text.
fn char_qdtext(c: char) -> (r: bool)
    ensures
        r == qdtext_c(c),
{
    let u = c as u32;
    u <= 0x7F && crate::table::is_qdtext(u as u8)
}

/// Whether a token character stands at `j`.
fn tchar_at(s: &str, n: usize, j: usize) -> (r: bool)
    requires
        n == s@.len(),
        j <= n,
    ensures
        r == (j < n && tchar_c(s@[j as int])),
{
    j < n && char_tchar(s.get_char(j))
}

/// Whether optional whitespace stands at `j`.
fn ows_at(s: &str, n: usize, j: usize) -> (r: bool)
    requires
        n == s@.len(),
        j <= n,
    ensures
        r == (j < n && ows_c(s@[j as int])),
{
    j < n && char_ows(s.get_char(j))
}

/// Whether a comma stands at `j`.
fn comma_at(s: &str, n: usize, j: usize) -> (r: bool)
    requires
        n == s@.len(),
        j <= n,
    ensures
        r == (j < n && s@[j as int] == ','),
{
    j < n && s.get_char(j) == ','
}

/// Consumes the maximal run of optional whitespace from `i`.
fn scan_ows(s: &str, n: usize, i: usize) -> (j: usize)
    requires
        n == s@.len(),
        i <= n,
    ensures
        j as int == ows_end(s@, i as int),
        i <= j <= n,
{
    let mut j = i;
    while ows_at(s, n, j)
        invariant
            n == s@.len(),
            i <= j <= n,
            ows_end(s@, i as int) == ows_end(s@, j as int),
        decreases n - j,
    {
        j = j + 1;
    }
    j
}

/// Consumes the maximal run of token characters from `i`.
fn scan_token(s: &str, n: usize, i: usize) -> (j: usize)
    requires
        n == s@.len(),
        i <= n,
    ensures
        j as int == token_end(s@, i as int),
        i <= j <= n,
{
    let mut j = i;
    while tchar_at(s, n, j)
        invariant
            n == s@.len(),
            i <= j <= n,
            token_end(s@, i as int) == token_end(s@, j as int),
        decreases n - j,
    {
        j = j + 1;
    }
    j
}

/// Whether the body scan of a quoted-string can take a step at `j`.
fn qs_cont(s: &str, n: usize, j: usize) -> (r: bool)
    requires
        n == s@.len(),
        j <= n,
    ensures
        r == ((j < n && qdtext_c(s@[j as int])) || (j + 1 < n && s@[j as int] == '\\'
            && escapable_c(s@[j as int + 1]))),
{
    if j < n {
        let c = s.get_char(j);
        if char_qdtext(c) {
            true
        } else if c == '\\' && j + 1 < n {
            let c2 = s.get_char(j + 1);
            let u = c2 as u32;
            u <= 0x7F && crate::table::is_escapable(u as u8)
        } else {
            false
        }
    } else {
        false
    }
}

/// Scans the body of a quoted-string from just after the opening quote:
/// the position where the scan stops and the number of escapes crossed.
fn scan_qs_body(s: &str, n: usize, i: usize) -> (r: (usize, usize))
    requires
        n == s@.len(),
        i <= n,
    ensures
        r.0 as int == qs_body_end(s@, i as int),
        r.1 as int == qs_escapes(s@, i as int),
        i <= r.0 <= n,
{
    let mut j = i;
    let mut cnt: usize = 0;
    while qs_cont(s, n, j)
        invariant
            n == s@.len(),
            i <= j <= n,
            cnt <= j,
            qs_body_end(s@, i as int) == qs_body_end(s@, j as int),
            qs_escapes(s@, i as int) == cnt + qs_escapes(s@, j as int),
        decreases n - j,
    {
        let c = s.get_char(j);
        if c == '\\' {
            proof {
                // A backslash is not qdtext, so this is an escape step.
                assert(!qdtext_c(s@[j as int]));
            }
            cnt = cnt + 1;
            j = j + 2;
        } else {
            j = j + 1;
        }
    }
    (j, cnt)
}

/// Whether an auth-param demonstrably begins at `i`.
fn is_param_start(s: &str, n: usize, i: usize) -> (r: bool)
    requires
        n == s@.len(),
        i <= n,
    ensures
        r == param_start(s@, i as int),
{
    let te = scan_token(s, n, i);
    if te > i {
        let w = scan_ows(s, n, te);
        w < n && s.get_char(w) == '='
    } else {
        false
    }
}

/// Scans a parameter value: a nonempty token or a quoted-string.
fn scan_value<'i>(s: &'i str, n: usize, i: usize) -> (r: Result<(ParamValue<'i>, usize), Error>)
    requires
        n == s@.len(),
        i <= n,
    ensures
        r matches Ok((v, m)) ==> (value_m(s@, i as int) matches Ok((mm, vv)) && mm == m as int
            && vv == v@ && i < m <= n),
        r matches Err(e) ==> (value_m(s@, i as int) matches Err(ee) && ee.kind == e.kind && ee.pos
            == e.pos as int),
{
    let ve = scan_token(s, n, i);
    if ve > i {
        let raw = s.substring_char(i, ve);
        proof {
            crate::grammar::lemma_token_text(s@, i as int);
        }
        Ok((ParamValue::new(0, raw), ve))
    } else if i < n && s.get_char(i) == '"' {
        let (b, cnt) = scan_qs_body(s, n, i + 1);
        if b < n && s.get_char(b) == '"' {
            let raw = s.substring_char(i + 1, b);
            proof {
                crate::grammar::lemma_qs_body(s@, i as int + 1);
            }
            Ok((ParamValue::new(cnt, raw), b + 1))
        } else if b >= n {
            Err(Error { kind: ErrorKind::UnterminatedQuotedString, pos: i })
        } else {
            Err(Error { kind: ErrorKind::UnexpectedCharacter, pos: b })
        }
    } else {
        Err(Error { kind: ErrorKind::UnexpectedCharacter, pos: i })
    }
}

/// Scans one auth-param: `token BWS "=" BWS value`.
fn scan_param<'i>(s: &'i str, n: usize, i: usize) -> (r: Result<
    ((&'i str, ParamValue<'i>), usize),
    Error,
>)
    requires
        n == s@.len(),
        i <= n,
    ensures
        r matches Ok((pair, k)) ==> (param_m(s@, i as int) matches Ok((kk, pp)) && kk == k as int
            && pp == param_pair_view(pair) && i < k <= n),
        r matches Err(e) ==> (param_m(s@, i as int) matches Err(ee) && ee.kind == e.kind && ee.pos
            == e.pos as int),
{
    let te = scan_token(s, n, i);
    if te == i {
        return Err(Error { kind: ErrorKind::EmptyToken, pos: i });
    }
    let w = scan_ows(s, n, te);
    if !(w < n && s.get_char(w) == '=') {
        return Err(Error { kind: ErrorKind::MissingEquals, pos: w });
    }
    let k = scan_ows(s, n, w + 1);
    match scan_value(s, n, k) {
        Err(e) => Err(e),
        Ok((v, m)) => {
            let name = s.substring_char(i, te);
            Ok(((name, v), m))
        },
    }
}


/// Consumes a maximal run of `"," OWS` groups starting on a comma.
fn scan_commas(s: &str, n: usize, i: usize) -> (r: usize)
    requires
        n == s@.len(),
        i < n,
        s@[i as int] == ',',
    ensures
        r as int == commas_end(s@, i as int),
        i < r <= n,
{
    let mut x = i;
    while comma_at(s, n, x)
        invariant
            n == s@.len(),
            i <= x <= n,
            commas_end(s@, i as int) == commas_end(s@, x as int),
        decreases n - x,
    {
        x = scan_ows(s, n, x + 1);
    }
    proof {
        // The loop ran at least once, since a comma stands at `i`.
        assert(x != i);
    }
    x
}

/// Scans a committed `#auth-param` list whose first parameter begins at
/// `i`, yielding the parameter pairs and the position after the last
/// one.
fn scan_params<'i>(s: &'i str, n: usize, i: usize) -> (r: Result<
    (Vec<(&'i str, ParamValue<'i>)>, usize),
    Error,
>)
    requires
        n == s@.len(),
        i <= n,
    ensures
        r matches Ok((v, m)) ==> (params_m(s@, i as int) matches Ok((mm, ps)) && mm == m as int
            && ps == crate::params_view(v@) && i < m <= n),
        r matches Err(e) ==> (params_m(s@, i as int) matches Err(ee) && ee.kind == e.kind && ee.pos
            == e.pos as int),
{
    let mut out: Vec<(&'i str, ParamValue<'i>)> = Vec::new();
    let mut cur = i;
    proof {
        crate::lemma_params_view_empty();
    }
    loop
        invariant
            n == s@.len(),
            i <= cur <= n,
            params_m(s@, i as int) == (match params_m(s@, cur as int) {
                Ok((m2, ps2)) => Ok::<(int, Seq<SpecParam>), SpecErr>(
                    (m2, crate::params_view(out@) + ps2),
                ),
                Err(e2) => Err::<(int, Seq<SpecParam>), SpecErr>(e2),
            }),
        decreases n - cur,
    {
        match scan_param(s, n, cur) {
            Err(e) => {
                return Err(e);
            },
            Ok((pair, k)) => {
                let ghost out_old = out@;
                out.push(pair);
                proof {
                    crate::lemma_params_view_push(out_old, pair);
                }
                let j = scan_ows(s, n, k);
                if j < n && s.get_char(j) == ',' {
                    let c = scan_commas(s, n, j);
                    proof {
                        assert(sep_end(s@, k as int) == Some(commas_end(s@, j as int)));
                    }
                    if is_param_start(s, n, c) {
                        proof {
                            let ghost rest = params_m(s@, c as int);
                            match rest {
                                Ok((m2, ps2)) => {
                                    assert(params_m(s@, cur as int) == Ok::<
                                        (int, Seq<SpecParam>),
                                        SpecErr,
                                    >((m2, seq![param_pair_view(pair)] + ps2)));
                                    assert(crate::params_view(out_old) + (seq![param_pair_view(
                                        pair,
                                    )] + ps2) =~= crate::params_view(out@) + ps2);
                                },
                                Err(e2) => {},
                            }
                        }
                        cur = c;
                    } else {
                        proof {
                            assert(params_m(s@, cur as int) == Ok::<
                                (int, Seq<SpecParam>),
                                SpecErr,
                            >((k as int, seq![param_pair_view(pair)])));
                            assert(crate::params_view(out_old) + seq![param_pair_view(pair)]
                                =~= crate::params_view(out@));
                        }
                        return Ok((out, k));
                    }
                } else {
                    proof {
                        assert(sep_end(s@, k as int) is None);
                        assert(params_m(s@, cur as int) == Ok::<(int, Seq<SpecParam>), SpecErr>(
                            (k as int, seq![param_pair_view(pair)]),
                        ));
                        assert(crate::params_view(out_old) + seq![param_pair_view(pair)]
                            =~= crate::params_view(out@));
                    }
                    return Ok((out, k));
                }
            },
        }
    }
}

/// Scans one committed challenge whose scheme begins at `i`.
fn scan_challenge<'i>(s: &'i str, n: usize, i: usize) -> (r: Result<
    (ChallengeRef<'i>, usize),
    Error,
>)
    requires
        n == s@.len(),
        i < n,
        tchar_c(s@[i as int]),
    ensures
        r matches Ok((ch, m)) ==> (challenge_m(s@, i as int) matches Ok((mm, cc)) && mm == m as int
            && cc == ch@ && i < m <= n),
        r matches Err(e) ==> (challenge_m(s@, i as int) matches Err(ee) && ee.kind == e.kind
            && ee.pos == e.pos as int),
{
    let te = scan_token(s, n, i);
    proof {
        crate::grammar::lemma_token_end(s@, i as int);
    }
    let scheme = s.substring_char(i, te);
    if te < n && s.get_char(te) == ' ' {
        if is_param_start(s, n, te + 1) {
            match scan_params(s, n, te + 1) {
                Err(e) => Err(e),
                Ok((params, m)) => {
                    let ch = ChallengeRef { scheme, params };
                    Ok((ch, m))
                },
            }
        } else {
            let ch = ChallengeRef { scheme, params: Vec::new() };
            proof {
                assert(ch@.params =~= Seq::<SpecParam>::empty());
            }
            Ok((ch, te + 1))
        }
    } else {
        let ch = ChallengeRef { scheme, params: Vec::new() };
        proof {
            assert(ch@.params =~= Seq::<SpecParam>::empty());
        }
        Ok((ch, te))
    }
}

/// The outcome of the executable separator scan.
enum SepRes {
    End,
    Next(usize),
    Fail(Error),
}

/// Scans for a list separator after a challenge, mirroring [`sep_scan`].
fn scan_sep(s: &str, n: usize, i: usize) -> (r: SepRes)
    requires
        n == s@.len(),
        i <= n,
    ensures
        r matches SepRes::End ==> sep_scan(s@, i as int, false) is AtEnd,
        r matches SepRes::Next(j) ==> (sep_scan(s@, i as int, false) matches SepScan::Next(jj) && jj
            == j as int && i <= j < n && tchar_c(s@[j as int])),
        r matches SepRes::Fail(e) ==> (sep_scan(s@, i as int, false) matches SepScan::Bad(ee) && ee.kind
            == e.kind && ee.pos == e.pos as int),
{
    let mut x = i;
    let mut seen = false;
    loop
        invariant
            n == s@.len(),
            i <= x <= n,
            sep_scan(s@, i as int, false) == sep_scan(s@, x as int, seen),
        decreases n - x,
    {
        if x == n {
            return SepRes::End;
        }
        let j = scan_ows(s, n, x);
        if j < n && s.get_char(j) == ',' {
            x = j + 1;
            seen = true;
        } else if j >= n {
            return SepRes::Fail(Error { kind: ErrorKind::UnexpectedCharacter, pos: j });
        } else if seen {
            if char_tchar(s.get_char(j)) {
                return SepRes::Next(j);
            } else {
                return SepRes::Fail(Error { kind: ErrorKind::EmptyToken, pos: j });
            }
        } else {
            return SepRes::Fail(Error { kind: ErrorKind::UnexpectedCharacter, pos: j });
        }
    }
}

/// Parses a whole header value as a challenge list, implementing the
/// committed machine exactly.
pub(crate) fn scan_challenges<'i>(s: &'i str) -> (r: Result<Vec<ChallengeRef<'i>>, Error>)
    ensures
        r matches Ok(v) ==> machine_parse(s@) == Ok::<Seq<SpecChallenge>, SpecErr>(
            crate::challenges_view(v@),
        ),
        r matches Err(e) ==> (machine_parse(s@) matches Err(ee) && ee.kind == e.kind && ee.pos
            == e.pos as int),
{
    let n = s.unicode_len();
    let mut l: usize = 0;
    while comma_at(s, n, l)
        invariant
            n == s@.len(),
            l <= n,
            lead_end(s@, 0) == lead_end(s@, l as int),
        decreases n - l,
    {
        l = scan_ows(s, n, l + 1);
    }
    proof {
        assert(lead_end(s@, 0) == l as int);
    }
    if l == n {
        return Err(Error { kind: ErrorKind::NoChallenges, pos: l });
    }
    if !char_tchar(s.get_char(l)) {
        return Err(Error { kind: ErrorKind::EmptyToken, pos: l });
    }
    let mut out: Vec<ChallengeRef<'i>> = Vec::new();
    let mut cur: usize;
    match scan_challenge(s, n, l) {
        Err(e) => {
            return Err(e);
        },
        Ok((ch, m)) => {
            let ghost out_old = out@;
            out.push(ch);
            cur = m;
            proof {
                crate::lemma_challenges_view_empty();
                crate::lemma_challenges_view_push(out_old, ch);
                assert(crate::challenges_view(out@) =~= seq![ch@]);
            }
        },
    }
    loop
        invariant
            n == s@.len(),
            cur <= n,
            machine_parse(s@) == (match machine_rest(s@, cur as int) {
                Ok(cs) => Ok::<Seq<SpecChallenge>, SpecErr>(crate::challenges_view(out@) + cs),
                Err(e) => Err::<Seq<SpecChallenge>, SpecErr>(e),
            }),
        decreases n - cur,
    {
        match scan_sep(s, n, cur) {
            SepRes::End => {
                proof {
                    assert(machine_rest(s@, cur as int) == Ok::<Seq<SpecChallenge>, SpecErr>(
                        Seq::empty(),
                    ));
                    assert(crate::challenges_view(out@) + Seq::<SpecChallenge>::empty()
                        =~= crate::challenges_view(out@));
                }
                return Ok(out);
            },
            SepRes::Fail(e) => {
                return Err(e);
            },
            SepRes::Next(j) => {
                match scan_challenge(s, n, j) {
                    Err(e) => {
                        return Err(e);
                    },
                    Ok((ch2, m2)) => {
                        let ghost out_old = out@;
                        out.push(ch2);
                        proof {
                            crate::lemma_challenges_view_push(out_old, ch2);
                            let ghost rest = machine_rest(s@, m2 as int);
                            match rest {
                                Ok(cs) => {
                                    assert(machine_rest(s@, cur as int) == Ok::<
                                        Seq<SpecChallenge>,
                                        SpecErr,
                                    >(seq![ch2@] + cs));
                                    assert(crate::challenges_view(out_old) + (seq![ch2@] + cs)
                                        =~= crate::challenges_view(out@) + cs);
                                },
                                Err(e2) => {},
                            }
                        }
                        cur = m2;
                    },
                }
            },
        }
    }
}


/// The view of a vector of string slices, text by text.
pub open spec fn strs_view<'i>(v: Seq<&'i str>) -> Seq<Seq<char>> {
    v.map_values(|t: &'i str| t@)
}

proof fn lemma_strs_view_push<'i>(v: Seq<&'i str>, x: &'i str)
    ensures
        strs_view(v.push(x)) == strs_view(v).push(x@),
{
    assert(strs_view(v.push(x)) =~= strs_view(v).push(x@));
}

proof fn lemma_strs_view_empty<'i>()
    ensures
        strs_view(Seq::<&'i str>::empty()) == Seq::<Seq<char>>::empty(),
{
    assert(strs_view(Seq::<&'i str>::empty()) =~= Seq::<Seq<char>>::empty());
}

/// Consumes the trailing `*( OWS "," )` groups of an outermost list.
fn scan_trail(s: &str, n: usize, i: usize) -> (r: usize)
    requires
        n == s@.len(),
        i <= n,
    ensures
        r as int == trail_end(s@, i as int),
        i <= r <= n,
{
    let mut x = i;
    loop
        invariant
            n == s@.len(),
            i <= x <= n,
            trail_end(s@, i as int) == trail_end(s@, x as int),
        decreases n - x,
    {
        let j = scan_ows(s, n, x);
        if j < n && s.get_char(j) == ',' {
            x = j + 1;
        } else {
            proof {
                crate::grammar::lemma_trail_end_bounds(s@, i as int);
            }
            return x;
        }
    }
}

/// Scans a quoted-string standing at the start of the input, returning
/// its value and the rest of the input after the closing quote.
pub fn quoted_string<'i>(input: &'i str) -> (r: Result<(ParamValue<'i>, &'i str), Error>)
    ensures
        r is Ok <==> quoted_at(input@, 0) is Some,
        r matches Ok((v, rest)) ==> (quoted_at(input@, 0) matches Some((m, vv)) && vv == v@
            && rest@ == input@.skip(m)),
        r matches Err(e) ==> (((input@.len() == 0 || input@[0] != '"') && e.kind
            == ErrorKind::UnexpectedCharacter && e.pos == 0) || (input@.len() > 0 && input@[0]
            == '"' && qs_body_end(input@, 1) >= input@.len() && e.kind
            == ErrorKind::UnterminatedQuotedString && e.pos == 0) || (input@.len() > 0 && input@[0]
            == '"' && qs_body_end(input@, 1) < input@.len() && e.kind
            == ErrorKind::UnexpectedCharacter && e.pos as int == qs_body_end(input@, 1))),
{
    let n = input.unicode_len();
    if n == 0 || input.get_char(0) != '"' {
        return Err(Error { kind: ErrorKind::UnexpectedCharacter, pos: 0 });
    }
    let (b, cnt) = scan_qs_body(input, n, 1);
    if b < n && input.get_char(b) == '"' {
        let raw = input.substring_char(1, b);
        proof {
            crate::grammar::lemma_qs_body(input@, 1);
        }
        let rest = input.substring_char(b + 1, n);
        proof {
            assert(rest@ =~= input@.skip(b + 1 as int));
        }
        Ok((ParamValue::new(cnt, raw), rest))
    } else if b >= n {
        Err(Error { kind: ErrorKind::UnterminatedQuotedString, pos: 0 })
    } else {
        Err(Error { kind: ErrorKind::UnexpectedCharacter, pos: b })
    }
}

/// Scans one auth-param (`token BWS "=" BWS ( token / quoted-string )`)
/// standing at the start of the input, returning the name, the value and
/// the rest of the input.
pub fn auth_param<'i>(input: &'i str) -> (r: Result<((&'i str, ParamValue<'i>), &'i str), Error>)
    ensures
        r is Ok <==> param_m(input@, 0) is Ok,
        r matches Ok((pair, rest)) ==> (param_m(input@, 0) matches Ok((m, pp)) && pp
            == param_pair_view(pair) && rest@ == input@.skip(m)),
        r matches Err(e) ==> (param_m(input@, 0) matches Err(ee) && ee.kind == e.kind && ee.pos
            == e.pos as int),
{
    let n = input.unicode_len();
    match scan_param(input, n, 0) {
        Err(e) => Err(e),
        Ok((pair, m)) => {
            let rest = input.substring_char(m, n);
            proof {
                assert(rest@ =~= input@.skip(m as int));
            }
            Ok((pair, rest))
        },
    }
}

/// Parses a relaxed `1#token` list: the tokens and the rest of the input
/// left after the trailing separators.
pub fn token_list1<'i>(input: &'i str) -> (r: Result<(Vec<&'i str>, &'i str), Error>)
    ensures
        r is Ok <==> token_list1_at(input@) is Some,
        r matches Ok((v, rest)) ==> (token_list1_at(input@) matches Some((m, ts)) && ts
            == strs_view(v@) && rest@ == input@.skip(m)),
        r matches Err(e) ==> e.kind == ErrorKind::EmptyToken && e.pos as int == lead_end(
            input@,
            0,
        ),
{
    let n = input.unicode_len();
    let mut l: usize = 0;
    while comma_at(input, n, l)
        invariant
            n == input@.len(),
            l <= n,
            lead_end(input@, 0) == lead_end(input@, l as int),
        decreases n - l,
    {
        l = scan_ows(input, n, l + 1);
    }
    let te = scan_token(input, n, l);
    if te == l {
        return Err(Error { kind: ErrorKind::EmptyToken, pos: l });
    }
    let mut out: Vec<&'i str> = Vec::new();
    let ghost first = input@.subrange(l as int, te as int);
    let t0 = input.substring_char(l, te);
    let ghost out0 = out@;
    out.push(t0);
    proof {
        lemma_strs_view_empty();
        lemma_strs_view_push(out0, t0);
        assert(strs_view(out@) =~= seq![first]);
    }
    let mut cur = te;
    loop
        invariant
            n == input@.len(),
            cur <= n,
            token_list1_at(input@) matches Some((mm, ts)) && mm == trail_end(
                input@,
                tokens_tail(input@, cur as int).0,
            ) && ts == strs_view(out@) + tokens_tail(input@, cur as int).1,
        decreases n - cur,
    {
        let j = scan_ows(input, n, cur);
        if j < n && input.get_char(j) == ',' {
            let c = scan_commas(input, n, j);
            proof {
                assert(sep_end(input@, cur as int) == Some(commas_end(input@, j as int)));
            }
            let te2 = scan_token(input, n, c);
            if te2 > c {
                let tok = input.substring_char(c, te2);
                let ghost out_old = out@;
                out.push(tok);
                proof {
                    lemma_strs_view_push(out_old, tok);
                    let ghost (m2, ts2) = tokens_tail(input@, te2 as int);
                    assert(tokens_tail(input@, cur as int) == (
                        m2,
                        seq![input@.subrange(c as int, te2 as int)] + ts2,
                    ));
                    assert(strs_view(out_old) + (seq![input@.subrange(c as int, te2 as int)] + ts2)
                        =~= strs_view(out@) + ts2);
                }
                cur = te2;
            } else {
                proof {
                    assert(tokens_tail(input@, cur as int) == (
                        cur as int,
                        Seq::<Seq<char>>::empty(),
                    ));
                    assert(strs_view(out@) + Seq::<Seq<char>>::empty() =~= strs_view(out@));
                }
                let t = scan_trail(input, n, cur);
                let rest = input.substring_char(t, n);
                proof {
                    assert(rest@ =~= input@.skip(t as int));
                }
                return Ok((out, rest));
            }
        } else {
            proof {
                assert(sep_end(input@, cur as int) is None);
                assert(tokens_tail(input@, cur as int) == (cur as int, Seq::<Seq<char>>::empty()));
                assert(strs_view(out@) + Seq::<Seq<char>>::empty() =~= strs_view(out@));
            }
            let t = scan_trail(input, n, cur);
            let rest = input.substring_char(t, n);
            proof {
                assert(rest@ =~= input@.skip(t as int));
            }
            return Ok((out, rest));
        }
    }
}

/// Parses a relaxed `#token` list, where an empty list is legal.
pub fn token_list0<'i>(input: &'i str) -> (r: (Vec<&'i str>, &'i str))
    ensures
        token_list0_at(input@).1 == strs_view(r.0@),
        r.1@ == input@.skip(token_list0_at(input@).0),
{
    let n = input.unicode_len();
    let mut l: usize = 0;
    while comma_at(input, n, l)
        invariant
            n == input@.len(),
            l <= n,
            lead_end(input@, 0) == lead_end(input@, l as int),
        decreases n - l,
    {
        l = scan_ows(input, n, l + 1);
    }
    let te = scan_token(input, n, l);
    if te == l {
        let t = scan_trail(input, n, l);
        let rest = input.substring_char(t, n);
        proof {
            lemma_strs_view_empty();
            assert(rest@ =~= input@.skip(t as int));
        }
        return (Vec::new(), rest);
    }
    match token_list1(input) {
        Ok((v, rest)) => (v, rest),
        Err(e) => {
            // Unreachable: a token was found above.
            proof {
                assert(token_list1_at(input@) is Some);
            }
            (Vec::new(), "")
        },
    }
}


impl Error {
    /// Returns a short description of the failure.
    pub fn message(&self) -> (r: String)
        ensures
            r@ == crate::error_msg(self.kind),
    {
        match self.kind {
            ErrorKind::EmptyToken => String::from_str("expected a token"),
            ErrorKind::MissingEquals => String::from_str(
                "expected an equals sign after a parameter name",
            ),
            ErrorKind::UnterminatedQuotedString => String::from_str("unterminated quoted string"),
            ErrorKind::NoChallenges => String::from_str("no challenge in list"),
            ErrorKind::UnexpectedCharacter => String::from_str("unexpected character"),
        }
    }
}

/// The first step of the challenge-list machine: its first challenge, or
/// the failure that stops it before one is found.
pub(crate) enum FirstRes<'i> {
    Item(ChallengeRef<'i>),
    Fail(Error),
}

/// Scans the first challenge of a header value alone.
pub(crate) fn first_challenge<'i>(s: &'i str) -> (r: FirstRes<'i>)
    ensures
        r matches FirstRes::Item(ch) ==> ({
            let l = lead_end(s@, 0);
            &&& l < s@.len()
            &&& tchar_c(s@[l])
            &&& challenge_m(s@, l) matches Ok((m, c)) && c == ch@
        }),
        r matches FirstRes::Fail(e) ==> ({
            let l = lead_end(s@, 0);
            ||| (l >= s@.len() && e.kind == ErrorKind::NoChallenges && e.pos as int == l)
            ||| (l < s@.len() && !tchar_c(s@[l]) && e.kind == ErrorKind::EmptyToken && e.pos as int
                == l)
            ||| ({
                &&& l < s@.len()
                &&& tchar_c(s@[l])
                &&& challenge_m(s@, l) matches Err(ee) && ee.kind == e.kind && ee.pos == e.pos as int
            })
        }),
{
    let n = s.unicode_len();
    let mut l: usize = 0;
    while comma_at(s, n, l)
        invariant
            n == s@.len(),
            l <= n,
            lead_end(s@, 0) == lead_end(s@, l as int),
        decreases n - l,
    {
        l = scan_ows(s, n, l + 1);
    }
    if l == n {
        return FirstRes::Fail(Error { kind: ErrorKind::NoChallenges, pos: l });
    }
    if !char_tchar(s.get_char(l)) {
        return FirstRes::Fail(Error { kind: ErrorKind::EmptyToken, pos: l });
    }
    match scan_challenge(s, n, l) {
        Ok((ch, m)) => FirstRes::Item(ch),
        Err(e) => FirstRes::Fail(e),
    }
}


// ---------------------------------------------------------------------------
// A fixed nested grammar exercising the boundary between the two list
// forms: an outer relaxed list whose element is the word `foo`, one
// space, and an inner plain list of the word `bar`. The inner list form
// must stop at the outer list's comma boundaries without swallowing
// them.
// ---------------------------------------------------------------------------

/// Whether the word `bar` stands at `i`.
pub open spec fn bar_at(s: Seq<char>, i: int) -> bool {
    i + 3 <= s.len() && s[i] == 'b' && s[i + 1] == 'a' && s[i + 2] == 'r'
}

/// Whether the word `foo` and a space stand at `i`.
pub open spec fn foo_at(s: Seq<char>, i: int) -> bool {
    i + 4 <= s.len() && s[i] == 'f' && s[i + 1] == 'o' && s[i + 2] == 'o' && s[i + 3] == ' '
}

/// The rest of an inner `bar` list after its first word: a separator
/// followed by another `bar`, as often as both match.
pub open spec fn bars_tail(s: Seq<char>, i: int) -> (int, int)
    decreases s.len() - i,
{
    match sep_end(s, i) {
        Some(j) => {
            if bar_at(s, j) && i < j + 3 <= s.len() {
                let (m, c) = bars_tail(s, j + 3);
                (m, 1 + c)
            } else {
                (i, 0)
            }
        },
        None => (i, 0),
    }
}

/// One element of the outer list: `foo `, then a plain `1#bar` list.
/// Yields the position after the last `bar` and how many there were.
pub open spec fn foo_group_at(s: Seq<char>, i: int) -> Option<(int, int)> {
    if foo_at(s, i) && bar_at(s, i + 4) {
        let (m, c) = bars_tail(s, i + 7);
        Some((m, 1 + c))
    } else {
        None
    }
}

/// The rest of the outer list after its first group.
pub open spec fn groups_tail(s: Seq<char>, i: int) -> (int, Seq<int>)
    decreases s.len() - i,
{
    match sep_end(s, i) {
        Some(j) => match foo_group_at(s, j) {
            Some((k, c)) => {
                if i < k <= s.len() {
                    let (m, cs) = groups_tail(s, k);
                    (m, seq![c] + cs)
                } else {
                    (i, Seq::empty())
                }
            },
            None => (i, Seq::empty()),
        },
        None => (i, Seq::empty()),
    }
}

/// The whole outer relaxed list of `foo`-groups: the consumed length and
/// the `bar` count of each group in order.
pub open spec fn foo_bar_list_at(s: Seq<char>) -> Option<(int, Seq<int>)> {
    let l = lead_end(s, 0);
    match foo_group_at(s, l) {
        Some((m, c)) => {
            let (m2, cs) = groups_tail(s, m);
            Some((trail_end(s, m2), seq![c] + cs))
        },
        None => None,
    }
}

/// Whether the word `bar` stands at `i`.
fn scan_bar(s: &str, n: usize, i: usize) -> (r: bool)
    requires
        n == s@.len(),
        i <= n,
    ensures
        r == bar_at(s@, i as int),
{
    n - i >= 3 && s.get_char(i) == 'b' && s.get_char(i + 1) == 'a' && s.get_char(i + 2) == 'r'
}

/// Whether the word `foo` and a space stand at `i`.
fn scan_foo(s: &str, n: usize, i: usize) -> (r: bool)
    requires
        n == s@.len(),
        i <= n,
    ensures
        r == foo_at(s@, i as int),
{
    n - i >= 4 && s.get_char(i) == 'f' && s.get_char(i + 1) == 'o' && s.get_char(i + 2) == 'o'
        && s.get_char(i + 3) == ' '
}

/// Scans one `foo`-group at `i`, returning its `bar` words and the
/// position after the last one.
fn scan_foo_group<'i>(s: &'i str, n: usize, i: usize) -> (r: Option<(Vec<&'i str>, usize)>)
    requires
        n == s@.len(),
        i <= n,
    ensures
        r is Some <==> foo_group_at(s@, i as int) is Some,
        r matches Some((v, m)) ==> (foo_group_at(s@, i as int) matches Some((mm, c)) && mm
            == m as int && c == v@.len() && i < m <= n && (forall|k: int|
            0 <= k < v@.len() ==> #[trigger] v@[k]@ == seq!['b', 'a', 'r'])),
{
    if !(scan_foo(s, n, i) && scan_bar(s, n, i + 4)) {
        return None;
    }
    let mut out: Vec<&'i str> = Vec::new();
    let first = s.substring_char(i + 4, i + 7);
    proof {
        assert(first@ =~= seq!['b', 'a', 'r']);
    }
    out.push(first);
    let mut cur = i + 7;
    loop
        invariant
            n == s@.len(),
            i + 7 <= cur <= n,
            out@.len() >= 1,
            foo_at(s@, i as int),
            bar_at(s@, i as int + 4),
            forall|k: int| 0 <= k < out@.len() ==> #[trigger] out@[k]@ == seq!['b', 'a', 'r'],
            1 + bars_tail(s@, i as int + 7).1 == out@.len() + bars_tail(s@, cur as int).1,
            bars_tail(s@, i as int + 7).0 == bars_tail(s@, cur as int).0,
        decreases n - cur,
    {
        let j = scan_ows(s, n, cur);
        if j < n && s.get_char(j) == ',' {
            let c = scan_commas(s, n, j);
            proof {
                assert(sep_end(s@, cur as int) == Some(commas_end(s@, j as int)));
            }
            if scan_bar(s, n, c) {
                let w = s.substring_char(c, c + 3);
                proof {
                    assert(w@ =~= seq!['b', 'a', 'r']);
                }
                out.push(w);
                cur = c + 3;
            } else {
                proof {
                    assert(bars_tail(s@, cur as int) == (cur as int, 0int));
                }
                return Some((out, cur));
            }
        } else {
            proof {
                assert(sep_end(s@, cur as int) is None);
                assert(bars_tail(s@, cur as int) == (cur as int, 0int));
            }
            return Some((out, cur));
        }
    }
}

/// Parses the whole outer relaxed list of `foo`-groups, returning each
/// group's `bar` words and the rest of the input after the trailing
/// separators.
pub fn foo_bar_list<'i>(input: &'i str) -> (r: Result<(Vec<Vec<&'i str>>, &'i str), Error>)
    ensures
        r is Ok <==> foo_bar_list_at(input@) is Some,
        r matches Ok((v, rest)) ==> (foo_bar_list_at(input@) matches Some((m, cs)) && cs.len()
            == v@.len() && (forall|g: int| 0 <= g < v@.len() ==> cs[g] == #[trigger] v@[g]@.len())
            && (forall|g: int, k: int|
            0 <= g < v@.len() && 0 <= k < v@[g]@.len() ==> #[trigger] v@[g]@[k]@ == seq![
                'b',
                'a',
                'r',
            ]) && rest@ == input@.skip(m)),
        r matches Err(e) ==> e.kind == ErrorKind::UnexpectedCharacter && e.pos as int == lead_end(
            input@,
            0,
        ),
{
    let n = input.unicode_len();
    let mut l: usize = 0;
    while comma_at(input, n, l)
        invariant
            n == input@.len(),
            l <= n,
            lead_end(input@, 0) == lead_end(input@, l as int),
        decreases n - l,
    {
        l = scan_ows(input, n, l + 1);
    }
    let mut out: Vec<Vec<&'i str>> = Vec::new();
    let mut cur: usize;
    match scan_foo_group(input, n, l) {
        None => {
            return Err(Error { kind: ErrorKind::UnexpectedCharacter, pos: l });
        },
        Some((g, m)) => {
            out.push(g);
            cur = m;
        },
    }
    loop
        invariant
            n == input@.len(),
            cur <= n,
            out@.len() >= 1,
            foo_bar_list_at(input@) matches Some((mm, cs)) && mm == trail_end(
                input@,
                groups_tail(input@, cur as int).0,
            ) && cs.len() == out@.len() + groups_tail(input@, cur as int).1.len() && (forall|g: int|
                0 <= g < out@.len() ==> cs[g] == #[trigger] out@[g]@.len()) && (forall|g: int|
                0 <= g < groups_tail(input@, cur as int).1.len() ==> groups_tail(
                    input@,
                    cur as int,
                ).1[g] == cs[out@.len() + g]),
            forall|g: int, k: int|
                0 <= g < out@.len() && 0 <= k < out@[g]@.len() ==> #[trigger] out@[g]@[k]@ == seq![
                    'b',
                    'a',
                    'r',
                ],
        decreases n - cur,
    {
        let j = scan_ows(input, n, cur);
        if j < n && input.get_char(j) == ',' {
            let c = scan_commas(input, n, j);
            proof {
                assert(sep_end(input@, cur as int) == Some(commas_end(input@, j as int)));
            }
            match scan_foo_group(input, n, c) {
                Some((g, m)) => {
                    let ghost out_old = out@;
                    let ghost glen = g@.len();
                    out.push(g);
                    proof {
                        let ghost (m2, cs2) = groups_tail(input@, m as int);
                        assert(groups_tail(input@, cur as int) == (m2, seq![glen as int] + cs2));
                        let ghost (mm, cs) = foo_bar_list_at(input@)->Some_0;
                        assert(cs.len() == out@.len() + cs2.len());
                        assert forall|g2: int| 0 <= g2 < out@.len() implies cs[g2]
                            == out@[g2]@.len() by {
                            if g2 == out_old.len() {
                                assert(groups_tail(input@, cur as int).1[0] == cs[out_old.len()
                                    as int]);
                                assert((seq![glen as int] + cs2)[0] == glen as int);
                            }
                        }
                        assert forall|g2: int| 0 <= g2 < cs2.len() implies cs2[g2] == cs[out@.len()
                            + g2] by {
                            assert(groups_tail(input@, cur as int).1[1 + g2] == cs[out_old.len()
                                + 1 + g2]);
                            assert((seq![glen as int] + cs2)[1 + g2] == cs2[g2]);
                        }
                    }
                    cur = m;
                },
                None => {
                    proof {
                        assert(groups_tail(input@, cur as int) == (
                            cur as int,
                            Seq::<int>::empty(),
                        ));
                    }
                    let t = scan_trail(input, n, cur);
                    let rest = input.substring_char(t, n);
                    proof {
                        assert(rest@ =~= input@.skip(t as int));
                    }
                    return Ok((out, rest));
                },
            }
        } else {
            proof {
                assert(sep_end(input@, cur as int) is None);
                assert(groups_tail(input@, cur as int) == (cur as int, Seq::<int>::empty()));
            }
            let t = scan_trail(input, n, cur);
            let rest = input.substring_char(t, n);
            proof {
                assert(rest@ =~= input@.skip(t as int));
            }
            return Ok((out, rest));
        }
    }
}

} // verus!
