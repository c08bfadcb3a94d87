//! The challenge-list grammar as a mathematical definition.
//!
//! Every production of RFC 7235's `challenge` / `auth-param` grammar, in
//! RFC 7230's relaxed comma-list form, is written here as a spec function
//! over a sequence of characters, following the ABNF declaratively:
//! greedy scanners for character runs, and cursor-passing functions for
//! the compound rules. The executable parser is proved against these
//! definitions, so agreement between the two encodings of the grammar
//! holds for every input.

use vstd::prelude::*;

use crate::table::{spec_escapable, spec_ows, spec_qdtext, spec_tchar};

verus! {

/// Whether the character is an RFC 7230 `tchar`. Only ASCII characters
/// belong to any class; the byte classifier decides within ASCII.
pub open spec fn tchar_c(c: char) -> bool {
    c as u32 <= 0x7F && spec_tchar((c as u32) as u8)
}

/// Whether the character is optional whitespace (space or tab).
pub open spec fn ows_c(c: char) -> bool {
    c as u32 <= 0x7F && spec_ows((c as u32) as u8)
}

/// Whether the character is raw quoted-string text (`qdtext`).
pub open spec fn qdtext_c(c: char) -> bool {
    c as u32 <= 0x7F && spec_qdtext((c as u32) as u8)
}

/// Whether a backslash may escape the character inside a quoted-string.
/// Text input is scanned character by character, so only the ASCII
/// escapables are reachable here.
pub open spec fn escapable_c(c: char) -> bool {
    c as u32 <= 0x7F && spec_escapable((c as u32) as u8)
}

// ---------------------------------------------------------------------------
// The backslash-escape model of parameter values.
// ---------------------------------------------------------------------------

/// Whether `s` is a well-formed escaped text: scanned left to right,
/// every backslash has a character after it to escape, with no overlap.
pub open spec fn esc_valid(s: Seq<char>) -> bool
    decreases s.len(),
{
    if s.len() == 0 {
        true
    } else if s[0] == '\\' {
        s.len() >= 2 && esc_valid(s.skip(2))
    } else {
        esc_valid(s.skip(1))
    }
}

/// The number of backslash escapes in `s`, scanned left to right with no
/// overlap.
pub open spec fn esc_count(s: Seq<char>) -> nat
    decreases s.len(),
{
    if s.len() == 0 {
        0
    } else if s[0] == '\\' {
        1 + (if s.len() >= 2 {
            esc_count(s.skip(2))
        } else {
            0
        })
    } else {
        esc_count(s.skip(1))
    }
}

/// The unescaped form of `s`: each backslash is dropped and the character
/// after it is kept literally.
pub open spec fn unescape(s: Seq<char>) -> Seq<char>
    decreases s.len(),
{
    if s.len() == 0 {
        Seq::empty()
    } else if s[0] == '\\' {
        if s.len() >= 2 {
            seq![s[1]] + unescape(s.skip(2))
        } else {
            Seq::empty()
        }
    } else {
        seq![s[0]] + unescape(s.skip(1))
    }
}

/// On well-formed escaped text the unescaped length is the raw length
/// minus the escape count.
pub proof fn lemma_unescape_len(s: Seq<char>)
    requires
        esc_valid(s),
    ensures
        unescape(s).len() == s.len() - esc_count(s),
    decreases s.len(),
{
    if s.len() == 0 {
    } else if s[0] == '\\' {
        lemma_unescape_len(s.skip(2));
    } else {
        lemma_unescape_len(s.skip(1));
    }
}

/// A backslash-free prefix passes to the unescaped form verbatim.
pub proof fn lemma_unescape_run(s: Seq<char>, k: int)
    requires
        0 <= k <= s.len(),
        forall|j: int| 0 <= j < k ==> s[j] != '\\',
    ensures
        unescape(s) == s.subrange(0, k) + unescape(s.skip(k)),
    decreases k,
{
    if k == 0 {
        assert(s.skip(0) =~= s);
        assert(unescape(s) =~= s.subrange(0, 0) + unescape(s.skip(0)));
    } else {
        assert(s[0] != '\\');
        lemma_unescape_run(s.skip(1), k - 1);
        assert(s.skip(1).subrange(0, k - 1) =~= s.subrange(1, k));
        assert(s.skip(1).skip(k - 1) =~= s.skip(k));
        assert(seq![s[0]] + (s.subrange(1, k) + unescape(s.skip(k))) =~= s.subrange(0, k)
            + unescape(s.skip(k)));
    }
}

/// Text with no escapes unescapes to itself.
pub proof fn lemma_unescape_identity(s: Seq<char>)
    requires
        esc_count(s) == 0,
    ensures
        unescape(s) == s,
    decreases s.len(),
{
    if s.len() == 0 {
        assert(unescape(s) =~= s);
    } else {
        assert(s[0] != '\\');
        lemma_unescape_identity(s.skip(1));
        assert(unescape(s) =~= s);
    }
}

// ---------------------------------------------------------------------------
// Greedy character-run scanners.
// ---------------------------------------------------------------------------

/// The position after the maximal run of optional whitespace starting at
/// `i`.
pub open spec fn ows_end(s: Seq<char>, i: int) -> int
    decreases s.len() - i,
{
    if 0 <= i < s.len() && ows_c(s[i]) {
        ows_end(s, i + 1)
    } else {
        i
    }
}

/// The position after the maximal run of token characters starting at
/// `i`.
pub open spec fn token_end(s: Seq<char>, i: int) -> int
    decreases s.len() - i,
{
    if 0 <= i < s.len() && tchar_c(s[i]) {
        token_end(s, i + 1)
    } else {
        i
    }
}

pub proof fn lemma_ows_end(s: Seq<char>, i: int)
    requires
        0 <= i <= s.len(),
    ensures
        i <= ows_end(s, i) <= s.len(),
        forall|j: int| i <= j < ows_end(s, i) ==> ows_c(s[j]),
        ows_end(s, i) < s.len() ==> !ows_c(s[ows_end(s, i)]),
    decreases s.len() - i,
{
    if i < s.len() && ows_c(s[i]) {
        lemma_ows_end(s, i + 1);
    }
}

pub proof fn lemma_token_end(s: Seq<char>, i: int)
    requires
        0 <= i <= s.len(),
    ensures
        i <= token_end(s, i) <= s.len(),
        forall|j: int| i <= j < token_end(s, i) ==> tchar_c(s[j]),
        token_end(s, i) < s.len() ==> !tchar_c(s[token_end(s, i)]),
    decreases s.len() - i,
{
    if i < s.len() && tchar_c(s[i]) {
        lemma_token_end(s, i + 1);
    }
}

/// An ASCII code point makes the character itself an ASCII character.
pub proof fn lemma_ascii_char(c: char)
    requires
        c as u32 <= 0x7F,
    ensures
        '\0' <= c <= '\u{7f}',
{
    assert(c as int == c as u32 as int);
}

/// A greedy whitespace scan stops exactly at the end of any whitespace
/// run that is followed by a non-whitespace boundary.
pub proof fn lemma_ows_end_exact(s: Seq<char>, i: int, w: int)
    requires
        0 <= i <= w <= s.len(),
        forall|j: int| i <= j < w ==> ows_c(s[j]),
        w < s.len() ==> !ows_c(s[w]),
    ensures
        ows_end(s, i) == w,
    decreases w - i,
{
    if i < w {
        lemma_ows_end_exact(s, i + 1, w);
    }
}

/// A greedy token scan stops exactly at the end of any token-character
/// run that is followed by a non-token boundary.
pub proof fn lemma_token_end_exact(s: Seq<char>, i: int, w: int)
    requires
        0 <= i <= w <= s.len(),
        forall|j: int| i <= j < w ==> tchar_c(s[j]),
        w < s.len() ==> !tchar_c(s[w]),
    ensures
        token_end(s, i) == w,
    decreases w - i,
{
    if i < w {
        lemma_token_end_exact(s, i + 1, w);
    }
}

// ---------------------------------------------------------------------------
// The records the grammar denotes.
// ---------------------------------------------------------------------------

/// A parameter value at the mathematical level: the raw text between the
/// quote marks (or the bare token) and its escape count.
pub ghost struct SpecValue {
    pub escapes: nat,
    pub raw: Seq<char>,
}

/// One `name=value` pair of a challenge.
pub ghost struct SpecParam {
    pub name: Seq<char>,
    pub value: SpecValue,
}

/// One challenge: a scheme name and its parameters in source order.
pub ghost struct SpecChallenge {
    pub scheme: Seq<char>,
    pub params: Seq<SpecParam>,
}

// ---------------------------------------------------------------------------
// Quoted strings and auth-params.
// ---------------------------------------------------------------------------

/// The position where the body scan of a quoted-string stops, starting
/// just after the opening quote: each step consumes either one `qdtext`
/// character or a backslash together with the escapable character after
/// it.
pub open spec fn qs_body_end(s: Seq<char>, i: int) -> int
    decreases s.len() - i,
{
    if 0 <= i < s.len() && qdtext_c(s[i]) {
        qs_body_end(s, i + 1)
    } else if 0 <= i && i + 1 < s.len() && s[i] == '\\' && escapable_c(s[i + 1]) {
        qs_body_end(s, i + 2)
    } else {
        i
    }
}

/// The number of escape steps the body scan takes from `i`.
pub open spec fn qs_escapes(s: Seq<char>, i: int) -> nat
    decreases s.len() - i,
{
    if 0 <= i < s.len() && qdtext_c(s[i]) {
        qs_escapes(s, i + 1)
    } else if 0 <= i && i + 1 < s.len() && s[i] == '\\' && escapable_c(s[i + 1]) {
        1 + qs_escapes(s, i + 2)
    } else {
        0
    }
}

/// `quoted-string` at `i`: an opening quote, the body scan, and a closing
/// quote where the body stopped. Yields the position after the closing
/// quote and the value (raw body text plus escape count).
pub open spec fn quoted_at(s: Seq<char>, i: int) -> Option<(int, SpecValue)> {
    if 0 <= i < s.len() && s[i] == '"' {
        let b = qs_body_end(s, i + 1);
        if b < s.len() && s[b] == '"' {
            Some((b + 1, SpecValue { escapes: qs_escapes(s, i + 1), raw: s.subrange(i + 1, b) }))
        } else {
            None
        }
    } else {
        None
    }
}

/// `auth-param` at `i`: `token BWS "=" BWS ( token / quoted-string )`.
pub open spec fn auth_param_at(s: Seq<char>, i: int) -> Option<(int, SpecParam)> {
    if 0 <= i <= s.len() {
        let te = token_end(s, i);
        if te == i {
            None
        } else {
            let w = ows_end(s, te);
            if w < s.len() && s[w] == '=' {
                let k = ows_end(s, w + 1);
                let ve = token_end(s, k);
                if ve > k {
                    Some(
                        (
                            ve,
                            SpecParam {
                                name: s.subrange(i, te),
                                value: SpecValue { escapes: 0, raw: s.subrange(k, ve) },
                            },
                        ),
                    )
                } else {
                    match quoted_at(s, k) {
                        Some((m, v)) => Some((m, SpecParam { name: s.subrange(i, te), value: v })),
                        None => None,
                    }
                }
            } else {
                None
            }
        }
    } else {
        None
    }
}

// ---------------------------------------------------------------------------
// The relaxed list forms.
// ---------------------------------------------------------------------------

/// The position after a maximal run of `"," OWS` groups starting on a
/// comma: the separator core shared by both relaxed list forms.
pub open spec fn commas_end(s: Seq<char>, i: int) -> int
    decreases s.len() - i,
{
    if 0 <= i < s.len() && s[i] == ',' {
        let j = ows_end(s, i + 1);
        if i + 1 <= j <= s.len() {
            commas_end(s, j)
        } else {
            j
        }
    } else {
        i
    }
}

/// The list-element separator `OWS 1*( "," OWS )`: succeeds only if a
/// comma follows the leading whitespace.
pub open spec fn sep_end(s: Seq<char>, i: int) -> Option<int> {
    if 0 <= i <= s.len() {
        let j = ows_end(s, i);
        if j < s.len() && s[j] == ',' {
            Some(commas_end(s, j))
        } else {
            None
        }
    } else {
        None
    }
}

/// The position after the leading `*( "," OWS )` of the outermost list.
pub open spec fn lead_end(s: Seq<char>, i: int) -> int
    decreases s.len() - i,
{
    if 0 <= i < s.len() && s[i] == ',' {
        let j = ows_end(s, i + 1);
        if i + 1 <= j <= s.len() {
            lead_end(s, j)
        } else {
            j
        }
    } else {
        i
    }
}

/// The position after the trailing `*( OWS "," )` of the outermost list,
/// or `i` itself if the first group does not match.
pub open spec fn trail_end(s: Seq<char>, i: int) -> int
    decreases s.len() - i,
{
    if 0 <= i <= s.len() {
        let j = ows_end(s, i);
        if i <= j < s.len() && s[j] == ',' {
            trail_end(s, j + 1)
        } else {
            i
        }
    } else {
        i
    }
}

/// The rest of an inner `#auth-param` list after its first element:
/// repeatedly a separator followed by another `auth-param`, stopping
/// (without consuming the separator) as soon as either fails.
pub open spec fn params_tail(s: Seq<char>, i: int) -> (int, Seq<SpecParam>)
    decreases s.len() - i,
{
    match sep_end(s, i) {
        Some(j) => match auth_param_at(s, j) {
            Some((k, p)) => {
                if i < k <= s.len() {
                    let (m, ps) = params_tail(s, k);
                    (m, seq![p] + ps)
                } else {
                    (i, Seq::empty())
                }
            },
            None => (i, Seq::empty()),
        },
        None => (i, Seq::empty()),
    }
}

/// `challenge` at `i`: `auth-scheme [ 1*SP #auth-param ]`, with the inner
/// list in its plain (non-comma-tolerant) form. A single space after the
/// scheme is consumed even when no parameter follows it; the `token68`
/// form is deliberately not recognized.
pub open spec fn challenge_at(s: Seq<char>, i: int) -> Option<(int, SpecChallenge)> {
    if 0 <= i <= s.len() {
        let te = token_end(s, i);
        if te == i {
            None
        } else {
            let scheme = s.subrange(i, te);
            if te < s.len() && s[te] == ' ' {
                match auth_param_at(s, te + 1) {
                    Some((k, p)) => {
                        let (m, ps) = params_tail(s, k);
                        Some((m, SpecChallenge { scheme, params: seq![p] + ps }))
                    },
                    None => Some((te + 1, SpecChallenge { scheme, params: Seq::empty() })),
                }
            } else {
                Some((te, SpecChallenge { scheme, params: Seq::empty() }))
            }
        }
    } else {
        None
    }
}

/// The rest of the outer challenge list after its first element.
pub open spec fn challenges_tail(s: Seq<char>, i: int) -> (int, Seq<SpecChallenge>)
    decreases s.len() - i,
{
    match sep_end(s, i) {
        Some(j) => match challenge_at(s, j) {
            Some((k, c)) => {
                if i < k <= s.len() {
                    let (m, cs) = challenges_tail(s, k);
                    (m, seq![c] + cs)
                } else {
                    (i, Seq::empty())
                }
            },
            None => (i, Seq::empty()),
        },
        None => (i, Seq::empty()),
    }
}

/// The whole header value as a challenge list:
/// `*( "," OWS ) challenge *( OWS "," [ OWS challenge ] )`, consuming all
/// input. `None` means the input is not a challenge list.
pub open spec fn spec_challenges(s: Seq<char>) -> Option<Seq<SpecChallenge>> {
    let l = lead_end(s, 0);
    match challenge_at(s, l) {
        None => None,
        Some((j, c)) => {
            let (m, cs) = challenges_tail(s, j);
            if trail_end(s, m) == s.len() {
                Some(seq![c] + cs)
            } else {
                None
            }
        },
    }
}

/// The rest of a relaxed token list after its first token.
pub open spec fn tokens_tail(s: Seq<char>, i: int) -> (int, Seq<Seq<char>>)
    decreases s.len() - i,
{
    match sep_end(s, i) {
        Some(j) => {
            let te = token_end(s, j);
            if te > j && i < te <= s.len() {
                let (m, ts) = tokens_tail(s, te);
                (m, seq![s.subrange(j, te)] + ts)
            } else {
                (i, Seq::empty())
            }
        },
        None => (i, Seq::empty()),
    }
}

/// `1#token` in the relaxed list form: at least one token, leading and
/// trailing separators tolerated. Yields the consumed length and the
/// tokens, or `None` when no token at all is found.
pub open spec fn token_list1_at(s: Seq<char>) -> Option<(int, Seq<Seq<char>>)> {
    let l = lead_end(s, 0);
    let te = token_end(s, l);
    if te > l {
        let (m, ts) = tokens_tail(s, te);
        Some((trail_end(s, m), seq![s.subrange(l, te)] + ts))
    } else {
        None
    }
}

/// `#token` in the relaxed list form: like [`token_list1_at`] but an
/// empty list is legal.
pub open spec fn token_list0_at(s: Seq<char>) -> (int, Seq<Seq<char>>) {
    let l = lead_end(s, 0);
    let te = token_end(s, l);
    if te > l {
        let (m, ts) = tokens_tail(s, te);
        (trail_end(s, m), seq![s.subrange(l, te)] + ts)
    } else {
        (trail_end(s, l), Seq::empty())
    }
}

// ---------------------------------------------------------------------------
// Facts about the list machinery, used to relate the two encodings of the
// grammar.
// ---------------------------------------------------------------------------

/// Whether every character in `[i, b)` is whitespace or a comma: the
/// region a list separator may cross.
pub open spec fn region_oc(s: Seq<char>, i: int, b: int) -> bool {
    forall|m: int| i <= m < b ==> ows_c(s[m]) || s[m] == ','
}

/// Whether some character in `[i, b)` is a comma.
pub open spec fn has_comma(s: Seq<char>, i: int, b: int) -> bool {
    exists|m: int| i <= m < b && s[m] == ','
}

pub proof fn lemma_commas_end_bounds(s: Seq<char>, i: int)
    requires
        0 <= i <= s.len(),
    ensures
        i <= commas_end(s, i) <= s.len(),
    decreases s.len() - i,
{
    if i < s.len() && s[i] == ',' {
        lemma_ows_end(s, i + 1);
        let j = ows_end(s, i + 1);
        lemma_commas_end_bounds(s, j);
    }
}

/// The comma scan crosses exactly a whitespace-and-comma region that
/// begins on a comma, stopping at the first character that is neither.
pub proof fn lemma_commas_end_exact(s: Seq<char>, x: int, q: int)
    requires
        0 <= x <= q <= s.len(),
        x < q ==> s[x] == ',',
        forall|m: int| x <= m < q ==> ows_c(s[m]) || s[m] == ',',
        q < s.len() ==> !(ows_c(s[q]) || s[q] == ','),
    ensures
        commas_end(s, x) == q,
    decreases q - x,
{
    if x < q {
        lemma_ows_end(s, x + 1);
        let j = ows_end(s, x + 1);
        // The whitespace scan cannot pass a comma nor the boundary.
        assert(j <= q) by {
            if j > q {
                assert(ows_c(s[q]));
            }
        }
        if j < q {
            assert(ows_c(s[j]) || s[j] == ',');
            assert(s[j] == ',');
        }
        lemma_commas_end_exact(s, j, q);
    }
}

pub proof fn lemma_lead_end_bounds(s: Seq<char>, i: int)
    requires
        0 <= i <= s.len(),
    ensures
        i <= lead_end(s, i) <= s.len(),
    decreases s.len() - i,
{
    if i < s.len() && s[i] == ',' {
        lemma_ows_end(s, i + 1);
        lemma_lead_end_bounds(s, ows_end(s, i + 1));
    }
}

pub proof fn lemma_trail_end_bounds(s: Seq<char>, i: int)
    requires
        0 <= i <= s.len(),
    ensures
        i <= trail_end(s, i) <= s.len(),
    decreases s.len() - i,
{
    let j = ows_end(s, i);
    lemma_ows_end(s, i);
    if i <= j < s.len() && s[j] == ',' {
        lemma_trail_end_bounds(s, j + 1);
    }
}

/// The trailing scan cannot pass a character that is neither whitespace
/// nor a comma.
pub proof fn lemma_trail_end_stop(s: Seq<char>, i: int, p: int)
    requires
        0 <= i <= p < s.len(),
        !ows_c(s[p]),
        s[p] != ',',
    ensures
        trail_end(s, i) <= p,
    decreases s.len() - i,
{
    let j = ows_end(s, i);
    lemma_ows_end(s, i);
    assert(j <= p) by {
        if j > p {
            assert(ows_c(s[p]));
        }
    }
    if i <= j < s.len() && s[j] == ',' {
        lemma_trail_end_stop(s, j + 1, p);
    }
}

/// Over a pure whitespace-and-comma region, the trailing scan consumes
/// everything exactly when the region is empty or ends on a comma.
pub proof fn lemma_trail_end_region(s: Seq<char>, i: int)
    requires
        0 <= i <= s.len(),
        region_oc(s, i, s.len() as int),
    ensures
        trail_end(s, i) == s.len() <==> (i == s.len() || s[s.len() - 1] == ','),
    decreases s.len() - i,
{
    if i < s.len() {
        let j = ows_end(s, i);
        lemma_ows_end(s, i);
        if j == s.len() {
            // All whitespace to the end: the scan returns `i`, and the
            // last character is whitespace, not a comma.
            assert(ows_c(s[s.len() - 1]));
            assert(trail_end(s, i) == i);
        } else {
            assert(s[j] == ',');
            lemma_trail_end_region(s, j + 1);
            if j + 1 == s.len() {
                assert(trail_end(s, j + 1) == s.len());
            }
        }
    }
}

/// Text without backslashes is trivially well-formed escaped text with
/// zero escapes.
pub proof fn lemma_esc_trivial(t: Seq<char>)
    requires
        forall|j: int| 0 <= j < t.len() ==> t[j] != '\\',
    ensures
        esc_valid(t),
        esc_count(t) == 0,
    decreases t.len(),
{
    if t.len() > 0 {
        lemma_esc_trivial(t.skip(1));
    }
}

/// A token is well-formed escaped ASCII text with zero escapes.
pub proof fn lemma_token_text(s: Seq<char>, i: int)
    requires
        0 <= i <= s.len(),
    ensures
        esc_valid(s.subrange(i, token_end(s, i))),
        esc_count(s.subrange(i, token_end(s, i))) == 0,
        vstd::utf8::is_ascii_chars(s.subrange(i, token_end(s, i))),
{
    let te = token_end(s, i);
    lemma_token_end(s, i);
    let t = s.subrange(i, te);
    assert forall|j: int| 0 <= j < t.len() implies t[j] != '\\' by {
        assert(t[j] == s[i + j]);
        assert(tchar_c(s[i + j]));
    }
    lemma_esc_trivial(t);
    assert forall|j: int| 0 <= j < t.len() implies '\0' <= #[trigger] t[j] <= '\u{7f}' by {
        assert(t[j] == s[i + j]);
        assert(tchar_c(s[i + j]));
        lemma_ascii_char(s[i + j]);
    }
}

/// The quoted-string body scan stays in bounds and its region is exactly
/// the well-formed escaped ASCII text its escape count describes.
pub proof fn lemma_qs_body(s: Seq<char>, i: int)
    requires
        0 <= i <= s.len(),
    ensures
        i <= qs_body_end(s, i) <= s.len(),
        esc_valid(s.subrange(i, qs_body_end(s, i))),
        esc_count(s.subrange(i, qs_body_end(s, i))) == qs_escapes(s, i),
        vstd::utf8::is_ascii_chars(s.subrange(i, qs_body_end(s, i))),
    decreases s.len() - i,
{
    let b = qs_body_end(s, i);
    if 0 <= i < s.len() && qdtext_c(s[i]) {
        lemma_qs_body(s, i + 1);
        assert(s.subrange(i, b).skip(1) =~= s.subrange(i + 1, b));
        assert(s[i] != '\\');
        assert(s.subrange(i, b)[0] == s[i]);
        assert forall|m: int| 0 <= m < b - i implies '\0' <= #[trigger] s.subrange(i, b)[m]
            <= '\u{7f}' by {
            assert(s.subrange(i, b)[m] == s[i + m]);
            if m == 0 {
                assert(qdtext_c(s[i]));
                lemma_ascii_char(s[i]);
            } else {
                assert(vstd::utf8::is_ascii_chars(s.subrange(i + 1, b)));
                assert(s.subrange(i + 1, b)[m - 1] == s[i + m]);
            }
        }
    } else if 0 <= i && i + 1 < s.len() && s[i] == '\\' && escapable_c(s[i + 1]) {
        lemma_qs_body(s, i + 2);
        assert(s.subrange(i, b).skip(2) =~= s.subrange(i + 2, b));
        assert(s.subrange(i, b)[0] == '\\');
        assert(s.subrange(i, b).len() >= 2);
        assert forall|m: int| 0 <= m < b - i implies '\0' <= #[trigger] s.subrange(i, b)[m]
            <= '\u{7f}' by {
            assert(s.subrange(i, b)[m] == s[i + m]);
            if m == 0 {
                assert(s[i] == '\\');
                lemma_ascii_char(s[i]);
            } else if m == 1 {
                assert(escapable_c(s[i + 1]));
                lemma_ascii_char(s[i + 1]);
            } else {
                assert(vstd::utf8::is_ascii_chars(s.subrange(i + 2, b)));
                assert(s.subrange(i + 2, b)[m - 2] == s[i + m]);
            }
        }
    } else {
        assert(s.subrange(i, b) =~= Seq::<char>::empty());
    }
}

} // verus!
