//! Byte classifier: maps each byte to a bitmask of grammar character
//! classes. The classes come from RFC 7235's imported ABNF (RFC 7230
//! section 3.2.6 `tchar`, `qdtext`, quoted-pair escapables, OWS) and
//! RFC 5987 section 3.2.1 `attr-char`.

use vstd::prelude::*;

verus! {

/// Bit for RFC 7230 `tchar` (token characters).
pub const C_TCHAR: u8 = 1;

/// Bit for RFC 7230 `qdtext` (raw text legal inside a quoted-string).
pub const C_QDTEXT: u8 = 2;

/// Bit for the bytes a backslash may escape inside a quoted-string.
pub const C_ESCAPABLE: u8 = 4;

/// Bit for RFC 7230 optional whitespace (space and horizontal tab).
pub const C_OWS: u8 = 8;

/// Bit for RFC 5987 `attr-char`.
pub const C_ATTR: u8 = 16;

/// RFC 7230 `tchar`: `!#$%&'*+-.^_`|~`, digits, ASCII letters.
pub open spec fn spec_tchar(b: u8) -> bool {
    ||| b == 0x21  // !
    ||| 0x23 <= b <= 0x27  // # $ % & '
    ||| b == 0x2A  // *
    ||| b == 0x2B  // +
    ||| b == 0x2D  // -
    ||| b == 0x2E  // .
    ||| 0x30 <= b <= 0x39  // digits
    ||| 0x41 <= b <= 0x5A  // A-Z
    ||| b == 0x5E  // ^
    ||| b == 0x5F  // _
    ||| b == 0x60  // `
    ||| 0x61 <= b <= 0x7A  // a-z
    ||| b == 0x7C  // |
    ||| b == 0x7E  // ~
}

/// RFC 7230 `qdtext` (without `obs-text`): HTAB, SP, 0x21, 0x23-0x5B,
/// 0x5D-0x7E. Excludes the double quote (0x22) and the backslash (0x5C).
pub open spec fn spec_qdtext(b: u8) -> bool {
    ||| b == 0x09
    ||| b == 0x20
    ||| b == 0x21
    ||| 0x23 <= b <= 0x5B
    ||| 0x5D <= b <= 0x7E
}

/// The bytes a backslash may precede in a quoted-pair: HTAB, SP, every
/// visible ASCII character, and the high range 0x80-0xFF (`obs-text`).
pub open spec fn spec_escapable(b: u8) -> bool {
    ||| b == 0x09
    ||| b == 0x20
    ||| 0x21 <= b <= 0x7E
    ||| 0x80 <= b
}

/// RFC 7230 optional whitespace: space and horizontal tab.
pub open spec fn spec_ows(b: u8) -> bool {
    b == 0x20 || b == 0x09
}

/// RFC 5987 `attr-char`: letters, digits, and `!#$&+-.^_`|~`
/// (a token character other than `*`, `'`, `%`).
pub open spec fn spec_attr(b: u8) -> bool {
    ||| b == 0x21  // !
    ||| b == 0x23  // #
    ||| b == 0x24  // $
    ||| b == 0x26  // &
    ||| b == 0x2B  // +
    ||| b == 0x2D  // -
    ||| b == 0x2E  // .
    ||| 0x30 <= b <= 0x39
    ||| 0x41 <= b <= 0x5A
    ||| b == 0x5E  // ^
    ||| b == 0x5F  // _
    ||| b == 0x60  // `
    ||| 0x61 <= b <= 0x7A
    ||| b == 0x7C  // |
    ||| b == 0x7E  // ~
}

/// The classifier as a mathematical function: the bitmask of every class
/// the byte belongs to. The class bits are distinct powers of two, so the
/// union of the set bits equals their sum.
pub open spec fn spec_classes(b: u8) -> u8 {
    ((if spec_tchar(b) {
        C_TCHAR
    } else {
        0
    }) + (if spec_qdtext(b) {
        C_QDTEXT
    } else {
        0
    }) + (if spec_escapable(b) {
        C_ESCAPABLE
    } else {
        0
    }) + (if spec_ows(b) {
        C_OWS
    } else {
        0
    }) + (if spec_attr(b) {
        C_ATTR
    } else {
        0
    })) as u8
}

/// Returns whether `b` is an RFC 7230 `tchar`.
pub fn is_tchar(b: u8) -> (r: bool)
    ensures
        r == spec_tchar(b),
{
    b == 0x21 || (0x23 <= b && b <= 0x27) || b == 0x2A || b == 0x2B || b == 0x2D || b == 0x2E || (
    0x30 <= b && b <= 0x39) || (0x41 <= b && b <= 0x5A) || b == 0x5E || b == 0x5F || b == 0x60 || (
    0x61 <= b && b <= 0x7A) || b == 0x7C || b == 0x7E
}

/// Returns whether `b` is an RFC 7230 `qdtext` byte.
pub fn is_qdtext(b: u8) -> (r: bool)
    ensures
        r == spec_qdtext(b),
{
    b == 0x09 || b == 0x20 || b == 0x21 || (0x23 <= b && b <= 0x5B) || (0x5D <= b && b <= 0x7E)
}

/// Returns whether a backslash may escape `b` inside a quoted-string.
pub fn is_escapable(b: u8) -> (r: bool)
    ensures
        r == spec_escapable(b),
{
    b == 0x09 || b == 0x20 || (0x21 <= b && b <= 0x7E) || 0x80 <= b
}

/// Returns whether `b` is optional whitespace (space or horizontal tab).
pub fn is_ows(b: u8) -> (r: bool)
    ensures
        r == spec_ows(b),
{
    b == 0x20 || b == 0x09
}

/// Returns whether `b` is an RFC 5987 `attr-char`.
pub fn is_attr(b: u8) -> (r: bool)
    ensures
        r == spec_attr(b),
{
    b == 0x21 || b == 0x23 || b == 0x24 || b == 0x26 || b == 0x2B || b == 0x2D || b == 0x2E || (0x30
        <= b && b <= 0x39) || (0x41 <= b && b <= 0x5A) || b == 0x5E || b == 0x5F || b == 0x60 || (
    0x61 <= b && b <= 0x7A) || b == 0x7C || b == 0x7E
}

/// Returns the bitmask of `C_*` values giving the character classes of `b`,
/// for the full byte range.
pub fn char_classes(b: u8) -> (r: u8)
    ensures
        r == spec_classes(b),
{
    let mut classes: u8 = 0;
    if is_tchar(b) {
        classes = classes + C_TCHAR;
    }
    if is_qdtext(b) {
        classes = classes + C_QDTEXT;
    }
    if is_escapable(b) {
        classes = classes + C_ESCAPABLE;
    }
    if is_ows(b) {
        classes = classes + C_OWS;
    }
    if is_attr(b) {
        classes = classes + C_ATTR;
    }
    classes
}

/// Builds the 128-entry lookup table over the ASCII range, entry `i`
/// holding the class bitmask of byte `i`.
pub fn build_table() -> (t: Vec<u8>)
    ensures
        t@.len() == 128,
        forall|i: int| 0 <= i < 128 ==> t@[i] == spec_classes(i as u8),
{
    let mut t: Vec<u8> = Vec::new();
    let mut i: usize = 0;
    while i < 128
        invariant
            i <= 128,
            t@.len() == i,
            forall|j: int| 0 <= j < i ==> t@[j] == spec_classes(j as u8),
        decreases 128 - i,
    {
        t.push(char_classes(i as u8));
        i = i + 1;
    }
    t
}

/// The structural subset relations the grammar assumes of the classifier,
/// for every byte: every token character and every whitespace byte is
/// legal raw quoted-string text, and every such byte may be escaped.
pub proof fn lemma_class_subsets(b: u8)
    ensures
        spec_tchar(b) ==> spec_qdtext(b),
        spec_ows(b) ==> spec_qdtext(b),
        spec_qdtext(b) ==> spec_escapable(b),
        spec_attr(b) ==> spec_tchar(b),
{
}

} // verus!
