//! Tests of the byte classifier.

use http_auth::table::{
    build_table, char_classes, is_attr, is_escapable, is_ows, is_qdtext, is_tchar, C_ATTR,
    C_ESCAPABLE, C_OWS, C_QDTEXT, C_TCHAR,
};

/// Prints the character classes of all ASCII bytes from the table and
/// checks the structural subset relations on them.
#[test]
fn table() {
    // Print the table to allow human inspection.
    println!("oct  dec  hex   char      tchar  qdtext  escapable  ows  attr");
    for b in 0..128u8 {
        let classes = char_classes(b);
        let if_class =
            |class: u8, label: &'static str| if (classes & class) != 0 { label } else { "" };
        println!(
            "{:03o}  {:>3}  0x{:02x}  {:8}  {:5}  {:6}  {:9}  {:3}  {:4}",
            b,
            b,
            b,
            format!("{:?}", char::from(b)),
            if_class(C_TCHAR, "tchar"),
            if_class(C_QDTEXT, "qdtext"),
            if_class(C_ESCAPABLE, "escapable"),
            if_class(C_OWS, "ows"),
            if_class(C_ATTR, "attr")
        );

        // Do basic sanity checks: all tchar and ows should be qdtext; all
        // qdtext should be escapable.
        assert!(classes & (C_TCHAR | C_QDTEXT) != C_TCHAR);
        assert!(classes & (C_OWS | C_QDTEXT) != C_OWS);
        assert!(classes & (C_QDTEXT | C_ESCAPABLE) != C_QDTEXT);
    }
}

/// The subset relations hold over the whole byte range, high bytes
/// included.
#[test]
fn class_subsets_all_bytes() {
    for b in 0..=255u8 {
        if is_tchar(b) {
            assert!(is_qdtext(b), "tchar {} not qdtext", b);
        }
        if is_ows(b) {
            assert!(is_qdtext(b), "ows {} not qdtext", b);
        }
        if is_qdtext(b) {
            assert!(is_escapable(b), "qdtext {} not escapable", b);
        }
        if is_attr(b) {
            assert!(is_tchar(b), "attr {} not tchar", b);
        }
    }
}

/// Spot checks of each class, including the high range: bytes at and
/// above 0x80 are escapable and nothing else.
#[test]
fn class_membership() {
    for b in [b'!', b'#', b'0', b'9', b'a', b'z', b'A', b'Z', b'~', b'|', b'^'] {
        assert!(is_tchar(b));
    }
    for b in [b' ', b'\t', b',', b'"', b'\\', b'=', b'@', 0x7Fu8, 0x00u8] {
        assert!(!is_tchar(b));
    }
    assert!(is_ows(b' ') && is_ows(b'\t') && !is_ows(b'\n') && !is_ows(b'a'));
    assert!(is_qdtext(b' ') && is_qdtext(b'!') && is_qdtext(b','));
    assert!(!is_qdtext(b'"') && !is_qdtext(b'\\') && !is_qdtext(0x7F));
    assert!(is_escapable(b'"') && is_escapable(b'\\') && is_escapable(b' '));
    for b in 0x80..=0xFFu16 {
        let b = b as u8;
        assert!(is_escapable(b));
        assert!(!is_tchar(b) && !is_qdtext(b) && !is_ows(b) && !is_attr(b));
        assert_eq!(char_classes(b), C_ESCAPABLE);
    }
    assert!(is_attr(b'a') && is_attr(b'0') && is_attr(b'!'));
    assert!(!is_attr(b'*') && !is_attr(b'\'') && !is_attr(b'%'));
}

/// The precomputed table agrees with the classifier entry by entry.
#[test]
fn table_matches_classifier() {
    let t = build_table();
    assert_eq!(t.len(), 128);
    for b in 0..128u8 {
        assert_eq!(t[b as usize], char_classes(b));
    }
}
