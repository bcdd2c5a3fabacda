use envfile::order::{compare_bytes, compare_keys, Rank};
use envfile::text::white_space;

#[test]
fn white_space_is_what_std_calls_white_space() {
    for code in 0..=0x10ffffu32 {
        if let Some(c) = char::from_u32(code) {
            assert_eq!(white_space(c), c.is_whitespace(), "U+{:04X}", code);
        }
    }
}

#[test]
fn white_space_characters() {
    for c in ['\t', '\n', '\u{b}', '\u{c}', '\r', ' ', '\u{85}', '\u{a0}', '\u{1680}', '\u{2000}',
        '\u{200a}', '\u{2028}', '\u{2029}', '\u{202f}', '\u{205f}', '\u{3000}']
    {
        assert!(white_space(c));
    }
    for c in ['\u{8}', '\u{e}', '=', '#', 'a', '\u{84}', '\u{86}', '\u{180e}', '\u{1fff}',
        '\u{200b}', '\u{2027}', '\u{202a}', '\u{2060}', '\u{2fff}', '\u{3001}', '\u{feff}']
    {
        assert!(!white_space(c));
    }
}

fn rank_of(less: bool, equal: bool) -> Rank {
    if less {
        Rank::Less
    } else if equal {
        Rank::Equal
    } else {
        Rank::Greater
    }
}

#[test]
fn compare_bytes_orders_as_slices_do() {
    let strings: [&[u8]; 12] = [
        b"", b"\x00", b"a", b"a\x00", b"ab", b"abc", b"b", b"B", b"\xff", b"\xff\x00", b"a\xff",
        b"\x7f",
    ];
    for a in strings.iter() {
        for b in strings.iter() {
            assert_eq!(compare_bytes(a, b), rank_of(a < b, a == b));
        }
    }
}

#[test]
fn compare_bytes_examples() {
    assert_eq!(compare_bytes(b"", b""), Rank::Equal);
    assert_eq!(compare_bytes(b"", b"a"), Rank::Less);
    assert_eq!(compare_bytes(b"a", b""), Rank::Greater);
    assert_eq!(compare_bytes(b"abc", b"abd"), Rank::Less);
    assert_eq!(compare_bytes(b"abd", b"abc"), Rank::Greater);
    assert_eq!(compare_bytes(b"ab", b"abc"), Rank::Less);
    assert_eq!(compare_bytes(b"b", b"abc"), Rank::Greater);
    assert_eq!(compare_bytes(b"abc", b"abc"), Rank::Equal);
}

#[test]
fn compare_keys_orders_as_strings_do() {
    let keys = [
        "", "A", "B", "a", "ab", "b", "z", "~", "\u{7f}", "\u{80}", "\u{e9}", "\u{7ff}", "\u{800}",
        "\u{6771}", "\u{ffff}", "\u{10000}", "\u{1f4a9}", "\u{10ffff}", "a\u{e9}", "a\u{0}",
    ];
    for a in keys.iter() {
        for b in keys.iter() {
            assert_eq!(compare_keys(a, b), rank_of(a < b, a == b));
        }
    }
}
