use envfile::line::split_line;
use envfile::parse_line;

fn pair(key: &str, value: &str) -> Option<(String, String)> {
    Some((key.to_string(), value.to_string()))
}

#[test]
fn comment_lines_yield_nothing() {
    assert_eq!(parse_line(b"# comment"), None);
    assert_eq!(parse_line(b"#"), None);
    assert_eq!(parse_line(b"#KEY=VALUE"), None);
    assert_eq!(parse_line(b"   # Should ignore = operator in comment"), None);
    assert_eq!(parse_line(b"\t#=\r"), None);
    assert_eq!(parse_line("\u{a0}#A=1".as_bytes()), None);
}

#[test]
fn blank_lines_yield_nothing() {
    assert_eq!(parse_line(b""), None);
    assert_eq!(parse_line(b" "), None);
    assert_eq!(parse_line(b" \t \r"), None);
    assert_eq!(parse_line("\u{a0}\u{2003}\u{3000}".as_bytes()), None);
}

#[test]
fn the_first_equals_splits() {
    assert_eq!(
        parse_line(b"RECOVERY_UUID=PARTUUID=asdfasd7asdf7sad-asdfa"),
        pair("RECOVERY_UUID", "PARTUUID=asdfasd7asdf7sad-asdfa")
    );
    assert_eq!(parse_line(b"A=="), pair("A", "="));
    assert_eq!(parse_line(b"=A=B"), pair("", "A=B"));
}

#[test]
fn leading_white_space_is_dropped() {
    assert_eq!(parse_line(b" LANG=en_US.UTF-8"), pair("LANG", "en_US.UTF-8"));
    assert_eq!(parse_line(b"\t  LANG=en_US.UTF-8  \r"), pair("LANG", "en_US.UTF-8"));
    assert_eq!(parse_line("\u{2003}LANG=C\u{3000}".as_bytes()), pair("LANG", "C"));
}

#[test]
fn white_space_inside_the_line_stays() {
    assert_eq!(parse_line(b"KEY = value"), pair("KEY ", " value"));
    assert_eq!(parse_line(b"A B=C D"), pair("A B", "C D"));
    assert_eq!(parse_line(b"A\nB=1"), pair("A\nB", "1"));
}

#[test]
fn double_quotes_are_stripped() {
    assert_eq!(
        parse_line(b"DOUBLE_QUOTED_STRING=\"This is a 'double-quoted' string\""),
        pair("DOUBLE_QUOTED_STRING", "This is a 'double-quoted' string")
    );
    assert_eq!(parse_line(b"A=\"\""), pair("A", ""));
}

#[test]
fn single_quotes_are_stripped() {
    assert_eq!(
        parse_line(b"SINGLE_QUOTED_STRING='This is a single-quoted string'"),
        pair("SINGLE_QUOTED_STRING", "This is a single-quoted string")
    );
    assert_eq!(parse_line(b"A='say \"hi\" \\n'"), pair("A", "say \"hi\" \\n"));
}

#[test]
fn escapes_are_decoded_between_double_quotes() {
    assert_eq!(parse_line(b"A=\"a\\tb\\n\\\\ \\\" \\u{e9}\""), pair("A", "a\tb\n\\ \" \u{e9}"));
    assert_eq!(parse_line(b"A=a\\tb"), pair("A", "a\\tb"));
}

#[test]
fn quoting_styles_may_be_mixed() {
    assert_eq!(
        parse_line(b"A='some spaces'_some_unquoted_\"and a \\t tab\""),
        pair("A", "some spaces_some_unquoted_and a \t tab")
    );
}

#[test]
fn an_empty_value_is_a_value() {
    assert_eq!(parse_line(b"KBD_MODEL="), pair("KBD_MODEL", ""));
    assert_eq!(parse_line(b"  KBD_MODEL=  "), pair("KBD_MODEL", ""));
    assert_eq!(parse_line(b"="), pair("", ""));
}

#[test]
fn a_line_without_equals_yields_nothing() {
    assert_eq!(parse_line(b"HOSTNAME"), None);
    assert_eq!(parse_line(b"two words"), None);
    assert_eq!(parse_line(b"'A=1"), pair("'A", "1"));
}

#[test]
fn bytes_that_are_not_text_yield_nothing() {
    assert_eq!(parse_line(b"KEY=\xff"), None);
    assert_eq!(parse_line(b"\x80KEY=1"), None);
    assert_eq!(parse_line(b"KEY=\xe6\x9d"), None);
    assert_eq!(parse_line(b"KEY=\xed\xa0\x80"), None);
    assert_eq!(parse_line(b"KEY=\xe6\x9d\xb1"), pair("KEY", "\u{6771}"));
}

#[test]
fn a_bad_escape_yields_nothing() {
    assert_eq!(parse_line(b"A=\"\\x\""), None);
    assert_eq!(parse_line(b"A=\"\\u6771}\""), None);
    assert_eq!(parse_line(b"A=\"\\u{qqqq}\""), None);
    assert_eq!(parse_line(b"A=\"\\u{ffffffff}\""), None);
    assert_eq!(parse_line(b"A=\"\\"), None);
}

#[test]
fn split_line_keeps_the_value_raw() {
    assert_eq!(split_line("A='x y'"), Some(("A", "'x y'")));
    assert_eq!(split_line("  A=\"\\x\"  "), Some(("A", "\"\\x\"")));
    assert_eq!(split_line("A=B=C"), Some(("A", "B=C")));
    assert_eq!(split_line("A="), Some(("A", "")));
    assert_eq!(split_line("=A"), Some(("", "A")));
    assert_eq!(split_line("\u{e9}\u{6771} = \u{1f4a9} "), Some(("\u{e9}\u{6771} ", " \u{1f4a9}")));
    assert_eq!(split_line("# A=1"), None);
    assert_eq!(split_line(""), None);
    assert_eq!(split_line("   "), None);
    assert_eq!(split_line("A"), None);
}

#[test]
fn split_line_trims_as_std_does() {
    let blanks = [
        "", " ", "\t", "\n", "\u{b}", "\u{c}", "\r", "\u{85}", "\u{a0}", "\u{1680}", "\u{2000}",
        "\u{2005}", "\u{200a}", "\u{2028}", "\u{2029}", "\u{202f}", "\u{205f}", "\u{3000}",
        "\u{200b}", "\u{180e}", "\u{feff}", "\u{1c}", "\u{1f}", "x",
    ];
    for before in blanks.iter() {
        for after in blanks.iter() {
            let line = format!("{}KEY=some value{}", before, after);
            let trimmed = line.trim();
            let (key, raw) = split_line(&line).unwrap();
            assert_eq!(format!("{}={}", key, raw), trimmed);
            assert!(!key.contains('='));
        }
    }
}
