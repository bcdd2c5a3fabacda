use envfile::env_file::write_entry;
use envfile::EnvFile;
use std::collections::BTreeMap;
use std::path::PathBuf;

const SAMPLE: &str = r#"DOUBLE_QUOTED_STRING="This is a 'double-quoted' string"
EFI_UUID=DFFD-D047
HOSTNAME=pop-testing
KBD_LAYOUT=us
KBD_MODEL=
KBD_VARIANT=
 LANG=en_US.UTF-8
OEM_MODE=0
# Intentional blank line

# Should ignore = operator in comment
RECOVERY_UUID=PARTUUID=asdfasd7asdf7sad-asdfa
ROOT_UUID=2ef950c2-5ce6-4ae0-9fb9-a8c7468fa82c
SINGLE_QUOTED_STRING='This is a single-quoted string'
"#;

const SAMPLE_CLEANED: &str = r#"DOUBLE_QUOTED_STRING="This is a 'double-quoted' string"
EFI_UUID=DFFD-D047
HOSTNAME=pop-testing
KBD_LAYOUT=us
KBD_MODEL=
KBD_VARIANT=
LANG=en_US.UTF-8
OEM_MODE=0
RECOVERY_UUID=PARTUUID=asdfasd7asdf7sad-asdfa
ROOT_UUID=2ef950c2-5ce6-4ae0-9fb9-a8c7468fa82c
SINGLE_QUOTED_STRING='This is a single-quoted string'
"#;

fn sample_path() -> PathBuf {
    PathBuf::from("distinst_test").join("recovery.conf")
}

fn read(text: &str) -> EnvFile {
    EnvFile::new(sample_path(), text.as_bytes())
}

fn as_map(env: &EnvFile) -> BTreeMap<String, String> {
    env.store.entries().iter().cloned().collect()
}

fn keys(env: &EnvFile) -> Vec<String> {
    env.store.entries().iter().map(|entry| entry.0.clone()).collect()
}

#[test]
fn env_file_read() {
    let path = &sample_path();

    let env = EnvFile::new(path.clone(), SAMPLE.as_bytes());
    assert_eq!(&as_map(&env), &{
        let mut map = BTreeMap::new();
        map.insert("HOSTNAME".into(), "pop-testing".into());
        map.insert("LANG".into(), "en_US.UTF-8".into());
        map.insert("KBD_LAYOUT".into(), "us".into());
        map.insert("KBD_MODEL".into(), "".into());
        map.insert("KBD_VARIANT".into(), "".into());
        map.insert("EFI_UUID".into(), "DFFD-D047".into());
        map.insert("RECOVERY_UUID".into(), "PARTUUID=asdfasd7asdf7sad-asdfa".into());
        map.insert("ROOT_UUID".into(), "2ef950c2-5ce6-4ae0-9fb9-a8c7468fa82c".into());
        map.insert("OEM_MODE".into(), "0".into());
        map.insert("DOUBLE_QUOTED_STRING".into(), "This is a 'double-quoted' string".into());
        map.insert("SINGLE_QUOTED_STRING".into(), "This is a single-quoted string".into());
        map
    });
}

#[test]
fn env_file_write() {
    let path = &sample_path();

    let env = EnvFile::new(path.clone(), SAMPLE.as_bytes());
    let written = env.write();
    let copy: &[u8] = &written;

    assert_eq!(
        copy,
        SAMPLE_CLEANED.as_bytes(),
        "Expected '{}' == '{}'",
        String::from_utf8_lossy(copy),
        SAMPLE_CLEANED
    );
}

#[test]
fn new_keeps_the_path() {
    let env = read("A=1\n");
    assert_eq!(env.path, sample_path());
}

#[test]
fn end_to_end() {
    let mut env = read("EFI_UUID=DFFD-D047\n# comment\n\nHOSTNAME=pop-testing\nKBD_MODEL=\n");
    assert_eq!(env.store.len(), 3);
    assert_eq!(env.get("EFI_UUID"), Some("DFFD-D047"));
    assert_eq!(env.get("HOSTNAME"), Some("pop-testing"));
    assert_eq!(env.get("KBD_MODEL"), Some(""));

    env.update("ID", "example");
    assert_eq!(env.get("ID"), Some("example"));

    let written = env.write();
    assert_eq!(
        written,
        b"EFI_UUID=DFFD-D047\nHOSTNAME=pop-testing\nID=example\nKBD_MODEL=\n".to_vec()
    );

    let again = EnvFile::new(sample_path(), &written);
    assert_eq!(again.store.len(), 4);
    assert_eq!(keys(&again), vec!["EFI_UUID", "HOSTNAME", "ID", "KBD_MODEL"]);
    assert_eq!(as_map(&again), as_map(&env));
}

#[test]
fn later_line_wins() {
    let env = read("A=first\nB=other\nA=second\n");
    assert_eq!(env.get("A"), Some("second"));
    assert_eq!(env.get("B"), Some("other"));
    assert_eq!(env.store.len(), 2);
}

#[test]
fn later_line_wins_over_three() {
    let env = read("A=1\nA=2\n# A=commented\nA=3\nA\n");
    assert_eq!(env.get("A"), Some("3"));
    assert_eq!(env.store.len(), 1);
}

#[test]
fn empty_value_is_read_back() {
    let env = read("KBD_MODEL=\n");
    assert_eq!(env.get("KBD_MODEL"), Some(""));
    let written = env.write();
    assert_eq!(written, b"KBD_MODEL=\n".to_vec());
    let again = EnvFile::new(sample_path(), &written);
    assert_eq!(again.get("KBD_MODEL"), Some(""));
}

#[test]
fn quoted_value_is_read_back() {
    let env = read("DOUBLE_QUOTED_STRING=\"This is a 'double-quoted' string\"\n");
    assert_eq!(env.get("DOUBLE_QUOTED_STRING"), Some("This is a 'double-quoted' string"));
    let again = EnvFile::new(sample_path(), &env.write());
    assert_eq!(again.get("DOUBLE_QUOTED_STRING"), Some("This is a 'double-quoted' string"));
    assert_eq!(as_map(&again), as_map(&env));
}

#[test]
fn written_file_has_sorted_lines_only() {
    let env = read("b=2\n# comment\n\nc=3\n  a=1\nnot a pair\n");
    let written = env.write();
    assert_eq!(written, b"a=1\nb=2\nc=3\n".to_vec());
    let again = EnvFile::new(sample_path(), &written);
    assert_eq!(keys(&again), vec!["a", "b", "c"]);
    assert_eq!(as_map(&again), as_map(&env));
}

#[test]
fn keys_are_sorted_by_their_bytes() {
    let env = read("b=1\nB=2\n\u{e9}=3\nz=4\n_=5\n1=6\nab=7\na=8\n");
    assert_eq!(keys(&env), vec!["1", "B", "_", "a", "ab", "b", "z", "\u{e9}"]);
}

#[test]
fn values_are_quoted_only_where_needed() {
    let mut env = read("");
    env.update("A", "plain");
    env.update("B", "two words");
    env.update("C", "it's");
    env.update("D", "tab\there");
    env.update("E", "");
    env.update("F", "a=b");
    assert_eq!(
        String::from_utf8(env.write()).unwrap(),
        "A=plain\nB='two words'\nC=\"it's\"\nD=\"tab\\there\"\nE=\nF=a=b\n"
    );
}

#[test]
fn awkward_values_are_read_back() {
    let values = [
        "",
        " ",
        "  two  ",
        "new\nline",
        "carriage\rreturn",
        "tab\t",
        "\"",
        "'",
        "\\",
        "\\n",
        "a\\\"b'c",
        "$HOME `pwd`",
        "#comment",
        "=",
        "\u{a0}",
        "\u{2028}\u{2029}",
        "\u{3000}wide\u{3000}",
        "\u{0}\u{7}\u{8}\u{b}\u{c}\u{1b}\u{7f}",
        "\u{85}",
        "\u{feff}",
        "\u{e9}\u{6771}\u{65b9}\u{1f4a9}",
        "{}\\u{41}",
    ];
    let mut env = read("");
    for (i, value) in values.iter().enumerate() {
        env.update(&format!("KEY_{:02}", i), value);
    }
    let written = env.write();
    let again = EnvFile::new(sample_path(), &written);
    assert_eq!(again.store.len(), values.len());
    for (i, value) in values.iter().enumerate() {
        assert_eq!(again.get(&format!("KEY_{:02}", i)), Some(*value));
    }
    assert_eq!(as_map(&again), as_map(&env));
    assert_eq!(again.write(), written);
    for line in written.split(|&b| b == b'\n') {
        let line = std::str::from_utf8(line).unwrap();
        assert_eq!(line.trim(), line);
    }
}

#[test]
fn a_key_with_equals_is_not_read_back() {
    let mut env = read("");
    env.update("A=B", "x");
    assert_eq!(env.get("A=B"), Some("x"));
    let again = EnvFile::new(sample_path(), &env.write());
    assert_eq!(again.get("A=B"), None);
    assert_eq!(again.get("A"), Some("B=x"));
}

#[test]
fn update_overwrites() {
    let mut env = read("A=1\nB=2\n");
    env.update("A", "one");
    assert_eq!(env.get("A"), Some("one"));
    assert_eq!(env.get("B"), Some("2"));
    assert_eq!(env.store.len(), 2);
    assert_eq!(env.path, sample_path());
}

#[test]
fn get_of_an_absent_key() {
    let env = read("A=1\n");
    assert_eq!(env.get("B"), None);
    assert_eq!(env.get("a"), None);
    assert_eq!(env.get(""), None);
}

#[test]
fn empty_file() {
    let env = read("");
    assert_eq!(env.store.len(), 0);
    assert_eq!(env.write(), Vec::<u8>::new());
}

#[test]
fn file_without_final_newline() {
    let env = read("A=1\nB=2");
    assert_eq!(env.get("A"), Some("1"));
    assert_eq!(env.get("B"), Some("2"));
    assert_eq!(env.write(), b"A=1\nB=2\n".to_vec());
}

#[test]
fn carriage_returns_are_trimmed() {
    let env = read("A=1\r\nB=two words\r\n\r\n");
    assert_eq!(env.get("A"), Some("1"));
    assert_eq!(env.get("B"), Some("two words"));
    assert_eq!(env.store.len(), 2);
}

#[test]
fn lines_that_are_not_text_are_skipped() {
    let env = EnvFile::new(sample_path(), b"A=1\nB=\xff\xfe\nC=3\n\xc3=4\n");
    assert_eq!(env.get("A"), Some("1"));
    assert_eq!(env.get("B"), None);
    assert_eq!(env.get("C"), Some("3"));
    assert_eq!(env.store.len(), 2);
}

#[test]
fn lines_with_a_bad_escape_are_skipped() {
    let env = read("A=\"\\x\"\nB=\"\\u{110000}\"\nC=\"\\t\"\nD=\"\\\n");
    assert_eq!(env.get("A"), None);
    assert_eq!(env.get("B"), None);
    assert_eq!(env.get("C"), Some("\t"));
    assert_eq!(env.get("D"), None);
    assert_eq!(env.store.len(), 1);
}

#[test]
fn a_quoted_newline_does_not_join_lines() {
    let env = read("A='one\nB=two'\n");
    assert_eq!(env.get("A"), Some("one"));
    assert_eq!(env.get("B"), Some("two"));
}

#[test]
fn write_entry_appends_one_line() {
    let mut buffer = b"A=1\n".to_vec();
    write_entry(&mut buffer, "KEY", "'some text'");
    assert_eq!(buffer, b"A=1\nKEY='some text'\n".to_vec());
    write_entry(&mut buffer, "\u{e9}", "");
    assert_eq!(buffer, "A=1\nKEY='some text'\n\u{e9}=\n".as_bytes().to_vec());
}
