//! The line parser: one line of an environment file is a comment, blank,
//! malformed, or a key and a value.

use vstd::prelude::*;
use vstd::utf8::*;
use crate::quote::{literal_value, unescape, unescaped};
use crate::text::{
    blank_between, first_at, is_white_space, lemma_encoding_length, lemma_trimmed,
    lemma_trimmed_margins, lemma_trimmed_properties, trim_bounds, trimmed, white_space,
};

verus! {

/// The key and the raw value of a line of text: the line is trimmed; a line
/// that then starts with `#` or holds no `=` has neither; otherwise the key
/// is what stands before the first `=` and the raw value all that follows it.
pub open spec fn split_text(line: Seq<char>) -> Option<(Seq<char>, Seq<char>)> {
    let t = trimmed(line);
    if t.len() > 0 && t[0] == '#' {
        None
    } else if exists|p: int| first_at(t, '=', p) {
        let p = choose|p: int| first_at(t, '=', p);
        Some((t.subrange(0, p), t.subrange(p + 1, t.len() as int)))
    } else {
        None
    }
}

/// The key and the value of a line of text: its raw value unescaped. A line
/// whose raw value cannot be unescaped has neither.
pub open spec fn parse_text(line: Seq<char>) -> Option<(Seq<char>, Seq<char>)> {
    match split_text(line) {
        Some((key, raw)) => match unescaped(raw) {
            Some(value) => Some((key, value)),
            None => None,
        },
        None => None,
    }
}

/// The key and the value of a line of bytes: those of the text it encodes.
/// Bytes that are not valid UTF-8 have neither.
pub open spec fn parse_bytes(line: Seq<u8>) -> Option<(Seq<char>, Seq<char>)> {
    if valid_utf8(line) {
        parse_text(decode_utf8(line))
    } else {
        None
    }
}

/// The key and the value of a line of bytes whose raw value involves no
/// escape sequence (see `literal_value`); `None` for every other line.
pub open spec fn literal_pair(line: Seq<u8>) -> Option<(Seq<char>, Seq<char>)> {
    if valid_utf8(line) {
        match split_text(decode_utf8(line)) {
            Some((key, raw)) => match literal_value(raw) {
                Some(value) => Some((key, value)),
                None => None,
            },
            None => None,
        }
    } else {
        None
    }
}

/// A key that a line can yield: it holds no `=`, and does not start with
/// white space or `#`.
pub open spec fn line_key(key: Seq<char>) -> bool {
    &&& !key.contains('=')
    &&& key.len() > 0 ==> !is_white_space(key[0]) && key[0] != '#'
}

/// Where `line[a..b]` is the trimmed line, does not start with `#`, and `p`
/// is the first index in it that holds `=`, the line splits there.
pub proof fn lemma_split_at(line: Seq<char>, a: int, b: int, p: int)
    requires
        trim_bounds(line, a, b),
        a <= p < b,
        line[a] != '#',
        line[p] == '=',
        forall|j: int| a <= j < p ==> line[j] != '=',
    ensures
        split_text(line) == Some((line.subrange(a, p), line.subrange(p + 1, b))),
{
    lemma_trimmed(line, a, b);
    let t = trimmed(line);
    assert(first_at(t, '=', p - a));
    let q = choose|q: int| first_at(t, '=', q);
    assert(q == p - a) by {
        if q < p - a {
            assert(t[q] == line[a + q]);
        }
    }
    assert(t.subrange(0, q) =~= line.subrange(a, p));
    assert(t.subrange(q + 1, t.len() as int) =~= line.subrange(p + 1, b));
}

/// Where `line[a..b]` is the trimmed line and holds no `=`, the line does
/// not split.
pub proof fn lemma_no_split(line: Seq<char>, a: int, b: int)
    requires
        trim_bounds(line, a, b),
        forall|j: int| a <= j < b ==> line[j] != '=',
    ensures
        split_text(line) is None,
{
    lemma_trimmed(line, a, b);
    let t = trimmed(line);
    if exists|p: int| first_at(t, '=', p) {
        let p = choose|p: int| first_at(t, '=', p);
        assert(t[p] == line[a + p]);
    }
}

/// A line whose trimmed text is empty or starts with `#` yields no pair.
pub proof fn lemma_comment_or_blank(line: Seq<u8>)
    requires
        trimmed(decode_utf8(line)).len() == 0 || trimmed(decode_utf8(line))[0] == '#',
    ensures
        valid_utf8(line) ==> split_text(decode_utf8(line)) is None,
        parse_bytes(line) is None,
{
    let t = trimmed(decode_utf8(line));
    if t.len() == 0 {
        assert(!exists|p: int| first_at(t, '=', p));
    }
}

/// Bytes that are not valid UTF-8 yield no pair, and neither does a line
/// without `=`.
pub proof fn lemma_malformed(line: Seq<u8>)
    requires
        !valid_utf8(line) || !trimmed(decode_utf8(line)).contains('='),
    ensures
        parse_bytes(line) is None,
{
    if valid_utf8(line) {
        let t = trimmed(decode_utf8(line));
        if exists|p: int| first_at(t, '=', p) {
            let p = choose|p: int| first_at(t, '=', p);
            assert(t.contains('='));
        }
    }
}

/// The key of a line holds no `=` and does not start with white space or
/// `#`; the raw value is all that follows the first `=` of the trimmed line,
/// further `=` included.
pub proof fn lemma_split_text_parts(line: Seq<char>)
    requires
        split_text(line) is Some,
    ensures
        ({
            let (key, raw) = split_text(line).unwrap();
            &&& line_key(key)
            &&& trimmed(line) == key + seq!['='] + raw
        }),
{
    lemma_trimmed_properties(line);
    let t = trimmed(line);
    let p = choose|p: int| first_at(t, '=', p);
    let (key, raw) = split_text(line).unwrap();
    assert(t =~= key + seq!['='] + raw);
    if key.contains('=') {
        let j = choose|j: int| 0 <= j < key.len() && key[j] == '=';
        assert(t[j] == '=');
    }
    if key.len() > 0 {
        assert(key[0] == t[0]);
    }
}

/// White space before and after a line does not change what the line
/// yields.
pub proof fn lemma_margins_ignored(before: Seq<char>, line: Seq<char>, after: Seq<char>)
    requires
        blank_between(before, 0, before.len() as int),
        blank_between(after, 0, after.len() as int),
    ensures
        split_text(before + line + after) == split_text(line),
        parse_text(before + line + after) == parse_text(line),
{
    lemma_trimmed_margins(before, line, after);
}

/// A trimmed line that ends in its first `=` has an empty value, not none:
/// its literal pair is what stands before the `=` with the empty text, and
/// `parse_line` gives the literal pair of every line that has one.
pub proof fn lemma_empty_value(line: Seq<u8>, key: Seq<char>)
    requires
        valid_utf8(line),
        trimmed(decode_utf8(line)) == key + seq!['='],
        line_key(key),
    ensures
        literal_pair(line) == Some((key, Seq::<char>::empty())),
{
    let text = decode_utf8(line);
    let t = trimmed(text);
    let n = key.len() as int;
    assert(first_at(t, '=', n));
    let q = choose|q: int| first_at(t, '=', q);
    assert(q == n) by {
        if q < n {
            assert(t[q] == key[q]);
        }
    }
    assert(t.subrange(0, n) =~= key);
    assert(t.subrange(n + 1, t.len() as int) =~= Seq::<char>::empty());
    assert(!Seq::<char>::empty().contains('\''));
    assert(!Seq::<char>::empty().contains('"'));
}

/// Splits a line of text into its key and its raw value.
pub fn split_line(line: &str) -> (r: Option<(&str, &str)>)
    ensures
        match r {
            Some((key, raw)) => split_text(line@) == Some((key@, raw@)),
            None => split_text(line@) is None,
        },
{
    let size = line.as_bytes().len();
    proof {
        lemma_encoding_length(line@);
    }
    let mut found = false;
    let mut comment = false;
    let mut start: usize = 0;
    let mut end: usize = 0;
    let mut equals: Option<usize> = None;
    let mut n: usize = 0;
    for c in iter: line.chars()
        invariant
            iter.seq() == line@,
            line@.len() <= size,
            n == iter.index(),
            !found ==> start == 0 && end == 0 && blank_between(line@, 0, n as int),
            found ==> start < end <= n && blank_between(line@, 0, start as int) && blank_between(
                line@,
                end as int,
                n as int,
            ) && !is_white_space(line@[start as int]) && !is_white_space(line@[end - 1])
                && comment == (line@[start as int] == '#'),
            match equals {
                Some(p) => first_at(line@, '=', p as int) && p < n,
                None => forall|j: int| 0 <= j < n ==> line@[j] != '=',
            },
    {
        assert(c == line@[n as int]);
        if !white_space(c) {
            if !found {
                found = true;
                comment = c == '#';
                start = n;
            }
            end = n + 1;
        }
        if equals.is_none() && c == '=' {
            equals = Some(n);
        }
        n = n + 1;
    }
    if !found {
        proof {
            assert(trim_bounds(line@, 0, 0));
            lemma_no_split(line@, 0, 0);
        }
        return None;
    }
    assert(trim_bounds(line@, start as int, end as int));
    if comment {
        proof {
            lemma_trimmed(line@, start as int, end as int);
        }
        return None;
    }
    match equals {
        None => {
            proof {
                lemma_no_split(line@, start as int, end as int);
            }
            None
        },
        Some(p) => {
            proof {
                assert(start <= p) by {
                    if p < start {
                        assert(is_white_space(line@[p as int]));
                    }
                }
                assert(p < end) by {
                    if p >= end {
                        assert(is_white_space(line@[p as int]));
                    }
                }
                lemma_split_at(line@, start as int, end as int, p as int);
            }
            Some((line.substring_char(start, p), line.substring_char(p + 1, end)))
        },
    }
}

/// Parses one line of an environment file: the bytes between two newlines.
///
/// A comment, a blank line, a line without `=`, bytes that are no UTF-8 text
/// and a value that cannot be unescaped all give `None`.
pub fn parse_line(entry: &[u8]) -> (r: Option<(String, String)>)
    ensures
        match r {
            Some((key, value)) => parse_bytes(entry@) == Some((key@, value@)),
            None => parse_bytes(entry@) is None,
        },
        literal_pair(entry@) is Some ==> parse_bytes(entry@) == literal_pair(entry@),
{
    match core::str::from_utf8(entry) {
        Err(_) => None,
        Ok(line) => {
            proof {
                decode_of_bytes(line@, entry@);
            }
            match split_line(line) {
                None => None,
                Some((key, raw)) => match unescape(raw) {
                    Ok(value) => Some((key.to_owned(), value)),
                    Err(_) => None,
                },
            }
        },
    }
}

/// Bytes that encode a text decode to it.
proof fn decode_of_bytes(text: Seq<char>, bytes: Seq<u8>)
    requires
        encode_utf8(text) == bytes,
    ensures
        decode_utf8(bytes) == text,
{
    encode_utf8_decode_utf8(text);
}

} // verus!
