//! The file format: how the bytes of a file are read as a map, how a listing
//! is written as bytes, and that reading what was written gives the map back.

use vstd::prelude::*;
use vstd::utf8::*;
use crate::line::{lemma_split_text_parts, line_key, parse_bytes, split_text};
use crate::order::key_lt;
use crate::quote::{escape_round_trips, escaped};
use crate::store::{ascending, has_key, lemma_listing_entry, listing_map, Listing};
use crate::text::{
    first_at, is_white_space, lemma_encode_ascii, lemma_encode_concat, lemma_encoding_has_byte,
    lemma_encoding_lacks_byte, lemma_first_exists, lemma_trimmed, lemma_trimmed_properties,
    lemma_trimmed_within, trim_bounds, trimmed,
};

verus! {

/// The byte that ends a line.
pub const NEWLINE: u8 = 0x0a;

/// The byte that parts a key from its value.
pub const EQUALS: u8 = 0x3d;

/// The lines of a file: the stretches of bytes between its newlines. A file
/// that ends in a newline has an empty last line.
pub open spec fn split_lines(data: Seq<u8>) -> Seq<Seq<u8>>
    decreases data.len(),
{
    if exists|p: int| first_at(data, NEWLINE, p) {
        let p = choose|p: int| first_at(data, NEWLINE, p);
        seq![data.subrange(0, p)] + split_lines(data.subrange(p + 1, data.len() as int))
    } else {
        seq![data]
    }
}

/// The map after one more line: a line that yields a pair gives its key that
/// value, any other line changes nothing.
pub open spec fn apply_line(m: Map<Seq<char>, Seq<char>>, line: Seq<u8>) -> Map<
    Seq<char>,
    Seq<char>,
> {
    match parse_bytes(line) {
        Some((key, value)) => m.insert(key, value),
        None => m,
    }
}

/// The map after the given lines, taken in their order.
pub open spec fn apply_lines(m: Map<Seq<char>, Seq<char>>, lines: Seq<Seq<u8>>) -> Map<
    Seq<char>,
    Seq<char>,
>
    decreases lines.len(),
{
    if lines.len() == 0 {
        m
    } else {
        apply_lines(apply_line(m, lines[0]), lines.drop_first())
    }
}

/// The map that a file holds.
pub open spec fn load(data: Seq<u8>) -> Map<Seq<char>, Seq<char>> {
    apply_lines(Map::empty(), split_lines(data))
}

/// The line yields a pair with the key `key`.
pub open spec fn yields_key(line: Seq<u8>, key: Seq<char>) -> bool {
    parse_bytes(line) matches Some((k, _)) && k == key
}

/// A key that a file can yield: one that a line can yield and that holds no
/// newline.
pub open spec fn file_key(key: Seq<char>) -> bool {
    line_key(key) && !key.contains('\n')
}

/// Every key of the map is one that a file can yield.
pub open spec fn file_keys(m: Map<Seq<char>, Seq<char>>) -> bool {
    forall|k: Seq<char>| m.contains_key(k) ==> file_key(k)
}

/// The bytes of a written line without its newline: the key, `=`, and the
/// value as `text` spells it.
pub open spec fn line_content(key: Seq<char>, text: Seq<char>) -> Seq<u8> {
    encode_utf8(key) + seq![EQUALS] + encode_utf8(text)
}

/// The bytes that a listing is written as: for each pair in turn its key,
/// `=`, its value escaped, and a newline.
pub open spec fn render(l: Listing) -> Seq<u8>
    decreases l.len(),
{
    if l.len() == 0 {
        Seq::empty()
    } else {
        line_content(l[0].0, escaped(l[0].1)) + seq![NEWLINE] + render(l.drop_first())
    }
}

/// The lines that a listing is written as, and the empty line after the last
/// newline.
pub open spec fn rendered_lines(l: Listing) -> Seq<Seq<u8>> {
    Seq::new(
        l.len() + 1,
        |i: int|
            if i < l.len() {
                line_content(l[i].0, escaped(l[i].1))
            } else {
                Seq::empty()
            },
    )
}

/// A key that none of the lines yields is left as it was.
pub proof fn lemma_key_untouched(
    m: Map<Seq<char>, Seq<char>>,
    lines: Seq<Seq<u8>>,
    key: Seq<char>,
)
    requires
        forall|i: int| 0 <= i < lines.len() ==> !yields_key(#[trigger] lines[i], key),
    ensures
        apply_lines(m, lines).contains_key(key) == m.contains_key(key),
        m.contains_key(key) ==> apply_lines(m, lines)[key] == m[key],
    decreases lines.len(),
{
    if lines.len() > 0 {
        let rest = lines.drop_first();
        assert(!yields_key(lines[0], key));
        assert forall|i: int| 0 <= i < rest.len() implies !yields_key(#[trigger] rest[i], key) by {
            assert(rest[i] == lines[i + 1]);
        }
        lemma_key_untouched(apply_line(m, lines[0]), rest, key);
    }
}

/// Where several lines yield the same key, the last of them decides: a key
/// has the value of line `j` if line `j` yields the key and no later line
/// does.
pub proof fn lemma_later_line_wins(m: Map<Seq<char>, Seq<char>>, lines: Seq<Seq<u8>>, j: int)
    requires
        0 <= j < lines.len(),
        parse_bytes(lines[j]) is Some,
        forall|i: int|
            j < i < lines.len() ==> !yields_key(
                #[trigger] lines[i],
                parse_bytes(lines[j]).unwrap().0,
            ),
    ensures
        ({
            let (key, value) = parse_bytes(lines[j]).unwrap();
            apply_lines(m, lines).contains_key(key) && apply_lines(m, lines)[key] == value
        }),
    decreases lines.len(),
{
    let (key, value) = parse_bytes(lines[j]).unwrap();
    let rest = lines.drop_first();
    if j == 0 {
        assert forall|i: int| 0 <= i < rest.len() implies !yields_key(#[trigger] rest[i], key) by {
            assert(rest[i] == lines[i + 1]);
        }
        lemma_key_untouched(m.insert(key, value), rest, key);
    } else {
        assert(rest[j - 1] == lines[j]);
        assert forall|i: int| j - 1 < i < rest.len() implies !yields_key(
            #[trigger] rest[i],
            key,
        ) by {
            assert(rest[i] == lines[i + 1]);
        }
        lemma_later_line_wins(apply_line(m, lines[0]), rest, j - 1);
    }
}

/// A file holds a key exactly if one of its lines yields it.
pub proof fn lemma_load_keys(data: Seq<u8>, key: Seq<char>)
    ensures
        load(data).contains_key(key) <==> exists|i: int|
            0 <= i < split_lines(data).len() && yields_key(#[trigger] split_lines(data)[i], key),
{
    let lines = split_lines(data);
    if exists|i: int| 0 <= i < lines.len() && yields_key(#[trigger] lines[i], key) {
        let j = last_yielding(lines, key, lines.len() as int);
        lemma_later_line_wins(Map::empty(), lines, j);
    } else {
        lemma_key_untouched(Map::empty(), lines, key);
    }
}

/// The last of the first `upto` lines that yields the key.
proof fn last_yielding(lines: Seq<Seq<u8>>, key: Seq<char>, upto: int) -> (j: int)
    requires
        0 <= upto <= lines.len(),
        exists|i: int| 0 <= i < upto && yields_key(#[trigger] lines[i], key),
    ensures
        0 <= j < upto,
        yields_key(lines[j], key),
        forall|i: int| j < i < upto ==> !yields_key(#[trigger] lines[i], key),
    decreases upto,
{
    if yields_key(lines[upto - 1], key) {
        upto - 1
    } else {
        let w = choose|i: int| 0 <= i < upto && yields_key(#[trigger] lines[i], key);
        assert(w < upto - 1);
        last_yielding(lines, key, upto - 1)
    }
}

/// No line of a file holds a newline.
pub proof fn lemma_lines_lack_newline(data: Seq<u8>)
    ensures
        forall|i: int|
            0 <= i < split_lines(data).len() ==> !(#[trigger] split_lines(data)[i]).contains(
                NEWLINE,
            ),
    decreases data.len(),
{
    if exists|p: int| first_at(data, NEWLINE, p) {
        let p = choose|p: int| first_at(data, NEWLINE, p);
        let head = data.subrange(0, p);
        let rest = data.subrange(p + 1, data.len() as int);
        lemma_lines_lack_newline(rest);
        assert(!head.contains(NEWLINE)) by {
            if head.contains(NEWLINE) {
                let j = choose|j: int| 0 <= j < head.len() && head[j] == NEWLINE;
                assert(data[j] == NEWLINE);
            }
        }
        assert forall|i: int| 0 <= i < split_lines(data).len() implies !(#[trigger] split_lines(
            data,
        )[i]).contains(NEWLINE) by {
            if i > 0 {
                assert(split_lines(data)[i] == split_lines(rest)[i - 1]);
            }
        }
    } else {
        assert(!data.contains(NEWLINE)) by {
            if data.contains(NEWLINE) {
                let j = choose|j: int| 0 <= j < data.len() && data[j] == NEWLINE;
                lemma_first_exists(data, NEWLINE, j);
            }
        }
    }
}

/// A line without a newline yields, if anything, a key that a file can yield.
pub proof fn lemma_line_gives_file_key(line: Seq<u8>)
    requires
        !line.contains(NEWLINE),
        parse_bytes(line) is Some,
    ensures
        file_key(parse_bytes(line).unwrap().0),
{
    let text = decode_utf8(line);
    let (key, raw) = split_text(text).unwrap();
    lemma_split_text_parts(text);
    if key.contains('\n') {
        let j = choose|j: int| 0 <= j < key.len() && key[j] == '\n';
        assert(trimmed(text)[j] == '\n');
        lemma_trimmed_within(text);
        decode_utf8_encode_utf8(line);
        lemma_encoding_has_byte(text, NEWLINE);
    }
}

/// Lines without newlines leave a map of file keys a map of file keys.
proof fn lemma_apply_file_keys(m: Map<Seq<char>, Seq<char>>, lines: Seq<Seq<u8>>)
    requires
        file_keys(m),
        forall|i: int| 0 <= i < lines.len() ==> !(#[trigger] lines[i]).contains(NEWLINE),
    ensures
        file_keys(apply_lines(m, lines)),
    decreases lines.len(),
{
    if lines.len() > 0 {
        let rest = lines.drop_first();
        if parse_bytes(lines[0]) is Some {
            lemma_line_gives_file_key(lines[0]);
        }
        assert forall|i: int| 0 <= i < rest.len() implies !(#[trigger] rest[i]).contains(
            NEWLINE,
        ) by {
            assert(rest[i] == lines[i + 1]);
        }
        lemma_apply_file_keys(apply_line(m, lines[0]), rest);
    }
}

/// Every key that a file holds is one that a file can yield.
pub proof fn lemma_load_file_keys(data: Seq<u8>)
    ensures
        file_keys(load(data)),
{
    lemma_lines_lack_newline(data);
    lemma_apply_file_keys(Map::empty(), split_lines(data));
}

/// A file splits at its first newline.
pub proof fn lemma_split_first(data: Seq<u8>, p: int)
    requires
        first_at(data, NEWLINE, p),
    ensures
        split_lines(data) == seq![data.subrange(0, p)] + split_lines(
            data.subrange(p + 1, data.len() as int),
        ),
{
    let q = choose|q: int| first_at(data, NEWLINE, q);
    assert(q == p);
}

/// A file without a newline is one line.
pub proof fn lemma_split_last(data: Seq<u8>)
    requires
        !data.contains(NEWLINE),
    ensures
        split_lines(data) == seq![data],
{
}

/// Writing goes pair by pair: a listing followed by another is written as
/// the bytes of the one followed by those of the other.
pub proof fn lemma_render_concat(a: Listing, b: Listing)
    ensures
        render(a + b) == render(a) + render(b),
    decreases a.len(),
{
    if a.len() == 0 {
        assert(a + b =~= b);
        assert(render(a) + render(b) =~= render(b));
    } else {
        lemma_render_concat(a.drop_first(), b);
        assert((a + b).drop_first() =~= a.drop_first() + b);
        assert((a + b)[0] == a[0]);
        let head = line_content(a[0].0, escaped(a[0].1)) + seq![NEWLINE];
        assert(head + (render(a.drop_first()) + render(b)) =~= (head + render(a.drop_first()))
            + render(b));
    }
}

/// A written line holds no newline and is read back as the pair it was
/// written for.
///
/// This needs a key that a file can yield, and of the value that its escaped
/// form can be read back (`escape_round_trips`).
pub proof fn lemma_line_round_trip(key: Seq<char>, value: Seq<char>)
    requires
        file_key(key),
        escape_round_trips(value),
    ensures
        !line_content(key, escaped(value)).contains(NEWLINE),
        parse_bytes(line_content(key, escaped(value))) == Some((key, value)),
{
    let e = escaped(value);
    let content = line_content(key, e);
    let text = key + seq!['='] + e;
    // the content is the encoding of the text
    assert(content == encode_utf8(text)) by {
        lemma_encode_concat(key, seq!['=']);
        lemma_encode_concat(key + seq!['='], e);
        lemma_encode_ascii('=');
    }
    // which holds no newline
    assert(!text.contains('\n')) by {
        if text.contains('\n') {
            let j = choose|j: int| 0 <= j < text.len() && text[j] == '\n';
            if j < key.len() {
                assert(key[j] == '\n');
            } else if j > key.len() {
                assert(e[j - key.len() - 1] == '\n');
            }
        }
    }
    lemma_encoding_lacks_byte(text, NEWLINE);
    // and decodes to the text
    encode_utf8_valid_utf8(text);
    encode_utf8_decode_utf8(text);
    // which is trimmed already
    assert(!is_white_space(text.first()) && !is_white_space(text.last())) by {
        if key.len() > 0 {
            assert(text.first() == key[0]);
        }
        if e.len() > 0 {
            assert(text.last() == e.last());
        }
    }
    lemma_trimmed_properties(text);
    // and splits at the `=` after the key
    let n = key.len() as int;
    assert(text[0] != '#') by {
        if key.len() > 0 {
            assert(text[0] == key[0]);
        }
    }
    assert(first_at(text, '=', n)) by {
        assert forall|j: int| 0 <= j < n implies text[j] != '=' by {
            assert(text[j] == key[j]);
            assert(key.contains(key[j]));
        }
    }
    let q = choose|q: int| first_at(text, '=', q);
    assert(q == n);
    assert(text.subrange(0, n) =~= key);
    assert(text.subrange(n + 1, text.len() as int) =~= e);
    assert(split_text(text) == Some((key, e)));
}

/// What a listing is written as splits into the lines of its pairs, in the
/// order of the listing, and one empty line; each line but the last is read
/// back as its pair, so none of them is a comment or blank.
pub proof fn lemma_rendered_lines(l: Listing)
    requires
        forall|i: int| 0 <= i < l.len() ==> file_key((#[trigger] l[i]).0),
        forall|i: int| 0 <= i < l.len() ==> escape_round_trips((#[trigger] l[i]).1),
    ensures
        split_lines(render(l)) == rendered_lines(l),
        forall|i: int|
            0 <= i < l.len() ==> parse_bytes(#[trigger] rendered_lines(l)[i]) == Some(l[i]),
    decreases l.len(),
{
    if l.len() == 0 {
        lemma_split_last(render(l));
        assert(split_lines(render(l)) =~= rendered_lines(l));
    } else {
        let rest = l.drop_first();
        let content = line_content(l[0].0, escaped(l[0].1));
        assert forall|i: int| 0 <= i < rest.len() implies file_key((#[trigger] rest[i]).0)
            && escape_round_trips(rest[i].1) by {
            assert(rest[i] == l[i + 1]);
        }
        lemma_rendered_lines(rest);
        lemma_line_round_trip(l[0].0, l[0].1);
        let data = render(l);
        let p = content.len() as int;
        assert(first_at(data, NEWLINE, p)) by {
            assert forall|j: int| 0 <= j < p implies data[j] != NEWLINE by {
                assert(data[j] == content[j]);
                assert(content.contains(content[j]));
            }
        }
        lemma_split_first(data, p);
        assert(data.subrange(0, p) =~= content);
        assert(data.subrange(p + 1, data.len() as int) =~= render(rest));
        assert(split_lines(data) =~= rendered_lines(l)) by {
            assert forall|i: int| 0 <= i < rendered_lines(l).len() implies split_lines(data)[i]
                == rendered_lines(l)[i] by {
                if i > 0 {
                    assert(split_lines(data)[i] == rendered_lines(rest)[i - 1]);
                    if i < l.len() {
                        assert(rest[i - 1] == l[i]);
                    }
                }
            }
        }
        assert forall|i: int| 0 <= i < l.len() implies parse_bytes(
            #[trigger] rendered_lines(l)[i],
        ) == Some(l[i]) by {
            if i > 0 {
                assert(rest[i - 1] == l[i]);
                assert(rendered_lines(l)[i] == rendered_lines(rest)[i - 1]);
            }
        }
    }
}

/// The map after lines that are read as the pairs of an ascending listing,
/// followed by one empty line: the listed keys have their listed values, and
/// every other key is as it was.
proof fn lemma_apply_listing(m: Map<Seq<char>, Seq<char>>, lines: Seq<Seq<u8>>, l: Listing)
    requires
        ascending(l),
        lines.len() == l.len() + 1,
        forall|i: int| 0 <= i < l.len() ==> parse_bytes(#[trigger] lines[i]) == Some(l[i]),
        lines[l.len() as int] == Seq::<u8>::empty(),
    ensures
        apply_lines(m, lines) == m.union_prefer_right(listing_map(l)),
    decreases l.len(),
{
    if l.len() == 0 {
        assert(parse_bytes(lines[0]) is None) by {
            let text = decode_utf8(lines[0]);
            assert(text.len() == 0);
            assert(trim_bounds(text, 0, 0));
            lemma_trimmed(text, 0, 0);
            assert(!exists|p: int| first_at(trimmed(text), '=', p));
        }
        assert(lines.drop_first().len() == 0);
        assert(apply_lines(apply_line(m, lines[0]), lines.drop_first()) == m);
        assert(listing_map(l) =~= Map::<Seq<char>, Seq<char>>::empty());
        assert(m.union_prefer_right(listing_map(l)) =~= m);
    } else {
        let rest = l.drop_first();
        let rest_lines = lines.drop_first();
        let (k, v) = l[0];
        assert forall|i: int, j: int| 0 <= i < j < rest.len() implies key_lt(
            (#[trigger] rest[i]).0,
            (#[trigger] rest[j]).0,
        ) by {
            assert(rest[i] == l[i + 1]);
            assert(rest[j] == l[j + 1]);
        }
        assert forall|i: int| 0 <= i < rest.len() implies parse_bytes(#[trigger] rest_lines[i])
            == Some(rest[i]) by {
            assert(rest_lines[i] == lines[i + 1]);
            assert(rest[i] == l[i + 1]);
        }
        assert(rest_lines[rest.len() as int] == lines[l.len() as int]);
        lemma_apply_listing(m.insert(k, v), rest_lines, rest);
        let got = m.insert(k, v).union_prefer_right(listing_map(rest));
        let want = m.union_prefer_right(listing_map(l));
        assert forall|x: Seq<char>| got.contains_key(x) <==> want.contains_key(x) by {
            if has_key(rest, x) {
                let i = choose|i: int| 0 <= i < rest.len() && (#[trigger] rest[i]).0 == x;
                assert(l[i + 1].0 == x);
            }
            if has_key(l, x) && x != k {
                let i = choose|i: int| 0 <= i < l.len() && (#[trigger] l[i]).0 == x;
                assert(rest[i - 1].0 == x);
            }
            if x == k {
                assert(l[0].0 == x);
            }
        }
        assert forall|x: Seq<char>| got.contains_key(x) implies got[x] == want[x] by {
            if has_key(rest, x) {
                let i = choose|i: int| 0 <= i < rest.len() && (#[trigger] rest[i]).0 == x;
                lemma_listing_entry(rest, i);
                assert(rest[i] == l[i + 1]);
                lemma_listing_entry(l, i + 1);
            } else if x == k {
                lemma_listing_entry(l, 0);
            } else if has_key(l, x) {
                let i = choose|i: int| 0 <= i < l.len() && (#[trigger] l[i]).0 == x;
                assert(rest[i - 1].0 == x);
            }
        }
        assert(got =~= want);
    }
}

/// Reading what an ascending listing is written as gives the map that it
/// lists: the same keys, each with the same value.
///
/// This needs keys that a file can yield, and of each value that its escaped
/// form can be read back (`escape_round_trips`).
pub proof fn lemma_round_trip(l: Listing)
    requires
        ascending(l),
        forall|i: int| 0 <= i < l.len() ==> file_key((#[trigger] l[i]).0),
        forall|i: int| 0 <= i < l.len() ==> escape_round_trips((#[trigger] l[i]).1),
    ensures
        load(render(l)) == listing_map(l),
{
    lemma_rendered_lines(l);
    lemma_apply_listing(Map::empty(), rendered_lines(l), l);
    assert(Map::<Seq<char>, Seq<char>>::empty().union_prefer_right(listing_map(l))
        =~= listing_map(l));
}

} // verus!
