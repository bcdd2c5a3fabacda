//! Text as sequences of characters: white space, trimming, and how text
//! relates to its UTF-8 encoding.

use vstd::prelude::*;
use vstd::string::StringSliceAdditionalSpecFns;
use vstd::utf8::*;

verus! {

/// The characters with the Unicode property `White_Space`. The carriage
/// return is one of them, so a line that ends in one is trimmed of it.
pub open spec fn is_white_space(c: char) -> bool {
    ||| '\u{9}' <= c <= '\u{d}'
    ||| c == ' '
    ||| c == '\u{85}'
    ||| c == '\u{a0}'
    ||| c == '\u{1680}'
    ||| '\u{2000}' <= c <= '\u{200a}'
    ||| c == '\u{2028}'
    ||| c == '\u{2029}'
    ||| c == '\u{202f}'
    ||| c == '\u{205f}'
    ||| c == '\u{3000}'
}

/// Tells whether `c` is a white space character.
pub fn white_space(c: char) -> (b: bool)
    ensures
        b == is_white_space(c),
{
    ('\u{9}' <= c && c <= '\u{d}') || c == ' ' || c == '\u{85}' || c == '\u{a0}' || c
        == '\u{1680}' || ('\u{2000}' <= c && c <= '\u{200a}') || c == '\u{2028}' || c
        == '\u{2029}' || c == '\u{202f}' || c == '\u{205f}' || c == '\u{3000}'
}

/// Every character of `s` from index `from` up to `to` is white space.
pub open spec fn blank_between(s: Seq<char>, from: int, to: int) -> bool {
    forall|i: int| from <= i < to ==> is_white_space(#[trigger] s[i])
}

/// `s[a..b]` is `s` without its leading and trailing white space: only
/// white space lies outside the range, and where the range is not empty it
/// begins and ends with a character that is not white space.
pub open spec fn trim_bounds(s: Seq<char>, a: int, b: int) -> bool {
    &&& 0 <= a <= b <= s.len()
    &&& blank_between(s, 0, a)
    &&& blank_between(s, b, s.len() as int)
    &&& a < b ==> !is_white_space(s[a]) && !is_white_space(s[b - 1])
}

/// `s` without its leading and trailing white space.
pub open spec fn trimmed(s: Seq<char>) -> Seq<char> {
    let (a, b) = choose|a: int, b: int| trim_bounds(s, a, b);
    s.subrange(a, b)
}

/// Any bounds that satisfy `trim_bounds` cut out the trimmed text.
pub proof fn lemma_trimmed(s: Seq<char>, a: int, b: int)
    requires
        trim_bounds(s, a, b),
    ensures
        trimmed(s) == s.subrange(a, b),
{
    let (a2, b2) = choose|a2: int, b2: int| trim_bounds(s, a2, b2);
    assert(trim_bounds(s, a2, b2));
    if a < b {
        // s[a] and s[b - 1] are not white space, so they lie inside the other range
        assert(!blank_between(s, 0, a2) || a2 <= a);
        assert(!blank_between(s, b2, s.len() as int) || a < b2);
        assert(!blank_between(s, b2, s.len() as int) || b <= b2);
        assert(a2 < b2);
        assert(a <= a2);
        assert(b2 <= b);
    } else {
        if a2 < b2 {
            assert(is_white_space(s[a2]));
        }
    }
    assert(s.subrange(a2, b2) =~= s.subrange(a, b));
}

/// Every text has trim bounds; they start at or after `from`, before which
/// all is white space.
proof fn lemma_trim_bounds_exist(s: Seq<char>, from: int, upto: int)
    requires
        0 <= from <= upto <= s.len(),
        blank_between(s, 0, from),
        blank_between(s, upto, s.len() as int),
    ensures
        exists|a: int, b: int| trim_bounds(s, a, b),
    decreases upto - from,
{
    if from == upto {
        assert(trim_bounds(s, from, from));
    } else if is_white_space(s[from]) {
        lemma_trim_bounds_exist(s, from + 1, upto);
    } else if is_white_space(s[upto - 1]) {
        lemma_trim_bounds_exist(s, from, upto - 1);
    } else {
        assert(trim_bounds(s, from, upto));
    }
}

/// Trimmed text neither begins nor ends with white space, and trimming
/// does nothing to text that is already so.
pub proof fn lemma_trimmed_properties(s: Seq<char>)
    ensures
        trimmed(s).len() <= s.len(),
        trimmed(s).len() > 0 ==> !is_white_space(trimmed(s).first()) && !is_white_space(
            trimmed(s).last(),
        ),
        (s.len() > 0 ==> !is_white_space(s.first()) && !is_white_space(s.last())) ==> trimmed(s)
            == s,
        blank_between(s, 0, s.len() as int) ==> trimmed(s).len() == 0,
{
    lemma_trim_bounds_exist(s, 0, s.len() as int);
    let (a, b) = choose|a: int, b: int| trim_bounds(s, a, b);
    lemma_trimmed(s, a, b);
    if s.len() > 0 ==> !is_white_space(s.first()) && !is_white_space(s.last()) {
        assert(trim_bounds(s, 0, s.len() as int));
        lemma_trimmed(s, 0, s.len() as int);
        assert(s.subrange(0, s.len() as int) =~= s);
    }
    if blank_between(s, 0, s.len() as int) {
        assert(trim_bounds(s, 0, 0));
        lemma_trimmed(s, 0, 0);
    }
}

/// White space before and after a text does not change what it is trimmed
/// to.
pub proof fn lemma_trimmed_margins(before: Seq<char>, s: Seq<char>, after: Seq<char>)
    requires
        blank_between(before, 0, before.len() as int),
        blank_between(after, 0, after.len() as int),
    ensures
        trimmed(before + s + after) == trimmed(s),
{
    let whole = before + s + after;
    let n = before.len() as int;
    lemma_trim_bounds_exist(s, 0, s.len() as int);
    let (a, b) = choose|a: int, b: int| trim_bounds(s, a, b);
    lemma_trimmed(s, a, b);
    assert forall|i: int| 0 <= i < whole.len() implies whole[i] == (if i < n {
        before[i]
    } else if i < n + s.len() {
        s[i - n]
    } else {
        after[i - n - s.len()]
    }) by {}
    assert(blank_between(whole, 0, n + a)) by {
        assert forall|i: int| 0 <= i < n + a implies is_white_space(#[trigger] whole[i]) by {
            if i >= n {
                assert(is_white_space(s[i - n]));
            }
        }
    }
    assert(blank_between(whole, n + b, whole.len() as int)) by {
        assert forall|i: int| n + b <= i < whole.len() implies is_white_space(
            #[trigger] whole[i],
        ) by {
            if i < n + s.len() {
                assert(is_white_space(s[i - n]));
            }
        }
    }
    assert(trim_bounds(whole, n + a, n + b)) by {
        if a < b {
            assert(whole[n + a] == s[a]);
            assert(whole[n + b - 1] == s[b - 1]);
        }
    }
    lemma_trimmed(whole, n + a, n + b);
    assert(whole.subrange(n + a, n + b) =~= s.subrange(a, b));
}

/// Every character of the trimmed text is a character of the text.
pub proof fn lemma_trimmed_within(s: Seq<char>)
    ensures
        forall|c: char| trimmed(s).contains(c) ==> s.contains(c),
{
    lemma_trim_bounds_exist(s, 0, s.len() as int);
    let (a, b) = choose|a: int, b: int| trim_bounds(s, a, b);
    lemma_trimmed(s, a, b);
    assert forall|c: char| trimmed(s).contains(c) implies s.contains(c) by {
        let j = choose|j: int| 0 <= j < trimmed(s).len() && trimmed(s)[j] == c;
        assert(s[a + j] == c);
    }
}

/// `p` is the first index of `s` that holds `x`.
pub open spec fn first_at<T>(s: Seq<T>, x: T, p: int) -> bool {
    &&& 0 <= p < s.len()
    &&& s[p] == x
    &&& forall|j: int| 0 <= j < p ==> s[j] != x
}

/// A sequence that holds `x` at `upto` holds it at a first index.
pub proof fn lemma_first_exists<T>(s: Seq<T>, x: T, upto: int)
    requires
        0 <= upto < s.len(),
        s[upto] == x,
    ensures
        exists|p: int| first_at(s, x, p),
    decreases upto,
{
    if exists|j: int| 0 <= j < upto && s[j] == x {
        let j = choose|j: int| 0 <= j < upto && s[j] == x;
        lemma_first_exists(s, x, j);
    } else {
        assert(first_at(s, x, upto));
    }
}

/// `core::str::Utf8Error`, of which nothing is read.
#[verifier::external_type_specification]
#[verifier::external_body]
pub struct ExUtf8Error(core::str::Utf8Error);

/// Believed of `core::str::from_utf8`, not proved: it accepts exactly the
/// byte strings that are valid UTF-8, and the string slice it returns is made
/// of the bytes it was given.
pub assume_specification[ core::str::from_utf8 ](v: &[u8]) -> (r: Result<
    &str,
    core::str::Utf8Error,
>)
    ensures
        r is Ok <==> valid_utf8(v@),
        r matches Ok(s) ==> s.spec_bytes() == v@,
;

/// Encoding a concatenation is concatenating the encodings.
pub proof fn lemma_encode_concat(a: Seq<char>, b: Seq<char>)
    ensures
        encode_utf8(a + b) == encode_utf8(a) + encode_utf8(b),
    decreases a.len(),
{
    if a.len() == 0 {
        assert(a + b =~= b);
        assert(encode_utf8(a) + encode_utf8(b) =~= encode_utf8(b));
    } else {
        lemma_encode_concat(a.drop_first(), b);
        assert((a + b).drop_first() =~= a.drop_first() + b);
        assert(encode_scalar(a[0] as u32) + (encode_utf8(a.drop_first()) + encode_utf8(b))
            =~= (encode_scalar(a[0] as u32) + encode_utf8(a.drop_first())) + encode_utf8(b));
    }
}

/// The encoding of a single ASCII character is the one byte of its code.
pub proof fn lemma_encode_ascii(c: char)
    requires
        c as u32 <= 0x7f,
    ensures
        encode_utf8(seq![c]) == seq![c as u8],
{
    let u = c as u32;
    assert(u as u8 == leading_byte_width_1(u)) by (bit_vector)
        requires
            u <= 0x7f,
    ;
    assert(seq![c].drop_first() =~= Seq::<char>::empty());
    assert(encode_utf8(seq![c].drop_first()) =~= Seq::<u8>::empty());
    assert(encode_scalar(u) + Seq::<u8>::empty() =~= seq![c as u8]);
}

/// The bytes that encode a character: an ASCII character is its own code,
/// and no byte of another character's encoding is an ASCII code.
proof fn lemma_scalar_bytes(u: u32)
    requires
        is_scalar(u),
    ensures
        u <= 0x7f ==> encode_scalar(u) == seq![u as u8],
        u > 0x7f ==> forall|i: int|
            0 <= i < encode_scalar(u).len() ==> #[trigger] encode_scalar(u)[i] >= 0x80,
{
    if has_width_1_encoding(u) {
        assert(u as u8 == leading_byte_width_1(u)) by (bit_vector)
            requires
                u <= 0x7f,
        ;
    } else {
        assert(leading_byte_width_2(u) >= 0x80) by (bit_vector);
        assert(leading_byte_width_3(u) >= 0x80) by (bit_vector);
        assert(leading_byte_width_4(u) >= 0x80) by (bit_vector);
        assert(last_continuation_byte(u) >= 0x80) by (bit_vector);
        assert(second_last_continuation_byte(u) >= 0x80) by (bit_vector);
        assert(third_last_continuation_byte(u) >= 0x80) by (bit_vector);
    }
}

/// An ASCII byte occurs in the encoding of a text only where the text holds
/// the character with that code.
pub proof fn lemma_encoding_lacks_byte(s: Seq<char>, b: u8)
    requires
        b <= 0x7f,
        !s.contains(b as char),
    ensures
        !encode_utf8(s).contains(b),
    decreases s.len(),
{
    if s.len() > 0 {
        let u = s[0] as u32;
        char_is_scalar(s[0]);
        char_u32_cast(s[0], u);
        lemma_scalar_bytes(u);
        assert(s.contains(s[0]));
        let rest = s.drop_first();
        assert(!rest.contains(b as char)) by {
            if rest.contains(b as char) {
                let j = choose|j: int| 0 <= j < rest.len() && rest[j] == b as char;
                assert(s[j + 1] == b as char);
            }
        }
        lemma_encoding_lacks_byte(rest, b);
        let head = encode_scalar(u);
        let tail = encode_utf8(rest);
        if encode_utf8(s).contains(b) {
            let i = choose|i: int| 0 <= i < encode_utf8(s).len() && encode_utf8(s)[i] == b;
            if i < head.len() {
                assert(encode_utf8(s)[i] == head[i]);
            } else {
                assert(encode_utf8(s)[i] == tail[i - head.len()]);
                assert(tail.contains(b));
            }
        }
    }
}

/// An ASCII character of a text occurs in its encoding as the byte of its
/// code.
pub proof fn lemma_encoding_has_byte(s: Seq<char>, b: u8)
    requires
        b <= 0x7f,
        s.contains(b as char),
    ensures
        encode_utf8(s).contains(b),
    decreases s.len(),
{
    let j = choose|j: int| 0 <= j < s.len() && s[j] == b as char;
    let u = s[0] as u32;
    char_is_scalar(s[0]);
    lemma_scalar_bytes(u);
    let head = encode_scalar(u);
    let tail = encode_utf8(s.drop_first());
    if j == 0 {
        assert(encode_utf8(s)[0] == head[0]);
    } else {
        assert(s.drop_first()[j - 1] == b as char);
        lemma_encoding_has_byte(s.drop_first(), b);
        let i = choose|i: int| 0 <= i < tail.len() && tail[i] == b;
        assert(encode_utf8(s)[head.len() + i] == tail[i]);
    }
}

/// A text has at most as many characters as its encoding has bytes.
pub proof fn lemma_encoding_length(s: Seq<char>)
    ensures
        s.len() <= encode_utf8(s).len(),
    decreases s.len(),
{
    if s.len() > 0 {
        lemma_encoding_length(s.drop_first());
    }
}

} // verus!
