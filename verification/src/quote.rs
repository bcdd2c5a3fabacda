//! Shell-like quoting of values, as the `snailquote` crate does it.
//!
//! The two functions at the end call the crate. Their contracts are believed,
//! not proved: they state what the crate's source shows of it.

use vstd::prelude::*;
use crate::text::is_white_space;

verus! {

/// The text that `snailquote::unescape` reads out of `raw`, or `None` where
/// it reports an error.
pub uninterp spec fn unescaped(raw: Seq<char>) -> Option<Seq<char>>;

/// The text that `snailquote::escape` writes for `value`.
pub uninterp spec fn escaped(value: Seq<char>) -> Seq<char>;

/// `snailquote::UnescapeError`, of which nothing is read.
#[verifier::external_type_specification]
#[verifier::external_body]
pub struct ExUnescapeError(snailquote::UnescapeError);

/// A character that is written without quotes: a printable ASCII character
/// other than the space, the quotes, the backslash, and the characters that
/// a shell gives a meaning to.
pub open spec fn is_plain(c: char) -> bool {
    &&& '!' <= c <= '~'
    &&& c != '\'' && c != '"' && c != '\\'
    &&& c != '(' && c != ')' && c != '&' && c != '~' && c != '$' && c != '#' && c != '`' && c != ';'
    &&& c != '*' && c != '?' && c != '!' && c != '['
    &&& c != '>' && c != '<' && c != '|'
}

/// Text made of plain characters only.
pub open spec fn plain_text(s: Seq<char>) -> bool {
    forall|i: int| 0 <= i < s.len() ==> is_plain(#[trigger] s[i])
}

/// What `raw` stands for where no escape sequence is involved: text without
/// any quote stands for itself, text between a pair of single quotes for what
/// is between them, and so does text between a pair of double quotes that
/// holds no backslash. `None` for every other text.
pub open spec fn literal_value(raw: Seq<char>) -> Option<Seq<char>> {
    let inner = raw.subrange(1, raw.len() - 1);
    if !raw.contains('\'') && !raw.contains('"') {
        Some(raw)
    } else if raw.len() >= 2 && raw.first() == '\'' && raw.last() == '\'' && !inner.contains(
        '\'',
    ) {
        Some(inner)
    } else if raw.len() >= 2 && raw.first() == '"' && raw.last() == '"' && !inner.contains('"')
        && !inner.contains('\\') {
        Some(inner)
    } else {
        None
    }
}

/// What a value must be to its escaped form for a written line to be read
/// back: unescaping gives the value again, and the escaped form holds no
/// newline and does not end in white space.
pub open spec fn escape_round_trips(value: Seq<char>) -> bool {
    let e = escaped(value);
    &&& unescaped(e) == Some(value)
    &&& !e.contains('\n')
    &&& e.len() > 0 ==> !is_white_space(e.last())
}

/// A value of plain characters only is its own escaped form.
pub open spec fn plain_stays(value: Seq<char>) -> bool {
    plain_text(value) ==> escaped(value) == value
}

/// Calls `snailquote::unescape`.
///
/// Trusted, not proved. The result depends on the characters of `raw` alone,
/// and the contract names it `unescaped`. Of its value the contract claims
/// what `literal_value` describes, and no more. The crate's parser starts
/// outside quotes, where it copies every character but the two quotes; a
/// single quote opens a stretch that the next single quote ends, in which
/// every character is copied; a double quote opens a stretch that the next
/// double quote ends, in which every character but the backslash is copied.
/// It returns an error only at a backslash between double quotes.
#[verifier::external_body]
pub(crate) fn unescape(raw: &str) -> (r: Result<String, snailquote::UnescapeError>)
    ensures
        r matches Ok(value) ==> unescaped(raw@) == Some(value@),
        r is Err ==> unescaped(raw@) is None,
        literal_value(raw@) is Some ==> r is Ok,
        r matches Ok(value) ==> (literal_value(raw@) matches Some(v) ==> value@ == v),
{
    snailquote::unescape(raw)
}

/// Calls `snailquote::escape`.
///
/// Trusted, not proved. The result depends on the characters of `value`
/// alone, and the contract names it `escaped`. The crate returns the value
/// as it stands where none of its characters is in its list of characters to
/// quote; that list holds all white space, control and separator characters
/// and no plain character. Otherwise it puts the value between single
/// quotes, or, where the value holds a single quote, a backslash, or a white
/// space, control or separator character other than the space, between
/// double quotes, with control and separator characters but the space
/// written as backslash escapes. So the result holds no newline and does not
/// end in white space, and the crate's `unescape` reads the value back from
/// it, as the crate's own tests require.
#[verifier::external_body]
pub(crate) fn escape(value: &str) -> (r: String)
    ensures
        r@ == escaped(value@),
        unescaped(r@) == Some(value@),
        !r@.contains('\n'),
        r@.len() > 0 ==> !is_white_space(r@.last()),
        plain_text(value@) ==> r@ == value@,
{
    snailquote::escape(value).into_owned()
}

} // verus!
