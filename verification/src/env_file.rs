//! An environment file held in memory.

use std::path::PathBuf;
use vstd::prelude::*;
use vstd::slice::slice_subrange;
use crate::format::{
    apply_line, apply_lines, file_key, file_keys, lemma_load_file_keys, lemma_render_concat,
    lemma_rendered_lines, lemma_round_trip, lemma_split_first, lemma_split_last, line_content,
    load, render, rendered_lines, split_lines, EQUALS, NEWLINE,
};
use crate::line::{parse_bytes, parse_line};
use crate::quote::{escape, escape_round_trips, escaped, plain_stays};
use crate::store::{ascending, lemma_listing_entry, Store};
use crate::text::first_at;

verus! {

/// `std::path::PathBuf`: a path is kept and handed on, never read.
#[verifier::external_type_specification]
#[verifier::external_body]
pub struct ExPathBuf(std::path::PathBuf);

/// The contents of an environment file, and the place of the file.
pub struct EnvFile {
    /// Where the file lies.
    pub path: PathBuf,
    /// What was read from the file, with what was changed since.
    pub store: Store,
}

/// Takes one line into the store.
fn read_line(store: &mut Store, line: &[u8])
    ensures
        final(store)@ == apply_line(old(store)@, line@),
{
    match parse_line(line) {
        Some((key, value)) => {
            store.insert(key, value);
        },
        None => {},
    }
}

/// Appends the line of one entry to `buffer`: the key, `=`, the value as
/// `text` spells it, and a newline.
pub fn write_entry(buffer: &mut Vec<u8>, key: &str, text: &str)
    ensures
        final(buffer)@ == old(buffer)@ + line_content(key@, text@) + seq![NEWLINE],
{
    buffer.extend_from_slice(key.as_bytes());
    buffer.push(EQUALS);
    buffer.extend_from_slice(text.as_bytes());
    buffer.push(NEWLINE);
    assert(buffer@ =~= old(buffer)@ + line_content(key@, text@) + seq![NEWLINE]);
}

impl EnvFile {
    /// Reads the contents of an environment file, which lies at `path`, from
    /// its bytes.
    ///
    /// Each line that holds a key and a value gives the key that value; of
    /// two lines with the same key the later one stays. Every other line is
    /// passed over.
    pub fn new(path: PathBuf, data: &[u8]) -> (env: EnvFile)
        ensures
            env.path == path,
            env.store@ == load(data@),
            file_keys(env.store@),
    {
        let mut store = Store::new();
        let mut start: usize = 0;
        let mut i: usize = 0;
        let n = data.len();
        assert(data@.subrange(0, n as int) =~= data@);
        while i < n
            invariant
                n == data@.len(),
                start <= i <= n,
                forall|j: int| start <= j < i ==> data@[j] != NEWLINE,
                apply_lines(store@, split_lines(data@.subrange(start as int, n as int))) == load(
                    data@,
                ),
            decreases n - i,
        {
            if data[i] == NEWLINE {
                let line = slice_subrange(data, start, i);
                proof {
                    let rest = data@.subrange(start as int, n as int);
                    assert(first_at(rest, NEWLINE, i - start));
                    lemma_split_first(rest, i - start);
                    assert(rest.subrange(0, i - start) =~= line@);
                    assert(rest.subrange(i - start + 1, rest.len() as int) =~= data@.subrange(
                        i + 1,
                        n as int,
                    ));
                    let lines = split_lines(rest);
                    assert(lines[0] == line@);
                    assert(lines.drop_first() =~= split_lines(data@.subrange(i + 1, n as int)));
                }
                read_line(&mut store, line);
                start = i + 1;
            }
            i = i + 1;
        }
        let line = slice_subrange(data, start, n);
        proof {
            lemma_split_last(line@);
            reveal_with_fuel(apply_lines, 2);
            assert(apply_lines(store@, seq![line@]) == apply_line(store@, line@));
            lemma_load_file_keys(data@);
        }
        read_line(&mut store, line);
        EnvFile { path, store }
    }

    /// Gives `key` the value `value`, whether or not the key was there.
    pub fn update(&mut self, key: &str, value: &str)
        ensures
            final(self).store@ == old(self).store@.insert(key@, value@),
            final(self).path == old(self).path,
    {
        self.store.insert(key.to_owned(), value.to_owned());
    }

    /// The value of `key`, if the key is there.
    pub fn get(&self, key: &str) -> (r: Option<&str>)
        ensures
            match r {
                Some(value) => self.store@.contains_key(key@) && self.store@[key@] == value@,
                None => !self.store@.contains_key(key@),
            },
    {
        self.store.get(key)
    }

    /// The bytes to write the file with: one line for each key, in ascending
    /// order of the keys.
    ///
    /// Where every key is one that a file can yield, as after `new`, the
    /// lines of these bytes are those of the entries and one empty line after
    /// the last newline, and reading the bytes gives the same keys with the
    /// same values. A value of plain characters only is written as it stands.
    pub fn write(&self) -> (out: Vec<u8>)
        ensures
            out@ == render(self.store.listing()),
            ascending(self.store.listing()),
            file_keys(self.store@) ==> split_lines(out@) == rendered_lines(self.store.listing()),
            file_keys(self.store@) ==> forall|i: int|
                0 <= i < self.store.listing().len() ==> parse_bytes(
                    #[trigger] rendered_lines(self.store.listing())[i],
                ) == Some(self.store.listing()[i]),
            file_keys(self.store@) ==> load(out@) == self.store@,
            forall|i: int|
                0 <= i < self.store.listing().len() ==> plain_stays(
                    (#[trigger] self.store.listing()[i]).1,
                ),
    {
        let entries = self.store.entries();
        let ghost l = self.store.listing();
        let mut buffer: Vec<u8> = Vec::with_capacity(1024);
        let mut i: usize = 0;
        assert(l.take(0) =~= Seq::<(Seq<char>, Seq<char>)>::empty());
        while i < entries.len()
            invariant
                i <= entries@.len(),
                entries@.len() == l.len(),
                forall|j: int|
                    0 <= j < entries@.len() ==> (entries@[j].0@, entries@[j].1@) == #[trigger] l[j],
                buffer@ == render(l.take(i as int)),
                forall|j: int| 0 <= j < i ==> escape_round_trips((#[trigger] l[j]).1),
                forall|j: int| 0 <= j < i ==> plain_stays((#[trigger] l[j]).1),
            decreases entries@.len() - i,
        {
            let text = escape(entries[i].1.as_str());
            write_entry(&mut buffer, entries[i].0.as_str(), text.as_str());
            proof {
                let one = seq![l[i as int]];
                assert(l.take(i + 1) =~= l.take(i as int) + one);
                lemma_render_concat(l.take(i as int), one);
                reveal_with_fuel(render, 2);
                assert(render(one) =~= line_content(l[i as int].0, escaped(l[i as int].1))
                    + seq![NEWLINE]);
            }
            i = i + 1;
        }
        proof {
            assert(l.take(i as int) =~= l);
            if file_keys(self.store@) {
                assert forall|j: int| 0 <= j < l.len() implies file_key((#[trigger] l[j]).0) by {
                    lemma_listing_entry(l, j);
                }
                lemma_rendered_lines(l);
                lemma_round_trip(l);
            }
        }
        buffer
    }
}

} // verus!
