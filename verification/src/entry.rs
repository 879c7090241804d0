//! One `Host` block: splitting its directive lines and folding them into an
//! entry.

use crate::text::{chars_of, char_is_whitespace, is_space, texts};
use vstd::hash_map::StringHashMap;
use vstd::prelude::*;
use vstd::string::*;

verus! {

broadcast use vstd::string::group_string_axioms;

/// A directive line that holds neither white space nor `=`.
#[derive(Debug)]
pub struct ParseError {
    /// The offending line, as it was handed in.
    pub line: String,
}

/// What an entry holds, as mathematical values.
#[verifier::ext_equal]
pub struct EntryView {
    pub host: Seq<char>,
    pub host_name: Seq<char>,
    pub config: Map<Seq<char>, Seq<char>>,
}

/// One parsed `Host` block.
pub struct Entry {
    /// The alias: the value of the block's `Host` line.
    pub host: String,
    /// The value of `Hostname`, or the alias where the block has none.
    pub host_name: String,
    /// Every other directive, by its key as written; the last occurrence wins.
    pub config: StringHashMap<String>,
}

impl View for Entry {
    type V = EntryView;

    open spec fn view(&self) -> EntryView {
        EntryView {
            host: self.host@,
            host_name: self.host_name@,
            config: Map::new(
                |k: Seq<char>| self.config@.contains_key(k),
                |k: Seq<char>| self.config@[k]@,
            ),
        }
    }
}

impl Entry {
    /// The value of the directive `key`, if the block has one.
    pub fn option(&self, key: &str) -> (r: Option<String>)
        ensures
            match r {
                Some(v) => self@.config.contains_key(key@) && v@ == self@.config[key@],
                None => !self@.config.contains_key(key@),
            },
    {
        match self.config.get(key) {
            Some(v) => Some(v.clone()),
            None => None,
        }
    }
}

/// A character at which a directive line is split.
pub open spec fn is_delim(c: char) -> bool {
    is_space(c) || c == '='
}

/// The first index at or after `i` that holds a delimiter (`s.len()` if none).
pub open spec fn delim_from(s: Seq<char>, i: int) -> int
    decreases s.len() - i,
{
    if 0 <= i < s.len() && !is_delim(s[i]) {
        delim_from(s, i + 1)
    } else {
        i
    }
}

/// The index of the first white space or `=` in `s`, whichever comes first;
/// `s.len()` if it has neither.
pub open spec fn delim_index(s: Seq<char>) -> int {
    delim_from(s, 0)
}

/// Whether `s` can be split into key and value.
pub open spec fn has_delim(s: Seq<char>) -> bool {
    delim_index(s) < s.len()
}

/// What stands before the first delimiter.
pub open spec fn split_key(s: Seq<char>) -> Seq<char> {
    s.subrange(0, delim_index(s))
}

/// What stands after the first delimiter, untrimmed.
pub open spec fn split_value(s: Seq<char>) -> Seq<char> {
    s.subrange(delim_index(s) + 1, s.len() as int)
}

proof fn lemma_delim_from(s: Seq<char>, i: int)
    requires
        0 <= i <= s.len(),
    ensures
        i <= delim_from(s, i) <= s.len(),
        forall|k: int| i <= k < delim_from(s, i) ==> !is_delim(s[k]),
        delim_from(s, i) < s.len() ==> is_delim(s[delim_from(s, i)]),
    decreases s.len() - i,
{
    if i < s.len() && !is_delim(s[i]) {
        lemma_delim_from(s, i + 1);
    }
}

/// `delim_index` is the least index that holds a delimiter.
pub proof fn lemma_delim_index_is_first(s: Seq<char>)
    ensures
        0 <= delim_index(s) <= s.len(),
        forall|k: int| 0 <= k < delim_index(s) ==> !is_delim(s[k]),
        has_delim(s) ==> is_delim(s[delim_index(s)]),
        has_delim(s) <==> exists|k: int| 0 <= k < s.len() && is_delim(s[k]),
{
    lemma_delim_from(s, 0);
    if has_delim(s) {
        assert(is_delim(s[delim_index(s)]));
    }
}

/// The first index at or after `i` that holds white space (`s.len()` if none).
pub open spec fn space_from(s: Seq<char>, i: int) -> int
    decreases s.len() - i,
{
    if 0 <= i < s.len() && !is_space(s[i]) {
        space_from(s, i + 1)
    } else {
        i
    }
}

/// The first index at or after `i` that holds `=` (`s.len()` if none).
pub open spec fn equals_from(s: Seq<char>, i: int) -> int
    decreases s.len() - i,
{
    if 0 <= i < s.len() && s[i] != '=' {
        equals_from(s, i + 1)
    } else {
        i
    }
}

proof fn lemma_earlier_from(s: Seq<char>, i: int)
    requires
        0 <= i <= s.len(),
    ensures
        i <= space_from(s, i) <= s.len(),
        i <= equals_from(s, i) <= s.len(),
        delim_from(s, i) == if space_from(s, i) < equals_from(s, i) {
            space_from(s, i)
        } else {
            equals_from(s, i)
        },
    decreases s.len() - i,
{
    if i < s.len() {
        lemma_earlier_from(s, i + 1);
    }
}

/// A line is split at its first white space or at its first `=`: at the one
/// that it has, if it has only one of them, and at the earlier if it has both.
pub proof fn lemma_split_at_the_earlier(s: Seq<char>)
    ensures
        has_delim(s) <==> space_from(s, 0) < s.len() || equals_from(s, 0) < s.len(),
        delim_index(s) == if space_from(s, 0) < equals_from(s, 0) {
            space_from(s, 0)
        } else {
            equals_from(s, 0)
        },
{
    lemma_earlier_from(s, 0);
}

/// Splits a directive line at its first white space or `=`, whichever comes
/// first. The delimiter itself is dropped; the value is not trimmed.
pub fn split<'a>(l: &'a str) -> (r: Result<(&'a str, &'a str), ParseError>)
    ensures
        match r {
            Ok((key, value)) => has_delim(l@) && key@ == split_key(l@) && value@ == split_value(
                l@,
            ),
            Err(e) => !has_delim(l@) && e.line@ == l@,
        },
{
    let cs = chars_of(l);
    let n: usize = cs.len();
    let mut i: usize = 0;
    while i < n && !(char_is_whitespace(cs[i]) || cs[i] == '=')
        invariant
            cs@ == l@,
            n == cs@.len(),
            i <= n,
            delim_index(l@) == delim_from(l@, i as int),
        decreases n - i,
    {
        i += 1;
    }
    if i < n {
        Ok((l.substring_char(0, i), l.substring_char(i + 1, n)))
    } else {
        Err(ParseError { line: l.to_owned() })
    }
}

/// The entry before any line has been read.
pub open spec fn blank_entry() -> EntryView {
    EntryView { host: Seq::empty(), host_name: Seq::empty(), config: Map::empty() }
}

/// The effect of one directive line on the entry being built: `Host` sets the
/// alias, `Hostname` the host name, any other key an option.
pub open spec fn apply_line(e: EntryView, line: Seq<char>) -> EntryView {
    let key = split_key(line);
    let value = split_value(line);
    if key == "Host"@ {
        EntryView { host: value, ..e }
    } else if key == "Hostname"@ {
        EntryView { host_name: value, ..e }
    } else {
        EntryView { config: e.config.insert(key, value), ..e }
    }
}

/// The entry after the first `n` lines of `block`.
pub open spec fn fold_lines(block: Seq<Seq<char>>, n: int) -> EntryView
    decreases n,
{
    if n <= 0 {
        blank_entry()
    } else {
        apply_line(fold_lines(block, n - 1), block[n - 1])
    }
}

/// The entry that a block stands for: its lines applied in order, and the
/// alias taken as host name where that is still empty.
pub open spec fn entry_of(block: Seq<Seq<char>>) -> EntryView {
    let e = fold_lines(block, block.len() as int);
    if e.host_name.len() == 0 {
        EntryView { host_name: e.host, ..e }
    } else {
        e
    }
}

/// Whether every line of `block` can be split.
pub open spec fn block_ok(block: Seq<Seq<char>>) -> bool {
    forall|i: int| 0 <= i < block.len() ==> has_delim(#[trigger] block[i])
}

/// Whether line `i` is the first of `block` that cannot be split.
pub open spec fn is_first_bad(block: Seq<Seq<char>>, i: int) -> bool {
    &&& 0 <= i < block.len()
    &&& !has_delim(block[i])
    &&& forall|j: int| 0 <= j < i ==> has_delim(#[trigger] block[j])
}

/// Builds the entry of one block from its lines. Fails on the first line that
/// has neither white space nor `=`, and names it.
pub fn build_entry(raw: &[String]) -> (r: Result<Entry, ParseError>)
    ensures
        match r {
            Ok(e) => block_ok(texts(raw@)) && e@ == entry_of(texts(raw@)),
            Err(err) => exists|i: int| #[trigger]
                is_first_bad(texts(raw@), i) && err.line@ == texts(raw@)[i],
        },
{
    let ghost block = texts(raw@);
    let mut host = String::new();
    let mut host_name = String::new();
    let mut config: StringHashMap<String> = StringHashMap::new();
    let host_key = String::from_str("Host");
    let host_name_key = String::from_str("Hostname");
    let mut i: usize = 0;
    while i < raw.len()
        invariant
            i <= raw@.len(),
            block == texts(raw@),
            host_key@ == "Host"@,
            host_name_key@ == "Hostname"@,
            forall|j: int| 0 <= j < i ==> has_delim(#[trigger] block[j]),
            (Entry { host, host_name, config })@ =~= fold_lines(block, i as int),
        decreases raw@.len() - i,
    {
        let ghost before = (Entry { host, host_name, config })@;
        assert(block[i as int] == raw@[i as int]@);
        match split(raw[i].as_str()) {
            Ok((key, value)) => {
                let key = key.to_owned();
                if key == host_key {
                    host = value.to_owned();
                } else if key == host_name_key {
                    host_name = value.to_owned();
                } else {
                    config.insert(key, value.to_owned());
                }
            },
            Err(err) => {
                assert(is_first_bad(block, i as int));
                return Err(err);
            },
        }
        assert((Entry { host, host_name, config })@ =~= apply_line(before, block[i as int]));
        i += 1;
    }
    if host_name.as_str().is_empty() {
        host_name = host.clone();
    }
    let e = Entry { host, host_name, config };
    assert(e@ =~= entry_of(block));
    Ok(e)
}

/// A block without a `Hostname` line gets its alias as host name.
pub proof fn lemma_host_name_defaults_to_host(block: Seq<Seq<char>>)
    requires
        forall|i: int| 0 <= i < block.len() ==> split_key(#[trigger] block[i]) != "Hostname"@,
    ensures
        entry_of(block).host_name == entry_of(block).host,
{
    lemma_no_host_name_yet(block, block.len() as int);
}

proof fn lemma_no_host_name_yet(block: Seq<Seq<char>>, n: int)
    requires
        0 <= n <= block.len(),
        forall|i: int| 0 <= i < block.len() ==> split_key(#[trigger] block[i]) != "Hostname"@,
    ensures
        fold_lines(block, n).host_name.len() == 0,
    decreases n,
{
    if n > 0 {
        lemma_no_host_name_yet(block, n - 1);
    }
}

} // verus!
