//! Character-level helpers on strings: trimming, substring search and the
//! lexicographic order, each with its meaning on `Seq<char>`.

use vstd::prelude::*;
use vstd::std_specs::iter::IteratorSpec;
use vstd::string::*;

verus! {

broadcast use vstd::string::group_string_axioms;

/// Whether `c` is white space in the sense of `char::is_whitespace`.
pub uninterp spec fn is_space(c: char) -> bool;

/// The lower-case form that `str::to_lowercase` gives to a string.
pub uninterp spec fn lowercase(s: Seq<char>) -> Seq<char>;

/// Calls `char::is_whitespace`. Nothing is proved of the answer: the contract
/// only gives it the name `is_space`, which the rest of the library builds on.
#[verifier::external_body]
pub(crate) fn char_is_whitespace(c: char) -> (r: bool)
    ensures
        r == is_space(c),
{
    c.is_whitespace()
}

/// Calls `str::to_lowercase`. The contract names the result `lowercase` of the
/// input and claims one fact of it: the empty string stays empty.
#[verifier::external_body]
pub(crate) fn to_lowercase(s: &str) -> (r: String)
    ensures
        r@ == lowercase(s@),
        s@.len() == 0 ==> r@.len() == 0,
{
    s.to_lowercase()
}

/// The views of a sequence of strings.
pub open spec fn texts(v: Seq<String>) -> Seq<Seq<char>> {
    Seq::new(v.len(), |i: int| v[i]@)
}

/// The characters of `s`, in order.
pub fn chars_of(s: &str) -> (r: Vec<char>)
    ensures
        r@ == s@,
{
    let mut out: Vec<char> = Vec::new();
    let mut it = s.chars();
    loop
        invariant
            it.obeys_prophetic_iter_laws(),
            out@ + it.remaining() == s@,
            it.decrease() is Some,
        ensures
            it.remaining().len() == 0,
        decreases it.decrease()->0,
    {
        match it.next() {
            Some(c) => {
                out.push(c);
            },
            None => {
                break;
            },
        }
    }
    assert(out@ =~= s@);
    out
}

/// The first index at or after `i` that holds no white space (`s.len()` if none).
pub open spec fn trim_start_at(s: Seq<char>, i: int) -> int
    decreases s.len() - i,
{
    if 0 <= i < s.len() && is_space(s[i]) {
        trim_start_at(s, i + 1)
    } else {
        i
    }
}

/// The end of `s[lo..j]` once its trailing white space is dropped.
pub open spec fn trim_end_at(s: Seq<char>, lo: int, j: int) -> int
    decreases j,
{
    if 0 <= lo < j <= s.len() && is_space(s[j - 1]) {
        trim_end_at(s, lo, j - 1)
    } else {
        j
    }
}

/// `s` without its leading and trailing white space.
pub open spec fn trimmed(s: Seq<char>) -> Seq<char> {
    let lo = trim_start_at(s, 0);
    let hi = trim_end_at(s, lo, s.len() as int);
    s.subrange(lo, hi)
}

proof fn lemma_trim_start_at(s: Seq<char>, i: int)
    requires
        0 <= i <= s.len(),
    ensures
        i <= trim_start_at(s, i) <= s.len(),
        forall|k: int| i <= k < trim_start_at(s, i) ==> is_space(s[k]),
        trim_start_at(s, i) < s.len() ==> !is_space(s[trim_start_at(s, i)]),
    decreases s.len() - i,
{
    if i < s.len() && is_space(s[i]) {
        lemma_trim_start_at(s, i + 1);
    }
}

proof fn lemma_trim_end_at(s: Seq<char>, lo: int, j: int)
    requires
        0 <= lo <= j <= s.len(),
    ensures
        lo <= trim_end_at(s, lo, j) <= j,
        forall|k: int| trim_end_at(s, lo, j) <= k < j ==> is_space(s[k]),
        lo < trim_end_at(s, lo, j) ==> !is_space(s[trim_end_at(s, lo, j) - 1]),
    decreases j,
{
    if lo < j && is_space(s[j - 1]) {
        lemma_trim_end_at(s, lo, j - 1);
    }
}

/// What trimming keeps: the part of `s` between two indices, with nothing
/// but white space before and after it, and none at either of its own ends.
pub proof fn lemma_trimmed_is_tight(s: Seq<char>)
    ensures
        ({
            let lo = trim_start_at(s, 0);
            let hi = trim_end_at(s, lo, s.len() as int);
            &&& 0 <= lo <= hi <= s.len()
            &&& trimmed(s) == s.subrange(lo, hi)
            &&& forall|k: int| 0 <= k < lo ==> is_space(s[k])
            &&& forall|k: int| hi <= k < s.len() ==> is_space(s[k])
            &&& lo < hi ==> !is_space(s[lo]) && !is_space(s[hi - 1])
        }),
{
    lemma_trim_start_at(s, 0);
    lemma_trim_end_at(s, trim_start_at(s, 0), s.len() as int);
}

/// Removes leading and trailing white space.
pub fn trim(s: &str) -> (r: String)
    ensures
        r@ == trimmed(s@),
{
    let cs = chars_of(s);
    let n: usize = cs.len();
    let mut lo: usize = 0;
    while lo < n && char_is_whitespace(cs[lo])
        invariant
            cs@ == s@,
            n == cs@.len(),
            lo <= n,
            trim_start_at(s@, 0) == trim_start_at(s@, lo as int),
        decreases n - lo,
    {
        lo += 1;
    }
    let mut hi: usize = n;
    while hi > lo && char_is_whitespace(cs[hi - 1])
        invariant
            cs@ == s@,
            n == cs@.len(),
            lo <= hi <= n,
            trim_end_at(s@, lo as int, n as int) == trim_end_at(s@, lo as int, hi as int),
        decreases hi,
    {
        hi -= 1;
    }
    s.substring_char(lo, hi).to_owned()
}

/// Whether `needle` stands in `hay` at index `i`.
pub open spec fn occurs_at(hay: Seq<char>, needle: Seq<char>, i: int) -> bool {
    0 <= i && i + needle.len() <= hay.len() && hay.subrange(i, i + needle.len()) == needle
}

/// Whether `needle` is a contiguous part of `hay`.
pub open spec fn contains_seq(hay: Seq<char>, needle: Seq<char>) -> bool {
    exists|i: int| occurs_at(hay, needle, i)
}

/// The empty string is a part of every string.
pub proof fn lemma_empty_is_contained(hay: Seq<char>, needle: Seq<char>)
    requires
        needle.len() == 0,
    ensures
        contains_seq(hay, needle),
{
    assert(hay.subrange(0, 0) =~= needle);
    assert(occurs_at(hay, needle, 0));
}

/// Substring search.
pub fn contains_chars(hay: &Vec<char>, needle: &Vec<char>) -> (r: bool)
    ensures
        r == contains_seq(hay@, needle@),
{
    let n: usize = hay.len();
    let m: usize = needle.len();
    if m > n {
        return false;
    }
    let mut i: usize = 0;
    while i <= n - m
        invariant
            n == hay@.len(),
            m == needle@.len(),
            m <= n,
            i <= n - m + 1,
            forall|k: int| 0 <= k < i ==> !occurs_at(hay@, needle@, k),
        decreases n - m + 1 - i,
    {
        let mut j: usize = 0;
        while j < m && hay[i + j] == needle[j]
            invariant
                n == hay@.len(),
                m == needle@.len(),
                i + m <= n,
                j <= m,
                forall|k: int| 0 <= k < j ==> hay@[i + k] == needle@[k],
            decreases m - j,
        {
            j += 1;
        }
        if j == m {
            assert(hay@.subrange(i as int, i + m) =~= needle@);
            assert(occurs_at(hay@, needle@, i as int));
            return true;
        }
        assert(!occurs_at(hay@, needle@, i as int)) by {
            if occurs_at(hay@, needle@, i as int) {
                assert(hay@.subrange(i as int, i + m)[j as int] == needle@[j as int]);
            }
        }
        i += 1;
    }
    false
}

/// Whether `prefix` opens `s`.
pub fn starts_with_chars(s: &Vec<char>, prefix: &Vec<char>) -> (r: bool)
    ensures
        r == prefix@.is_prefix_of(s@),
{
    let m: usize = prefix.len();
    if m > s.len() {
        return false;
    }
    let mut j: usize = 0;
    while j < m && s[j] == prefix[j]
        invariant
            m == prefix@.len(),
            m <= s@.len(),
            j <= m,
            forall|k: int| 0 <= k < j ==> s@[k] == prefix@[k],
        decreases m - j,
    {
        j += 1;
    }
    if j == m {
        assert(s@.subrange(0, m as int) =~= prefix@);
        true
    } else {
        assert(s@.subrange(0, m as int)[j as int] != prefix@[j as int]);
        false
    }
}

} // verus!
