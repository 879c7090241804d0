//! Listing the aliases of a table that match substring patterns.

use crate::entry::{EntryView, ParseError};
use crate::order::{lemma_ascending_distinct, lemma_ascending_unique, lex_lt, strictly_ascending};
use crate::parser::{all_ok, completed_blocks, fails_at, parse_lines, table_of};
use crate::table::HostTable;
use crate::text::{
    chars_of, contains_chars, contains_seq, lemma_empty_is_contained, lowercase, texts,
    to_lowercase,
};
use vstd::prelude::*;
use vstd::string::*;

verus! {

/// Whether `pattern` matches `host`: without regard to case, it is a part of it.
pub open spec fn matches(host: Seq<char>, pattern: Seq<char>) -> bool {
    contains_seq(lowercase(host), lowercase(pattern))
}

/// Whether one of `patterns` matches `host`.
pub open spec fn matches_any(host: Seq<char>, patterns: Seq<Seq<char>>) -> bool {
    exists|p: int| 0 <= p < patterns.len() && matches(host, #[trigger] patterns[p])
}

/// Whether `host` belongs to the answer to `patterns` on `table`: it is an
/// alias of the table, and one of the patterns matches it.
pub open spec fn is_listed(
    table: Map<Seq<char>, EntryView>,
    patterns: Seq<Seq<char>>,
    host: Seq<char>,
) -> bool {
    table.contains_key(host) && matches_any(host, patterns)
}

/// Without patterns nothing matches.
pub proof fn lemma_no_pattern_no_match(host: Seq<char>, patterns: Seq<Seq<char>>)
    requires
        patterns.len() == 0,
    ensures
        !matches_any(host, patterns),
{
}

/// The answer does not depend on the order of the patterns, nor on how often
/// one is given: two ascending answers on the same table, to pattern lists
/// that hold the same patterns, are the same sequence.
pub proof fn lemma_answer_ignores_pattern_order(
    table: Map<Seq<char>, EntryView>,
    first: Seq<Seq<char>>,
    second: Seq<Seq<char>>,
    a: Seq<Seq<char>>,
    b: Seq<Seq<char>>,
)
    requires
        forall|p: Seq<char>| first.contains(p) <==> second.contains(p),
        strictly_ascending(a),
        strictly_ascending(b),
        forall|h: Seq<char>| a.contains(h) <==> is_listed(table, first, h),
        forall|h: Seq<char>| b.contains(h) <==> is_listed(table, second, h),
    ensures
        a == b,
{
    assert forall|h: Seq<char>| matches_any(h, first) <==> matches_any(h, second) by {
        if matches_any(h, first) {
            let p = choose|p: int| 0 <= p < first.len() && matches(h, #[trigger] first[p]);
            assert(first.contains(first[p]));
            let q = choose|q: int| 0 <= q < second.len() && second[q] == first[p];
            assert(matches(h, second[q]));
        }
        if matches_any(h, second) {
            let p = choose|p: int| 0 <= p < second.len() && matches(h, #[trigger] second[p]);
            assert(second.contains(second[p]));
            let q = choose|q: int| 0 <= q < first.len() && first[q] == second[p];
            assert(matches(h, first[q]));
        }
    }
    lemma_ascending_unique(a, b);
}

/// The lower-case forms of the patterns.
fn lower_patterns(patterns: &[String]) -> (lows: Vec<Vec<char>>)
    ensures
        lows@.len() == patterns@.len(),
        forall|p: int| 0 <= p < lows@.len() ==> (#[trigger] lows@[p])@ == lowercase(patterns@[p]@),
        forall|p: int|
            0 <= p < lows@.len() && patterns@[p]@.len() == 0 ==> (#[trigger] lows@[p])@.len() == 0,
{
    let mut lows: Vec<Vec<char>> = Vec::new();
    let mut p: usize = 0;
    while p < patterns.len()
        invariant
            p <= patterns@.len(),
            lows@.len() == p,
            forall|q: int| 0 <= q < p ==> (#[trigger] lows@[q])@ == lowercase(patterns@[q]@),
            forall|q: int|
                0 <= q < p && patterns@[q]@.len() == 0 ==> (#[trigger] lows@[q])@.len() == 0,
        decreases patterns@.len() - p,
    {
        let low = to_lowercase(patterns[p].as_str());
        lows.push(chars_of(low.as_str()));
        p += 1;
    }
    lows
}

/// The aliases of `table` that at least one of `patterns` matches, each once,
/// in ascending order. A pattern matches an alias if its lower-case form is a
/// part of the alias's lower-case form; the empty pattern matches every alias.
pub fn matching_hosts(table: &HostTable, patterns: &[String]) -> (out: Vec<String>)
    requires
        table.wf(),
    ensures
        strictly_ascending(texts(out@)),
        forall|h: Seq<char>| texts(out@).contains(h) <==> is_listed(table@, texts(patterns@), h),
        forall|i: int, j: int| 0 <= i < j < out@.len() ==> out@[i]@ != out@[j]@,
        patterns@.len() == 0 ==> out@.len() == 0,
        (exists|p: int| 0 <= p < patterns@.len() && (#[trigger] patterns@[p])@.len() == 0)
            ==> texts(out@) == table.hosts(),
{
    let ghost pats = texts(patterns@);
    let ghost hosts = table.hosts();
    let lows = lower_patterns(patterns);
    let n: usize = table.len();
    let mut out: Vec<String> = Vec::new();
    let mut i: usize = 0;
    while i < n
        invariant
            i <= n,
            n == table.views().len(),
            table.wf(),
            hosts == table.hosts(),
            pats == texts(patterns@),
            lows@.len() == patterns@.len(),
            forall|p: int|
                0 <= p < lows@.len() ==> (#[trigger] lows@[p])@ == lowercase(patterns@[p]@),
            strictly_ascending(texts(out@)),
            forall|h: Seq<char>|
                texts(out@).contains(h) <==> exists|j: int|
                    0 <= j < i && #[trigger] hosts[j] == h && matches_any(h, pats),
        decreases n - i,
    {
        let e = table.entry(i);
        let ghost host = hosts[i as int];
        let low = to_lowercase(e.host.as_str());
        let low_chars = chars_of(low.as_str());
        let mut hit: bool = false;
        let mut p: usize = 0;
        while p < lows.len() && !hit
            invariant
                p <= lows@.len(),
                lows@.len() == patterns@.len(),
                pats == texts(patterns@),
                low_chars@ == lowercase(host),
                forall|q: int|
                    0 <= q < lows@.len() ==> (#[trigger] lows@[q])@ == lowercase(patterns@[q]@),
                hit ==> matches_any(host, pats),
                !hit ==> forall|q: int| 0 <= q < p ==> !matches(host, #[trigger] pats[q]),
            decreases lows@.len() - p, (if hit { 0int } else { 1int }),
        {
            if contains_chars(&low_chars, &lows[p]) {
                hit = true;
                assert(matches(host, pats[p as int]));
            } else {
                assert(!matches(host, pats[p as int]));
                p += 1;
            }
        }
        let ghost before = texts(out@);
        if hit {
            out.push(e.host.clone());
            proof {
                let after = texts(out@);
                assert(after =~= before.push(host));
                assert forall|a: int, b: int| 0 <= a < b < after.len() implies lex_lt(
                    #[trigger] after[a],
                    #[trigger] after[b],
                ) by {
                    if b < before.len() {
                        assert(lex_lt(before[a], before[b]));
                    } else {
                        assert(before.contains(before[a]));
                        let j = choose|j: int|
                            0 <= j < i && #[trigger] hosts[j] == before[a] && matches_any(
                                before[a],
                                pats,
                            );
                        assert(lex_lt(hosts[j], hosts[i as int]));
                    }
                }
                assert forall|h: Seq<char>| after.contains(h) <==> exists|j: int|
                    0 <= j < i + 1 && #[trigger] hosts[j] == h && matches_any(h, pats) by {
                    if after.contains(h) {
                        let k = choose|k: int| 0 <= k < after.len() && after[k] == h;
                        if k < before.len() {
                            assert(before.contains(h));
                            let j = choose|j: int|
                                0 <= j < i && #[trigger] hosts[j] == h && matches_any(h, pats);
                            assert(0 <= j < i + 1 && hosts[j] == h);
                        } else {
                            assert(hosts[i as int] == h);
                        }
                    }
                    if exists|j: int|
                        0 <= j < i + 1 && #[trigger] hosts[j] == h && matches_any(h, pats) {
                        let j = choose|j: int|
                            0 <= j < i + 1 && #[trigger] hosts[j] == h && matches_any(h, pats);
                        if j < i {
                            assert(before.contains(h));
                            let k = choose|k: int| 0 <= k < before.len() && before[k] == h;
                            assert(after[k] == h);
                        } else {
                            assert(after[before.len() as int] == h);
                        }
                    }
                }
            }
        } else {
            proof {
                assert(!matches_any(host, pats));
                assert forall|h: Seq<char>| before.contains(h) <==> exists|j: int|
                    0 <= j < i + 1 && #[trigger] hosts[j] == h && matches_any(h, pats) by {
                    if exists|j: int|
                        0 <= j < i + 1 && #[trigger] hosts[j] == h && matches_any(h, pats) {
                        let j = choose|j: int|
                            0 <= j < i + 1 && #[trigger] hosts[j] == h && matches_any(h, pats);
                        assert(j < i);
                    }
                }
            }
        }
        i += 1;
    }
    proof {
        let listed = texts(out@);
        lemma_ascending_distinct(listed);
        assert forall|i: int, j: int| 0 <= i < j < out@.len() implies out@[i]@ != out@[j]@ by {
            assert(listed[i] != listed[j]);
        }
        assert forall|h: Seq<char>| listed.contains(h) <==> is_listed(table@, pats, h) by {
            if is_listed(table@, pats, h) {
                let j = choose|j: int| 0 <= j < hosts.len() && hosts[j] == h;
                assert(0 <= j < n && hosts[j] == h && matches_any(h, pats));
            }
            if listed.contains(h) {
                let j = choose|j: int|
                    0 <= j < n && #[trigger] hosts[j] == h && matches_any(h, pats);
                assert(hosts.contains(h));
            }
        }
        if patterns@.len() == 0 && out@.len() > 0 {
            assert(listed.contains(listed[0]));
        }
        if exists|p: int| 0 <= p < patterns@.len() && (#[trigger] patterns@[p])@.len() == 0 {
            let p = choose|p: int|
                0 <= p < patterns@.len() && (#[trigger] patterns@[p])@.len() == 0;
            assert(lows@[p]@.len() == 0);
            assert(pats[p] == patterns@[p]@);
            assert forall|h: Seq<char>| listed.contains(h) <==> hosts.contains(h) by {
                lemma_empty_is_contained(lowercase(h), lowercase(pats[p]));
                assert(matches(h, pats[p]));
            }
            lemma_ascending_unique(listed, hosts);
        }
    }
    out
}

/// Reads a configuration and lists the aliases that `patterns` match: the
/// answer of `matching_hosts` on the table of `parse_lines`.
pub fn list_hosts(lines: &[String], patterns: &[String]) -> (r: Result<Vec<String>, ParseError>)
    ensures
        match r {
            Ok(out) => {
                &&& all_ok(completed_blocks(texts(lines@)))
                &&& strictly_ascending(texts(out@))
                &&& forall|h: Seq<char>|
                    texts(out@).contains(h) <==> is_listed(
                        table_of(completed_blocks(texts(lines@))),
                        texts(patterns@),
                        h,
                    )
                &&& patterns@.len() == 0 ==> out@.len() == 0
            },
            Err(e) => exists|b: int, i: int| #[trigger]
                fails_at(completed_blocks(texts(lines@)), b, i) && e.line@ == completed_blocks(
                    texts(lines@),
                )[b][i],
        },
{
    match parse_lines(lines) {
        Ok(table) => Ok(matching_hosts(&table, patterns)),
        Err(e) => Err(e),
    }
}

} // verus!
