//! Reading the lines of a configuration into a table of host entries.

use crate::entry::{block_ok, build_entry, entry_of, is_first_bad, EntryView, ParseError};
use crate::table::HostTable;
use crate::text::{chars_of, starts_with_chars, texts, trim, trimmed};
use vstd::prelude::*;
use vstd::string::*;

verus! {

broadcast use vstd::string::group_string_axioms;

/// Where the reader stands: the blocks it has closed, in order, and the lines
/// of the block that is still open.
pub struct ScanState {
    pub done: Seq<Seq<Seq<char>>>,
    pub pending: Seq<Seq<char>>,
}

/// A trimmed line that the reader passes over: an empty one, or a comment.
pub open spec fn is_skipped(t: Seq<char>) -> bool {
    t.len() == 0 || t[0] == '#'
}

/// A trimmed line that opens a block: it begins with `Host` and a space.
pub open spec fn opens_block(t: Seq<char>) -> bool {
    "Host "@.is_prefix_of(t)
}

/// The reader's state after one more line. The line is trimmed; a line that
/// opens a block closes the open one, unless that is still empty.
pub open spec fn scan_step(st: ScanState, line: Seq<char>) -> ScanState {
    let t = trimmed(line);
    if is_skipped(t) {
        st
    } else if opens_block(t) && st.pending.len() > 0 {
        ScanState { done: st.done.push(st.pending), pending: seq![t] }
    } else {
        ScanState { done: st.done, pending: st.pending.push(t) }
    }
}

/// The reader's state after the first `n` lines.
pub open spec fn scan(lines: Seq<Seq<char>>, n: int) -> ScanState
    decreases n,
{
    if n <= 0 {
        ScanState { done: Seq::empty(), pending: Seq::empty() }
    } else {
        scan_step(scan(lines, n - 1), lines[n - 1])
    }
}

/// The blocks that the lines close. The block that is open at the end of the
/// input is not among them.
pub open spec fn completed_blocks(lines: Seq<Seq<char>>) -> Seq<Seq<Seq<char>>> {
    scan(lines, lines.len() as int).done
}

/// The table that a sequence of blocks gives: each block's entry under its
/// alias, a later block taking the place of an earlier one with the same alias.
pub open spec fn table_of(blocks: Seq<Seq<Seq<char>>>) -> Map<Seq<char>, EntryView>
    decreases blocks.len(),
{
    if blocks.len() == 0 {
        Map::empty()
    } else {
        let e = entry_of(blocks.last());
        table_of(blocks.drop_last()).insert(e.host, e)
    }
}

/// Whether every line of every block can be split.
pub open spec fn all_ok(blocks: Seq<Seq<Seq<char>>>) -> bool {
    forall|b: int| 0 <= b < blocks.len() ==> block_ok(#[trigger] blocks[b])
}

/// Whether line `i` of block `b` is the first line, in reading order, that
/// cannot be split.
pub open spec fn fails_at(blocks: Seq<Seq<Seq<char>>>, b: int, i: int) -> bool {
    &&& 0 <= b < blocks.len()
    &&& forall|c: int| 0 <= c < b ==> block_ok(#[trigger] blocks[c])
    &&& is_first_bad(blocks[b], i)
}

/// The trimmed lines among the first `n` that the reader does not pass over.
pub open spec fn kept_lines(lines: Seq<Seq<char>>, n: int) -> Seq<Seq<char>>
    decreases n,
{
    if n <= 0 {
        Seq::empty()
    } else {
        let t = trimmed(lines[n - 1]);
        if is_skipped(t) {
            kept_lines(lines, n - 1)
        } else {
            kept_lines(lines, n - 1).push(t)
        }
    }
}

/// The lines of a sequence of blocks, one block after the other.
pub open spec fn joined(blocks: Seq<Seq<Seq<char>>>) -> Seq<Seq<char>>
    decreases blocks.len(),
{
    if blocks.len() == 0 {
        Seq::empty()
    } else {
        joined(blocks.drop_last()) + blocks.last()
    }
}

/// The reader loses no line and reorders none: the closed blocks followed by
/// the open one are the lines it kept.
pub proof fn lemma_blocks_hold_the_lines(lines: Seq<Seq<char>>, n: int)
    ensures
        joined(scan(lines, n).done) + scan(lines, n).pending == kept_lines(lines, n),
    decreases n,
{
    if n <= 0 {
        assert(joined(scan(lines, n).done) + scan(lines, n).pending =~= kept_lines(lines, n));
    } else {
        lemma_blocks_hold_the_lines(lines, n - 1);
        let st = scan(lines, n - 1);
        let t = trimmed(lines[n - 1]);
        if !is_skipped(t) {
            if opens_block(t) && st.pending.len() > 0 {
                assert(st.done.push(st.pending).drop_last() =~= st.done);
            }
            assert(joined(scan(lines, n).done) + scan(lines, n).pending =~= kept_lines(lines, n));
        }
    }
}

/// Where the blocks begin: each block has a line; each but the first opens
/// with a `Host` line; and no block holds such a line after its first. The
/// same holds of the open block once a block has been closed.
pub proof fn lemma_block_shape(lines: Seq<Seq<char>>, n: int)
    ensures
        ({
            let st = scan(lines, n);
            &&& forall|b: int| 0 <= b < st.done.len() ==> (#[trigger] st.done[b]).len() > 0
            &&& forall|b: int| 1 <= b < st.done.len() ==> opens_block((#[trigger] st.done[b])[0])
            &&& forall|b: int, k: int|
                0 <= b < st.done.len() && 1 <= k < st.done[b].len() ==> !opens_block(
                    #[trigger] st.done[b][k],
                )
            &&& st.done.len() > 0 ==> st.pending.len() > 0 && opens_block(st.pending[0])
            &&& forall|k: int| 1 <= k < st.pending.len() ==> !opens_block(#[trigger] st.pending[k])
        }),
    decreases n,
{
    if n > 0 {
        lemma_block_shape(lines, n - 1);
    }
}

/// Reading on never changes a block that is closed.
pub proof fn lemma_done_grows(lines: Seq<Seq<char>>, n: int, m: int)
    requires
        0 <= n <= m,
    ensures
        scan(lines, n).done.len() <= scan(lines, m).done.len(),
        forall|b: int|
            0 <= b < scan(lines, n).done.len() ==> scan(lines, m).done[b] == scan(lines, n).done[b],
    decreases m,
{
    if n < m {
        lemma_done_grows(lines, n, m - 1);
    }
}

/// Reads the lines of a configuration. Each line is trimmed; empty lines and
/// comments are passed over; a line that begins with `Host` and a space
/// closes the block before it, whose entry goes into the table. The block
/// that is open when the input ends is left out. Fails on the first line of a
/// closed block that cannot be split.
pub fn parse_lines(lines: &[String]) -> (r: Result<HostTable, ParseError>)
    ensures
        match r {
            Ok(t) => {
                &&& t.wf()
                &&& all_ok(completed_blocks(texts(lines@)))
                &&& t@ == table_of(completed_blocks(texts(lines@)))
            },
            Err(e) => exists|b: int, i: int| #[trigger]
                fails_at(completed_blocks(texts(lines@)), b, i) && e.line@ == completed_blocks(
                    texts(lines@),
                )[b][i],
        },
{
    let ghost input = texts(lines@);
    let mut table = HostTable::new();
    let mut raw: Vec<String> = Vec::new();
    let opener = chars_of("Host ");
    let mut i: usize = 0;
    while i < lines.len()
        invariant
            i <= lines@.len(),
            input == texts(lines@),
            opener@ == "Host "@,
            table.wf(),
            texts(raw@) == scan(input, i as int).pending,
            all_ok(scan(input, i as int).done),
            table@ == table_of(scan(input, i as int).done),
        decreases lines@.len() - i,
    {
        let ghost st = scan(input, i as int);
        assert(input[i as int] == lines@[i as int]@);
        let line = trim(lines[i].as_str());
        let cs = chars_of(line.as_str());
        if cs.len() == 0 || cs[0] == '#' {
        } else {
            if starts_with_chars(&cs, &opener) && raw.len() > 0 {
                match build_entry(raw.as_slice()) {
                    Ok(e) => {
                        table.insert(e);
                        raw.clear();
                        proof {
                            let closed = st.done.push(st.pending);
                            assert(closed.drop_last() =~= st.done);
                            assert(closed.last() == st.pending);
                        }
                    },
                    Err(err) => {
                        proof {
                            let b = st.done.len() as int;
                            let k = choose|k: int| #[trigger]
                                is_first_bad(st.pending, k) && err.line@ == st.pending[k];
                            lemma_done_grows(input, i + 1, input.len() as int);
                            assert(scan(input, i + 1).done[b] == st.pending);
                            assert(fails_at(completed_blocks(input), b, k));
                        }
                        return Err(err);
                    },
                }
            }
            raw.push(line);
            assert(texts(raw@) =~= scan(input, i + 1).pending);
        }
        i += 1;
    }
    Ok(table)
}

/// The aliases of the table are those of the blocks.
pub proof fn lemma_table_keys(blocks: Seq<Seq<Seq<char>>>, k: Seq<char>)
    ensures
        table_of(blocks).contains_key(k) <==> exists|b: int|
            0 <= b < blocks.len() && entry_of(#[trigger] blocks[b]).host == k,
    decreases blocks.len(),
{
    if blocks.len() > 0 {
        let front = blocks.drop_last();
        lemma_table_keys(front, k);
        if table_of(blocks).contains_key(k) {
            if entry_of(blocks.last()).host == k {
                assert(entry_of(blocks[blocks.len() - 1]).host == k);
            } else {
                let b = choose|b: int|
                    0 <= b < front.len() && entry_of(#[trigger] front[b]).host == k;
                assert(entry_of(blocks[b]).host == k);
            }
        }
        if exists|b: int| 0 <= b < blocks.len() && entry_of(#[trigger] blocks[b]).host == k {
            let b = choose|b: int|
                0 <= b < blocks.len() && entry_of(#[trigger] blocks[b]).host == k;
            if b < front.len() {
                assert(entry_of(front[b]).host == k);
            }
        }
    }
}

/// Every block is in the table under its alias, unless a later block has the
/// same alias: then the later one is.
pub proof fn lemma_last_block_wins(blocks: Seq<Seq<Seq<char>>>, b: int)
    requires
        0 <= b < blocks.len(),
        forall|c: int|
            b < c < blocks.len() ==> entry_of(#[trigger] blocks[c]).host != entry_of(
                blocks[b],
            ).host,
    ensures
        table_of(blocks).contains_key(entry_of(blocks[b]).host),
        table_of(blocks)[entry_of(blocks[b]).host] == entry_of(blocks[b]),
    decreases blocks.len(),
{
    let front = blocks.drop_last();
    if b < blocks.len() - 1 {
        assert(front[b] == blocks[b]);
        assert forall|c: int| b < c < front.len() implies entry_of(#[trigger] front[c]).host
            != entry_of(front[b]).host by {
            assert(front[c] == blocks[c]);
        }
        lemma_last_block_wins(front, b);
        assert(entry_of(blocks[blocks.len() - 1]).host != entry_of(blocks[b]).host);
    }
}

} // verus!
