//! The table of host entries, keyed by alias and kept in ascending order of
//! alias.

use crate::entry::{Entry, EntryView};
use crate::order::{
    compare, lemma_ascending_distinct, lemma_lex_transitive, lex_lt, strictly_ascending, Order,
};
use crate::text::chars_of;
use vstd::prelude::*;

verus! {

/// The hosts of a sequence of entries, in the same order.
pub open spec fn hosts_of(views: Seq<EntryView>) -> Seq<Seq<char>> {
    Seq::new(views.len(), |i: int| views[i].host)
}

/// The mapping from alias to entry that a sequence of entries stands for.
pub open spec fn map_of(views: Seq<EntryView>) -> Map<Seq<char>, EntryView> {
    Map::new(
        |k: Seq<char>| hosts_of(views).contains(k),
        |k: Seq<char>| views[hosts_of(views).index_of(k)],
    )
}

/// In an ascending sequence of entries, an alias is found at one index only.
pub proof fn lemma_index_of_host(views: Seq<EntryView>, i: int)
    requires
        strictly_ascending(hosts_of(views)),
        0 <= i < views.len(),
    ensures
        hosts_of(views).contains(views[i].host),
        hosts_of(views).index_of(views[i].host) == i,
        map_of(views).contains_key(views[i].host),
        map_of(views)[views[i].host] == views[i],
{
    let hosts = hosts_of(views);
    lemma_ascending_distinct(hosts);
    assert(hosts[i] == views[i].host);
    let j = hosts.index_of(hosts[i]);
    assert(0 <= j < hosts.len() && hosts[j] == hosts[i]);
}

proof fn lemma_replace(views: Seq<EntryView>, i: int, e: EntryView)
    requires
        strictly_ascending(hosts_of(views)),
        0 <= i < views.len(),
        e.host == views[i].host,
    ensures
        hosts_of(views.update(i, e)) == hosts_of(views),
        map_of(views.update(i, e)) == map_of(views).insert(e.host, e),
{
    let after = views.update(i, e);
    assert(hosts_of(after) =~= hosts_of(views));
    lemma_index_of_host(views, i);
    lemma_index_of_host(after, i);
    assert forall|k: Seq<char>| hosts_of(views).contains(k) implies #[trigger] map_of(after)[k]
        == map_of(views).insert(e.host, e)[k] by {
        let j = hosts_of(views).index_of(k);
        assert(0 <= j < views.len() && hosts_of(views)[j] == k);
    }
    assert(map_of(after) =~= map_of(views).insert(e.host, e));
}

proof fn lemma_insert(views: Seq<EntryView>, i: int, e: EntryView)
    requires
        strictly_ascending(hosts_of(views)),
        strictly_ascending(hosts_of(views.insert(i, e))),
        0 <= i <= views.len(),
    ensures
        map_of(views.insert(i, e)) == map_of(views).insert(e.host, e),
{
    let after = views.insert(i, e);
    let h1 = hosts_of(views);
    let h2 = hosts_of(after);
    assert(h2[i] == e.host);
    assert forall|k: Seq<char>| h2.contains(k) <==> (k == e.host || h1.contains(k)) by {
        if h2.contains(k) {
            let j = choose|j: int| 0 <= j < h2.len() && h2[j] == k;
            if j < i {
                assert(h1[j] == k);
            } else if j > i {
                assert(h1[j - 1] == k);
            }
        }
        if h1.contains(k) {
            let j = choose|j: int| 0 <= j < h1.len() && h1[j] == k;
            if j < i {
                assert(h2[j] == k);
            } else {
                assert(h2[j + 1] == k);
            }
        }
    }
    assert forall|k: Seq<char>| h2.contains(k) implies #[trigger] map_of(after)[k] == map_of(
        views,
    ).insert(e.host, e)[k] by {
        if k == e.host {
            lemma_index_of_host(after, i);
        } else {
            let j = h1.index_of(k);
            assert(0 <= j < h1.len() && h1[j] == k);
            let jj = if j < i {
                j
            } else {
                j + 1
            };
            assert(after[jj] == views[j]);
            lemma_index_of_host(after, jj);
        }
    }
    assert(map_of(after) =~= map_of(views).insert(e.host, e));
}

/// The mapping from alias to entry.
pub struct HostTable {
    entries: Vec<Entry>,
}

impl View for HostTable {
    type V = Map<Seq<char>, EntryView>;

    open spec fn view(&self) -> Map<Seq<char>, EntryView> {
        map_of(self.views())
    }
}

impl HostTable {
    /// The entries as they are stored.
    pub closed spec fn views(&self) -> Seq<EntryView> {
        Seq::new(self.entries@.len(), |i: int| self.entries@[i]@)
    }

    /// The aliases as they are stored.
    pub open spec fn hosts(&self) -> Seq<Seq<char>> {
        hosts_of(self.views())
    }

    /// The table's invariant: the entries ascend strictly by alias, so that no
    /// alias occurs twice.
    pub open spec fn wf(&self) -> bool {
        strictly_ascending(self.hosts())
    }

    /// The empty table.
    pub fn new() -> (r: Self)
        ensures
            r.wf(),
            r.views().len() == 0,
            r@ == Map::<Seq<char>, EntryView>::empty(),
    {
        let r = HostTable { entries: Vec::new() };
        assert(r@ =~= Map::<Seq<char>, EntryView>::empty());
        r
    }

    /// The number of entries.
    pub fn len(&self) -> (r: usize)
        ensures
            r == self.views().len(),
    {
        self.entries.len()
    }

    /// The entry at index `i` in ascending order of alias.
    pub fn entry(&self, i: usize) -> (r: &Entry)
        requires
            i < self.views().len(),
        ensures
            r@ == self.views()[i as int],
    {
        &self.entries[i]
    }

    /// Puts `e` under its alias, in place of an entry with the same alias if
    /// there is one.
    pub fn insert(&mut self, e: Entry)
        requires
            old(self).wf(),
        ensures
            final(self).wf(),
            final(self)@ == old(self)@.insert(e@.host, e@),
    {
        let key = chars_of(e.host.as_str());
        let n: usize = self.entries.len();
        let mut i: usize = 0;
        let mut found: bool = false;
        let mut replace: bool = false;
        while i < n && !found
            invariant
                i <= n,
                n == self.views().len(),
                *self == *old(self),
                key@ == e@.host,
                forall|k: int| 0 <= k < i ==> lex_lt(#[trigger] self.hosts()[k], key@),
                found ==> i < n,
                found && replace ==> self.hosts()[i as int] == key@,
                found && !replace ==> lex_lt(key@, self.hosts()[i as int]),
                !found ==> !replace,
            decreases n - i, (if found { 0int } else { 1int }),
        {
            let here = chars_of(self.entries[i].host.as_str());
            match compare(&here, &key) {
                Order::Before => {
                    i += 1;
                },
                Order::Same => {
                    found = true;
                    replace = true;
                },
                Order::After => {
                    found = true;
                },
            }
        }
        let ghost before = self.views();
        if replace {
            self.entries.set(i, e);
            proof {
                assert(self.views() =~= before.update(i as int, e@));
                lemma_replace(before, i as int, e@);
            }
        } else {
            self.entries.insert(i, e);
            proof {
                assert(self.views() =~= before.insert(i as int, e@));
                let h1 = hosts_of(before);
                let h2 = self.hosts();
                assert forall|p: int, q: int| 0 <= p < q < h2.len() implies lex_lt(
                    #[trigger] h2[p],
                    #[trigger] h2[q],
                ) by {
                    if q < i {
                        assert(lex_lt(h1[p], h1[q]));
                    } else if q == i {
                        assert(lex_lt(h1[p], key@));
                    } else if p == i {
                        if q - 1 > i {
                            assert(lex_lt(h1[i as int], h1[q - 1]));
                            lemma_lex_transitive(key@, h1[i as int], h1[q - 1]);
                        }
                    } else if p < i {
                        assert(lex_lt(h1[p], h1[q - 1]));
                    } else {
                        assert(lex_lt(h1[p - 1], h1[q - 1]));
                    }
                }
                lemma_insert(before, i as int, e@);
            }
        }
    }

    /// The entry under `host`, if the table has one.
    pub fn get(&self, host: &str) -> (r: Option<&Entry>)
        requires
            self.wf(),
        ensures
            match r {
                Some(e) => self@.contains_key(host@) && e@ == self@[host@],
                None => !self@.contains_key(host@),
            },
    {
        let key = chars_of(host);
        let n: usize = self.entries.len();
        let mut i: usize = 0;
        while i < n
            invariant
                i <= n,
                n == self.views().len(),
                self.wf(),
                key@ == host@,
                forall|k: int| 0 <= k < i ==> #[trigger] self.hosts()[k] != host@,
            decreases n - i,
        {
            let here = chars_of(self.entries[i].host.as_str());
            match compare(&here, &key) {
                Order::Same => {
                    proof {
                        lemma_index_of_host(self.views(), i as int);
                    }
                    return Some(&self.entries[i]);
                },
                _ => {
                    i += 1;
                },
            }
        }
        None
    }
}

} // verus!
