use vstd::prelude::*;

use crate::common::address::SocketAddress;

verus! {

/// Whether no address occurs twice among the entries.
pub open spec fn distinct_keys(s: Seq<(SocketAddress, usize)>) -> bool {
    forall|i: int, j: int| 0 <= i < s.len() && 0 <= j < s.len() && i != j ==> s[i].0 != s[j].0
}

/// Whether some entry is for `a`.
pub open spec fn has_key(s: Seq<(SocketAddress, usize)>, a: SocketAddress) -> bool {
    exists|i: int| 0 <= i < s.len() && s[i].0 == a
}

/// The map from each address that has an entry to the count of that entry.
pub open spec fn entries_view(s: Seq<(SocketAddress, usize)>) -> Map<SocketAddress, usize> {
    Map::new(
        |a: SocketAddress| has_key(s, a),
        |a: SocketAddress| s[choose|i: int| 0 <= i < s.len() && s[i].0 == a].1,
    )
}

proof fn lemma_entries_view_at(s: Seq<(SocketAddress, usize)>, i: int)
    requires
        distinct_keys(s),
        0 <= i < s.len(),
    ensures
        entries_view(s).dom().contains(s[i].0),
        entries_view(s)[s[i].0] == s[i].1,
{
    let a = s[i].0;
    assert(has_key(s, a));
    let j = choose|j: int| 0 <= j < s.len() && s[j].0 == a;
    assert(j == i);
}

/// How many connections each backend address currently carries.
///
/// No address has more than one entry; an address without an entry has
/// never been counted.
pub struct ConnectionCounts {
    entries: Vec<(SocketAddress, usize)>,
}

impl ConnectionCounts {
    #[verifier::type_invariant]
    spec fn keys_are_distinct(self) -> bool {
        distinct_keys(self.entries@)
    }
}

impl View for ConnectionCounts {
    type V = Map<SocketAddress, usize>;

    closed spec fn view(&self) -> Map<SocketAddress, usize> {
        entries_view(self.entries@)
    }
}

impl ConnectionCounts {
    /// No address counted yet.
    pub fn new() -> (c: ConnectionCounts)
        ensures
            c@ == Map::<SocketAddress, usize>::empty(),
    {
        let c = ConnectionCounts { entries: Vec::new() };
        assert(c@ =~= Map::<SocketAddress, usize>::empty());
        c
    }

    /// The index of the entry for `addr`, if there is one.
    fn position(&self, addr: &SocketAddress) -> (r: Option<usize>)
        ensures
            match r {
                Some(i) => i < self.entries@.len() && self.entries@[i as int].0 == *addr,
                None => !has_key(self.entries@, *addr),
            },
    {
        let mut i: usize = 0;
        while i < self.entries.len()
            invariant
                i <= self.entries@.len(),
                forall|j: int| 0 <= j < i ==> self.entries@[j].0 != *addr,
            decreases self.entries@.len() - i,
        {
            if self.entries[i].0 == *addr {
                return Some(i);
            }
            i = i + 1;
        }
        None
    }

    /// The count of `addr`, if it has one.
    pub fn get(&self, addr: &SocketAddress) -> (r: Option<usize>)
        ensures
            r == (if self@.dom().contains(*addr) {
                Some(self@[*addr])
            } else {
                None::<usize>
            }),
    {
        proof {
            use_type_invariant(self);
        }
        match self.position(addr) {
            Some(i) => {
                proof {
                    lemma_entries_view_at(self.entries@, i as int);
                }
                Some(self.entries[i].1)
            },
            None => None,
        }
    }

    /// Sets the count of `addr` to `value`, adding an entry for it where it
    /// has none.
    pub fn insert(&mut self, addr: SocketAddress, value: usize)
        ensures
            final(self)@ == old(self)@.insert(addr, value),
    {
        proof {
            use_type_invariant(&*self);
        }
        let ghost old_entries = self.entries@;
        let found = self.position(&addr);
        let mut entries: Vec<(SocketAddress, usize)> = Vec::new();
        std::mem::swap(&mut entries, &mut self.entries);
        match found {
            Some(i) => {
                entries.set(i, (addr, value));
                let ghost new_entries = entries@;
                assert(distinct_keys(new_entries));
                assert forall|k: SocketAddress|
                    #![trigger entries_view(new_entries).dom().contains(k)]
                    entries_view(new_entries).dom().contains(k)
                        == old_view_insert(old_entries, addr, value).dom().contains(k) by {
                    if k != addr && has_key(old_entries, k) {
                        let j = choose|j: int| 0 <= j < old_entries.len() && old_entries[j].0 == k;
                        assert(new_entries[j].0 == k);
                    }
                    if k != addr && has_key(new_entries, k) {
                        let j = choose|j: int| 0 <= j < new_entries.len() && new_entries[j].0 == k;
                        assert(old_entries[j].0 == k);
                    }
                    if k == addr {
                        assert(new_entries[i as int].0 == k);
                    }
                }
                assert forall|k: SocketAddress|
                    #![trigger entries_view(new_entries)[k]]
                    entries_view(new_entries).dom().contains(k)
                        implies entries_view(new_entries)[k]
                        == old_view_insert(old_entries, addr, value)[k] by {
                    let j = choose|j: int| 0 <= j < new_entries.len() && new_entries[j].0 == k;
                    lemma_entries_view_at(new_entries, j);
                    if k != addr {
                        assert(j != i);
                        assert(old_entries[j] == new_entries[j]);
                        lemma_entries_view_at(old_entries, j);
                    }
                }
                assert(entries_view(new_entries) =~= old_view_insert(old_entries, addr, value));
            },
            None => {
                entries.push((addr, value));
                let ghost new_entries = entries@;
                assert(distinct_keys(new_entries));
                let ghost n = old_entries.len() as int;
                assert forall|k: SocketAddress|
                    #![trigger entries_view(new_entries).dom().contains(k)]
                    entries_view(new_entries).dom().contains(k)
                        == old_view_insert(old_entries, addr, value).dom().contains(k) by {
                    if has_key(old_entries, k) {
                        let j = choose|j: int| 0 <= j < old_entries.len() && old_entries[j].0 == k;
                        assert(new_entries[j].0 == k);
                    }
                    if k != addr && has_key(new_entries, k) {
                        let j = choose|j: int| 0 <= j < new_entries.len() && new_entries[j].0 == k;
                        assert(j != n);
                        assert(old_entries[j].0 == k);
                    }
                    if k == addr {
                        assert(new_entries[n].0 == k);
                    }
                }
                assert forall|k: SocketAddress|
                    #![trigger entries_view(new_entries)[k]]
                    entries_view(new_entries).dom().contains(k)
                        implies entries_view(new_entries)[k]
                        == old_view_insert(old_entries, addr, value)[k] by {
                    let j = choose|j: int| 0 <= j < new_entries.len() && new_entries[j].0 == k;
                    lemma_entries_view_at(new_entries, j);
                    if k != addr {
                        assert(j != n);
                        assert(old_entries[j] == new_entries[j]);
                        lemma_entries_view_at(old_entries, j);
                    }
                }
                assert(entries_view(new_entries) =~= old_view_insert(old_entries, addr, value));
            },
        }
        self.entries = entries;
    }
}

/// What a read gives back of a write: after the count of `addr` is set to
/// `value`, `addr` has the count `value`, and every other address keeps
/// whether it has a count and which.
pub proof fn lemma_read_after_write(
    counts: Map<SocketAddress, usize>,
    addr: SocketAddress,
    other: SocketAddress,
    value: usize,
)
    ensures
        counts.insert(addr, value).dom().contains(addr),
        counts.insert(addr, value)[addr] == value,
        other != addr ==> counts.insert(addr, value).dom().contains(other) == counts.dom().contains(other),
        other != addr && counts.dom().contains(other) ==> counts.insert(addr, value)[other] == counts[other],
{
}

spec fn old_view_insert(
    s: Seq<(SocketAddress, usize)>,
    a: SocketAddress,
    v: usize,
) -> Map<SocketAddress, usize> {
    entries_view(s).insert(a, v)
}

} // verus!
