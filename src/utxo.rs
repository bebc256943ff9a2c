//! The set of unspent outputs, keyed by output hash, each with a mark that
//! says whether a pending transaction claims it.

use vstd::prelude::*;
use crate::transaction::TransactionsOutput;

verus! {

/// One unspent output under its hash.
#[derive(Clone, Copy, Debug, PartialEq, Eq)]
pub struct UtxoEntry {
    pub hash: crate::hashing::Hash,
    pub marked: bool,
    pub output: TransactionsOutput,
}

/// The map that a list of entries stands for (a later entry wins).
pub open spec fn entries_map(s: Seq<UtxoEntry>) -> Map<crate::hashing::Hash, (bool, TransactionsOutput)>
    decreases s.len(),
{
    if s.len() == 0 {
        Map::empty()
    } else {
        entries_map(s.drop_last()).insert(s.last().hash, (s.last().marked, s.last().output))
    }
}

/// No two entries share a hash.
pub open spec fn keys_unique(s: Seq<UtxoEntry>) -> bool {
    forall|i: int, j: int| 0 <= i < s.len() && 0 <= j < s.len() && i != j ==> s[i].hash != s[j].hash
}

proof fn lemma_entries_map_has(s: Seq<UtxoEntry>, i: int)
    requires
        0 <= i < s.len(),
    ensures
        entries_map(s).contains_key(s[i].hash),
    decreases s.len(),
{
    if i < s.len() - 1 {
        lemma_entries_map_has(s.drop_last(), i);
        assert(s.drop_last()[i] == s[i]);
    }
}

proof fn lemma_entries_map_index(s: Seq<UtxoEntry>, h: crate::hashing::Hash) -> (i: int)
    requires
        entries_map(s).contains_key(h),
    ensures
        0 <= i < s.len(),
        s[i].hash == h,
    decreases s.len(),
{
    if s.last().hash == h {
        s.len() - 1
    } else {
        let i = lemma_entries_map_index(s.drop_last(), h);
        assert(s.drop_last()[i] == s[i]);
        i
    }
}

proof fn lemma_entries_map_value(s: Seq<UtxoEntry>, i: int)
    requires
        keys_unique(s),
        0 <= i < s.len(),
    ensures
        entries_map(s)[s[i].hash] == (s[i].marked, s[i].output),
    decreases s.len(),
{
    if i < s.len() - 1 {
        let t = s.drop_last();
        assert(t[i] == s[i]);
        assert(keys_unique(t));
        lemma_entries_map_value(t, i);
        assert(s[i].hash != s[s.len() - 1].hash);
    }
}

proof fn lemma_entries_map(s: Seq<UtxoEntry>)
    requires
        keys_unique(s),
    ensures
        forall|h: crate::hashing::Hash| #[trigger] entries_map(s).contains_key(h)
            <==> exists|i: int| 0 <= i < s.len() && s[i].hash == h,
        forall|i: int| 0 <= i < s.len() ==> #[trigger] entries_map(s)[s[i].hash] == (s[i].marked, s[i].output),
{
    assert forall|h: crate::hashing::Hash| #[trigger] entries_map(s).contains_key(h)
        <==> exists|i: int| 0 <= i < s.len() && s[i].hash == h by {
        if entries_map(s).contains_key(h) {
            let i = lemma_entries_map_index(s, h);
        }
        if exists|i: int| 0 <= i < s.len() && s[i].hash == h {
            let i = choose|i: int| 0 <= i < s.len() && s[i].hash == h;
            lemma_entries_map_has(s, i);
        }
    }
    assert forall|i: int| 0 <= i < s.len() implies #[trigger] entries_map(s)[s[i].hash] == (s[i].marked, s[i].output) by {
        lemma_entries_map_value(s, i);
    }
}

/// Unspent outputs: a list of entries with distinct hashes.
#[derive(Clone, Debug)]
pub struct UtxoSet {
    entries: Vec<UtxoEntry>,
}

impl View for UtxoSet {
    type V = Map<crate::hashing::Hash, (bool, TransactionsOutput)>;

    closed spec fn view(&self) -> Self::V {
        entries_map(self.entries@)
    }
}

impl UtxoSet {
    /// The entries in their stored order.
    pub closed spec fn entry_seq(&self) -> Seq<UtxoEntry> {
        self.entries@
    }

    /// The entries have distinct hashes.
    pub closed spec fn wf(&self) -> bool {
        keys_unique(self.entries@)
    }

    /// A hash has an entry exactly when some stored entry carries it; the
    /// stored entries have distinct hashes.
    pub proof fn lemma_entry_seq(&self)
        requires
            self.wf(),
        ensures
            forall|h: crate::hashing::Hash| #[trigger] self@.contains_key(h)
                <==> exists|j: int| 0 <= j < self.entry_seq().len() && self.entry_seq()[j].hash == h,
            keys_unique(self.entry_seq()),
            self.entry_seq().len() <= usize::MAX,
    {
        lemma_entries_map(self.entries@);
        assert(self.entries@.len() == self.entries.len());
        assert forall|h: crate::hashing::Hash| #[trigger] self@.contains_key(h)
            <==> exists|j: int| 0 <= j < self.entry_seq().len() && self.entry_seq()[j].hash == h by {
            if self@.contains_key(h) {
                let j = lemma_entries_map_index(self.entries@, h);
                assert(self.entry_seq()[j].hash == h);
            }
            if exists|j: int| 0 <= j < self.entry_seq().len() && self.entry_seq()[j].hash == h {
                let j = choose|j: int| 0 <= j < self.entry_seq().len() && self.entry_seq()[j].hash == h;
                lemma_entries_map_has(self.entries@, j);
            }
        }
    }

    /// The empty set.
    pub fn new() -> (r: UtxoSet)
        ensures
            r.wf(),
            r@ == Map::<crate::hashing::Hash, (bool, TransactionsOutput)>::empty(),
            r.entry_seq() == Seq::<UtxoEntry>::empty(),
    {
        UtxoSet { entries: Vec::new() }
    }

    fn find(&self, h: &crate::hashing::Hash) -> (r: Option<usize>)
        requires
            self.wf(),
        ensures
            r matches Some(i) ==> i < self.entries@.len() && self.entries@[i as int].hash == *h,
            r is None ==> !self@.contains_key(*h),
            self@.contains_key(*h) <==> r is Some,
    {
        proof {
            lemma_entries_map(self.entries@);
        }
        let mut i: usize = 0;
        while i < self.entries.len()
            invariant
                0 <= i <= self.entries@.len(),
                forall|j: int| 0 <= j < i ==> self.entries@[j].hash != *h,
            decreases self.entries@.len() - i,
        {
            if self.entries[i].hash == *h {
                proof {
                    lemma_entries_map_has(self.entries@, i as int);
                }
                return Some(i);
            }
            i += 1;
        }
        None
    }

    /// The entry under a hash: its mark and output.
    pub fn get(&self, h: &crate::hashing::Hash) -> (r: Option<(bool, TransactionsOutput)>)
        requires
            self.wf(),
        ensures
            r == if self@.contains_key(*h) { Some(self@[*h]) } else { None },
    {
        proof {
            lemma_entries_map(self.entries@);
        }
        match self.find(h) {
            Some(i) => Some((self.entries[i].marked, self.entries[i].output)),
            None => None,
        }
    }

    /// Whether there is an entry under a hash.
    pub fn contains_key(&self, h: &crate::hashing::Hash) -> (r: bool)
        requires
            self.wf(),
        ensures
            r == self@.contains_key(*h),
    {
        self.find(h).is_some()
    }

    /// Puts an entry under a hash, replacing any earlier one.
    pub fn insert(&mut self, h: crate::hashing::Hash, marked: bool, output: TransactionsOutput)
        requires
            old(self).wf(),
        ensures
            final(self).wf(),
            final(self)@ == old(self)@.insert(h, (marked, output)),
            !old(self)@.contains_key(h) ==> final(self).entry_seq() == old(self).entry_seq().push(
                UtxoEntry { hash: h, marked, output },
            ),
    {
        let e = UtxoEntry { hash: h, marked, output };
        match self.find(&h) {
            Some(i) => {
                let ghost s0 = self.entries@;
                self.entries.set(i, e);
                proof {
                    let s1 = self.entries@;
                    assert(s1 == s0.update(i as int, e));
                    assert(keys_unique(s1));
                    lemma_entries_map(s0);
                    lemma_entries_map(s1);
                    assert forall|k: crate::hashing::Hash| #[trigger] entries_map(s1).contains_key(k)
                        == entries_map(s0).insert(h, (marked, output)).contains_key(k) by {
                        if entries_map(s0).contains_key(k) {
                            let j = choose|j: int| 0 <= j < s0.len() && s0[j].hash == k;
                            assert(s1[j].hash == k);
                        }
                        if entries_map(s1).contains_key(k) {
                            let j = choose|j: int| 0 <= j < s1.len() && s1[j].hash == k;
                            if j != i {
                                assert(s0[j].hash == k);
                            }
                        }
                    }
                    assert forall|k: crate::hashing::Hash| #[trigger] entries_map(s1).contains_key(k) implies
                        entries_map(s1)[k] == entries_map(s0).insert(h, (marked, output))[k] by {
                        let j = choose|j: int| 0 <= j < s1.len() && s1[j].hash == k;
                        if j != i {
                            assert(s0[j] == s1[j]);
                        }
                    }
                    assert(entries_map(s1) =~= entries_map(s0).insert(h, (marked, output)));
                }
            },
            None => {
                let ghost s0 = self.entries@;
                self.entries.push(e);
                proof {
                    let s1 = self.entries@;
                    lemma_entries_map(s0);
                    assert(s1.drop_last() == s0);
                    assert forall|a: int, b: int| 0 <= a < s1.len() && 0 <= b < s1.len() && a != b implies s1[a].hash != s1[b].hash by {
                        if a < s0.len() && b < s0.len() {
                            assert(s0[a] == s1[a] && s0[b] == s1[b]);
                        } else if a < s0.len() {
                            assert(s0[a].hash == s1[a].hash);
                        } else {
                            assert(s0[b].hash == s1[b].hash);
                        }
                    }
                }
            },
        }
    }

    /// Removes the entry under a hash, if any.
    pub fn remove(&mut self, h: &crate::hashing::Hash)
        requires
            old(self).wf(),
        ensures
            final(self).wf(),
            final(self)@ == old(self)@.remove(*h),
    {
        match self.find(h) {
            Some(i) => {
                let ghost s0 = self.entries@;
                self.entries.remove(i);
                proof {
                    let s1 = self.entries@;
                    assert(s1 == s0.remove(i as int));
                    assert forall|a: int, b: int| 0 <= a < s1.len() && 0 <= b < s1.len() && a != b implies s1[a].hash != s1[b].hash by {
                        let a0 = if a < i { a } else { a + 1 };
                        let b0 = if b < i { b } else { b + 1 };
                        assert(s1[a] == s0[a0] && s1[b] == s0[b0]);
                    }
                    lemma_entries_map(s0);
                    lemma_entries_map(s1);
                    assert forall|k: crate::hashing::Hash| #[trigger] entries_map(s1).contains_key(k)
                        == entries_map(s0).remove(*h).contains_key(k) by {
                        if entries_map(s0).contains_key(k) && k != *h {
                            let j = choose|j: int| 0 <= j < s0.len() && s0[j].hash == k;
                            assert(j != i);
                            let j1 = if j < i { j } else { j - 1 };
                            assert(s1[j1].hash == k);
                        }
                        if entries_map(s1).contains_key(k) {
                            let j = choose|j: int| 0 <= j < s1.len() && s1[j].hash == k;
                            let j0 = if j < i { j } else { j + 1 };
                            assert(s0[j0].hash == k);
                            assert(j0 != i);
                        }
                    }
                    assert forall|k: crate::hashing::Hash| #[trigger] entries_map(s1).contains_key(k) implies
                        entries_map(s1)[k] == entries_map(s0).remove(*h)[k] by {
                        let j = choose|j: int| 0 <= j < s1.len() && s1[j].hash == k;
                        let j0 = if j < i { j } else { j + 1 };
                        assert(s0[j0] == s1[j]);
                    }
                    assert(entries_map(s1) =~= entries_map(s0).remove(*h));
                }
            },
            None => {
                assert(self@ =~= self@.remove(*h));
            },
        }
    }

    /// Sets the mark of the entry under a hash, if there is one.
    pub fn set_marked(&mut self, h: &crate::hashing::Hash, marked: bool)
        requires
            old(self).wf(),
        ensures
            final(self).wf(),
            final(self)@ == if old(self)@.contains_key(*h) {
                old(self)@.insert(*h, (marked, old(self)@[*h].1))
            } else {
                old(self)@
            },
    {
        match self.get(h) {
            Some((_, output)) => {
                self.insert(*h, marked, output);
            },
            None => {},
        }
    }

    /// The number of entries.
    pub fn len(&self) -> (r: usize)
        requires
            self.wf(),
        ensures
            r == self@.len(),
    {
        proof {
            lemma_entries_len(self.entries@);
        }
        self.entries.len()
    }

    /// The entries, in no particular order.
    pub fn entries(&self) -> (r: &Vec<UtxoEntry>)
        ensures
            entries_map(r@) == self@,
            r@ == self.entry_seq(),
    {
        &self.entries
    }
}

proof fn lemma_entries_len(s: Seq<UtxoEntry>)
    requires
        keys_unique(s),
    ensures
        entries_map(s).dom().finite(),
        entries_map(s).len() == s.len(),
    decreases s.len(),
{
    if s.len() > 0 {
        let t = s.drop_last();
        assert(keys_unique(t));
        lemma_entries_len(t);
        lemma_entries_map(t);
        assert(!entries_map(t).contains_key(s.last().hash)) by {
            if entries_map(t).contains_key(s.last().hash) {
                let i = choose|i: int| 0 <= i < t.len() && t[i].hash == s.last().hash;
                assert(s[i].hash == s[s.len() - 1].hash);
            }
        }
    }
}

} // verus!
