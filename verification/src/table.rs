//! The count table: distinct k-mer keys with their occurrence counts,
//! viewed as a map from byte sequence to count.

use vstd::prelude::*;

verus! {

/// One key of the table with its accumulated count.
pub struct CountEntry {
    pub kmer: Vec<u8>,
    pub count: u64,
}

/// The count a map holds for a key, zero when the key is absent.
pub open spec fn count_at(m: Map<Seq<u8>, nat>, key: Seq<u8>) -> nat {
    if m.contains_key(key) {
        m[key]
    } else {
        0
    }
}

/// The map an entry sequence stands for.
pub open spec fn entries_map(s: Seq<CountEntry>) -> Map<Seq<u8>, nat>
    decreases s.len(),
{
    if s.len() == 0 {
        Map::empty()
    } else {
        entries_map(s.drop_last()).insert(s.last().kmer@, s.last().count as nat)
    }
}

/// The sum of all counts in an entry sequence.
pub open spec fn entries_sum(s: Seq<CountEntry>) -> nat
    decreases s.len(),
{
    if s.len() == 0 {
        0
    } else {
        (entries_sum(s.drop_last()) + s.last().count) as nat
    }
}

/// Entry keys are pairwise distinct.
pub open spec fn entries_distinct(s: Seq<CountEntry>) -> bool {
    forall|i: int, j: int| 0 <= i < j < s.len() ==> s[i].kmer@ != s[j].kmer@
}

/// With distinct keys, the map holds exactly each entry's count.
pub proof fn lemma_entries_map_at(s: Seq<CountEntry>, i: int)
    requires
        entries_distinct(s),
        0 <= i < s.len(),
    ensures
        entries_map(s).contains_key(s[i].kmer@),
        entries_map(s)[s[i].kmer@] == s[i].count as nat,
    decreases s.len(),
{
    if i < s.len() - 1 {
        assert(s.drop_last()[i] == s[i]);
        lemma_entries_map_at(s.drop_last(), i);
    }
}

/// Every key of the map is the key of some entry.
pub proof fn lemma_entries_map_keys(s: Seq<CountEntry>, key: Seq<u8>)
    requires
        entries_map(s).contains_key(key),
    ensures
        exists|i: int| 0 <= i < s.len() && #[trigger] s[i].kmer@ == key,
    decreases s.len(),
{
    if s.len() > 0 && s.last().kmer@ != key {
        lemma_entries_map_keys(s.drop_last(), key);
        let i = choose|i: int| 0 <= i < s.drop_last().len() && #[trigger] s.drop_last()[i].kmer@ == key;
        assert(s[i].kmer@ == key);
    }
}

/// No count in the table exceeds the sum of all counts.
pub proof fn lemma_count_le_sum(s: Seq<CountEntry>, key: Seq<u8>)
    requires
        entries_distinct(s),
    ensures
        count_at(entries_map(s), key) <= entries_sum(s),
    decreases s.len(),
{
    if s.len() > 0 {
        assert(entries_distinct(s.drop_last()));
        lemma_count_le_sum(s.drop_last(), key);
        if s.last().kmer@ == key {
            if entries_map(s.drop_last()).contains_key(key) {
                lemma_entries_map_keys(s.drop_last(), key);
                let i = choose|i: int|
                    0 <= i < s.drop_last().len() && #[trigger] s.drop_last()[i].kmer@ == key;
                assert(s[i].kmer@ == s[s.len() - 1].kmer@);
                assert(false);
            }
        }
    }
}

/// Updating one entry's count updates the map at that key alone.
proof fn lemma_entries_map_update(s: Seq<CountEntry>, i: int, e: CountEntry)
    requires
        entries_distinct(s),
        0 <= i < s.len(),
        e.kmer@ == s[i].kmer@,
    ensures
        entries_map(s.update(i, e)) == entries_map(s).insert(e.kmer@, e.count as nat),
        entries_sum(s.update(i, e)) == entries_sum(s) - s[i].count + e.count,
    decreases s.len(),
{
    let t = s.update(i, e);
    if i == s.len() - 1 {
        assert(t.drop_last() =~= s.drop_last());
        assert(t.last() == e);
        assert(entries_map(t) =~= entries_map(s).insert(e.kmer@, e.count as nat));
    } else {
        assert(t.drop_last() =~= s.drop_last().update(i, e));
        assert(s.drop_last()[i] == s[i]);
        assert(entries_distinct(s.drop_last()));
        lemma_entries_map_update(s.drop_last(), i, e);
        assert(t.last() == s.last());
        // the two inserts commute because the keys differ
        assert(entries_map(t) =~= entries_map(s).insert(e.kmer@, e.count as nat));
    }
}

/// The mutable count table.
pub struct CountTable {
    pub entries: Vec<CountEntry>,
}

impl CountTable {
    /// The map this table stands for.
    pub open spec fn view_map(&self) -> Map<Seq<u8>, nat> {
        entries_map(self.entries@)
    }

    /// The sum of all counts in the table.
    pub open spec fn sum(&self) -> nat {
        entries_sum(self.entries@)
    }

    /// Keys are pairwise distinct.
    pub open spec fn wf(&self) -> bool {
        entries_distinct(self.entries@)
    }

    pub fn new() -> (r: CountTable)
        ensures
            r.wf(),
            r.view_map() == Map::<Seq<u8>, nat>::empty(),
            r.sum() == 0,
    {
        CountTable { entries: Vec::new() }
    }

    /// Adds one occurrence of `key`, inserting it if it is new.
    pub fn increment(&mut self, key: Vec<u8>)
        requires
            old(self).wf(),
            count_at(old(self).view_map(), key@) < u64::MAX,
        ensures
            final(self).wf(),
            final(self).view_map() == old(self).view_map().insert(
                key@,
                count_at(old(self).view_map(), key@) + 1,
            ),
            final(self).sum() == old(self).sum() + 1,
    {
        let ghost s0 = self.entries@;
        let n = self.entries.len();
        let mut i: usize = 0;
        while i < n
            invariant
                i <= n,
                n == self.entries@.len(),
                self.entries@ == s0,
                forall|j: int| 0 <= j < i ==> s0[j].kmer@ != key@,
            decreases n - i,
        {
            if bytes_eq(&self.entries[i].kmer, &key) {
                proof {
                    lemma_entries_map_at(s0, i as int);
                    lemma_count_le_sum(s0, key@);
                }
                let c = self.entries[i].count;
                self.entries.set(i, CountEntry { kmer: key, count: c + 1 });
                proof {
                    lemma_entries_map_update(s0, i as int, self.entries@[i as int]);
                }
                return;
            }
            i = i + 1;
        }
        // the key is new: no entry holds it
        proof {
            if self.view_map().contains_key(key@) {
                lemma_entries_map_keys(s0, key@);
            }
        }
        self.entries.push(CountEntry { kmer: key, count: 1 });
        proof {
            assert(self.entries@.drop_last() =~= s0);
        }
    }
}

/// Byte-for-byte equality of two vectors.
pub fn bytes_eq(a: &Vec<u8>, b: &Vec<u8>) -> (r: bool)
    ensures
        r == (a@ == b@),
{
    let n = a.len();
    if n != b.len() {
        assert(a@ != b@);
        return false;
    }
    let mut i: usize = 0;
    while i < n
        invariant
            i <= n,
            n == a@.len() == b@.len(),
            forall|j: int| 0 <= j < i ==> a@[j] == b@[j],
        decreases n - i,
    {
        if a[i] != b[i] {
            return false;
        }
        i = i + 1;
    }
    assert(a@ =~= b@);
    true
}

} // verus!
