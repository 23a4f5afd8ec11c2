//! The entry point: `count_kmers` walks every window of the normalized
//! sequence, counts the valid ones under the chosen key, and returns the
//! table with string keys together with the number of valid windows.

use vstd::prelude::*;
use vstd::string::StringSliceAdditionalSpecFns;
use crate::bases::{all_bases, is_base, norm_seq, normalize, reverse_complement};
use crate::table::{CountTable, CountEntry, count_at, entries_map, entries_sum, entries_distinct,
    lemma_entries_map_at, lemma_count_le_sum};
use crate::windows::{window_ok, window_key, window_valid, window_key_vec, lemma_key_bases};

verus! {

/// The single error of the library: `k` was not a positive integer.
#[derive(Clone, Copy, Debug, PartialEq, Eq, Structural)]
pub enum KmerError {
    InvalidArgument,
}

impl KmerError {
    /// The human-readable description of the error.
    pub fn message(&self) -> (r: String)
        ensures
            r@ == "'k' must be a positive integer."@,
    {
        "'k' must be a positive integer.".to_owned()
    }
}

/// One k-mer of the result with its count.
#[derive(Clone, Debug)]
pub struct KmerEntry {
    pub kmer: String,
    pub count: u64,
}

/// The result of a count: the distinct k-mer keys with their counts, and
/// the total number of valid windows.  A relative frequency is a count
/// divided by `total`; the division is left to the caller so that counts
/// stay exact.
#[derive(Clone, Debug)]
pub struct KmerCounts {
    pub entries: Vec<KmerEntry>,
    pub total: u64,
}

/// The byte sequence a result entry's key stands for.
pub open spec fn str_key(e: KmerEntry) -> Seq<u8> {
    e.kmer@.map_values(|c: char| c as u8)
}

/// The map a result entry sequence stands for.
pub open spec fn result_map(s: Seq<KmerEntry>) -> Map<Seq<u8>, nat>
    decreases s.len(),
{
    if s.len() == 0 {
        Map::empty()
    } else {
        result_map(s.drop_last()).insert(str_key(s.last()), s.last().count as nat)
    }
}

/// The sum of all counts of a result entry sequence.
pub open spec fn result_sum(s: Seq<KmerEntry>) -> nat
    decreases s.len(),
{
    if s.len() == 0 {
        0
    } else {
        (result_sum(s.drop_last()) + s.last().count) as nat
    }
}

/// Result keys are pairwise distinct.
pub open spec fn result_distinct(s: Seq<KmerEntry>) -> bool {
    forall|i: int, j: int| 0 <= i < j < s.len() ==> str_key(s[i]) != str_key(s[j])
}

impl KmerCounts {
    /// The counts as a map from k-mer bytes to occurrence count.
    pub open spec fn counts(&self) -> Map<Seq<u8>, nat> {
        result_map(self.entries@)
    }

    /// Keys are distinct and hold bases only.
    pub open spec fn wf(&self) -> bool {
        &&& result_distinct(self.entries@)
        &&& forall|i: int| 0 <= i < self.entries@.len() ==> all_bases(
            str_key(#[trigger] self.entries@[i]))
    }

    /// Looks a k-mer up by its exact key string.
    pub fn get(&self, kmer: &String) -> (r: Option<u64>)
        ensures
            match r {
                Some(c) => exists|i: int|
                    0 <= i < self.entries@.len() && (#[trigger] self.entries@[i]).kmer@ == kmer@
                        && self.entries@[i].count == c,
                None => forall|i: int|
                    0 <= i < self.entries@.len() ==> (#[trigger] self.entries@[i]).kmer@ != kmer@,
            },
    {
        let n = self.entries.len();
        let mut i: usize = 0;
        while i < n
            invariant
                i <= n,
                forall|j: int| 0 <= j < i ==> (#[trigger] self.entries@[j]).kmer@ != kmer@,
            decreases n - i,
        {
            if self.entries[i].kmer == *kmer {
                return Some(self.entries[i].count);
            }
            i = i + 1;
        }
        None
    }
}

/// The counts over the first `n` window positions of `s`.
pub open spec fn counts_upto(s: Seq<u8>, k: int, canonical: bool, n: int) -> Map<Seq<u8>, nat>
    decreases n,
{
    if n <= 0 {
        Map::empty()
    } else {
        let m = counts_upto(s, k, canonical, n - 1);
        if window_ok(s, n - 1, k) {
            let key = window_key(s, n - 1, k, canonical);
            m.insert(key, (count_at(m, key) + 1) as nat)
        } else {
            m
        }
    }
}

/// The number of valid windows among the first `n` window positions.
pub open spec fn valid_upto(s: Seq<u8>, k: int, n: int) -> nat
    decreases n,
{
    if n <= 0 {
        0
    } else {
        (valid_upto(s, k, n - 1) + if window_ok(s, n - 1, k) {
            1int
        } else {
            0int
        }) as nat
    }
}

/// The number of window positions of length `k` in a sequence of length
/// `len`: every start from 0 through `len - k`, none when `k > len`.
pub open spec fn window_positions(len: int, k: int) -> int {
    if k <= len {
        len - k + 1
    } else {
        0
    }
}

/// The count map of a raw byte sequence: windows are judged and keyed on
/// the upper-cased sequence.
pub open spec fn kmer_counts_map(raw: Seq<u8>, k: int, canonical: bool) -> Map<Seq<u8>, nat> {
    counts_upto(norm_seq(raw), k, canonical, window_positions(raw.len() as int, k))
}

/// The total number of valid windows of a raw byte sequence.
pub open spec fn kmer_total(raw: Seq<u8>, k: int) -> nat {
    valid_upto(norm_seq(raw), k, window_positions(raw.len() as int, k))
}

/// Relies on `String::from_utf8`: a vector of bytes below 128 is valid
/// UTF-8 (one ASCII character per byte), so the conversion succeeds and
/// the characters are exactly the byte values.
#[verifier::external_body]
fn ascii_string(bytes: &Vec<u8>) -> (r: String)
    requires
        forall|i: int| 0 <= i < bytes@.len() ==> bytes@[i] < 128,
    ensures
        r@ == bytes@.map_values(|b: u8| b as char),
{
    match String::from_utf8(bytes.clone()) {
        Ok(s) => s,
        Err(_) => String::new(),
    }
}

/// Turns the byte-keyed table into string-keyed result entries, one per
/// table entry, in order.
fn to_result_entries(table: &CountTable) -> (r: Vec<KmerEntry>)
    requires
        table.wf(),
        forall|key: Seq<u8>| #[trigger] table.view_map().contains_key(key) ==> all_bases(key),
    ensures
        r@.len() == table.entries@.len(),
        forall|i: int|
            0 <= i < r@.len() ==> str_key(#[trigger] r@[i]) == table.entries@[i].kmer@
                && r@[i].count == table.entries@[i].count,
{
    let n = table.entries.len();
    let mut out: Vec<KmerEntry> = Vec::new();
    let mut i: usize = 0;
    while i < n
        invariant
            i <= n,
            out@.len() == i,
            forall|j: int|
                0 <= j < i ==> str_key(#[trigger] out@[j]) == table.entries@[j].kmer@
                    && out@[j].count == table.entries@[j].count,
        decreases n - i,
    {
        proof {
            lemma_entries_map_at(table.entries@, i as int);
            assert(table.view_map().contains_key(table.entries@[i as int].kmer@));
            assert(all_bases(table.entries@[i as int].kmer@));
            assert forall|j: int| 0 <= j < table.entries@[i as int].kmer@.len()
                implies table.entries@[i as int].kmer@[j] < 128 by {
                assert(is_base(table.entries@[i as int].kmer@[j]));
            }
        }
        let s = ascii_string(&table.entries[i].kmer);
        let c = table.entries[i].count;
        proof {
            let bs = table.entries@[i as int].kmer@;
            assert forall|j: int| 0 <= j < bs.len()
                implies s@.map_values(|ch: char| ch as u8)[j] == bs[j] by {
                assert(s@[j] == bs[j] as char);
            }
            assert(s@.map_values(|ch: char| ch as u8) =~= bs);
        }
        out.push(KmerEntry { kmer: s, count: c });
        i = i + 1;
    }
    out
}

/// Pointwise-equal keys and counts give the same map and sum.
proof fn lemma_result_matches(t: Seq<CountEntry>, r: Seq<KmerEntry>)
    requires
        r.len() == t.len(),
        forall|i: int|
            0 <= i < t.len() ==> str_key(#[trigger] r[i]) == t[i].kmer@ && r[i].count
                == t[i].count,
    ensures
        result_map(r) == entries_map(t),
        result_sum(r) == entries_sum(t),
        entries_distinct(t) ==> result_distinct(r),
    decreases t.len(),
{
    if t.len() > 0 {
        assert forall|i: int| 0 <= i < t.drop_last().len()
            implies str_key(#[trigger] r.drop_last()[i]) == t.drop_last()[i].kmer@
                && r.drop_last()[i].count == t.drop_last()[i].count by {
            assert(r.drop_last()[i] == r[i]);
            assert(t.drop_last()[i] == t[i]);
        }
        lemma_result_matches(t.drop_last(), r.drop_last());
        assert(r.last() == r[t.len() - 1]);
        assert(t.last() == t[t.len() - 1]);
        assert(result_map(r) =~= entries_map(t));
    }
}

/// With no valid window there is nothing in the count map.
proof fn lemma_no_windows_no_counts(s: Seq<u8>, k: int, canonical: bool, n: int)
    requires
        valid_upto(s, k, n) == 0,
    ensures
        counts_upto(s, k, canonical, n) == Map::<Seq<u8>, nat>::empty(),
    decreases n,
{
    if n > 0 {
        assert(valid_upto(s, k, n - 1) == 0);
        assert(!window_ok(s, n - 1, k));
        lemma_no_windows_no_counts(s, k, canonical, n - 1);
    }
}

/// Every count in the map is at least one.
proof fn lemma_counts_ge_one(s: Seq<u8>, k: int, canonical: bool, n: int)
    ensures
        forall|key: Seq<u8>| #[trigger]
            counts_upto(s, k, canonical, n).contains_key(key) ==> counts_upto(
                s,
                k,
                canonical,
                n,
            )[key] >= 1,
    decreases n,
{
    if n > 0 {
        lemma_counts_ge_one(s, k, canonical, n - 1);
        let m = counts_upto(s, k, canonical, n);
        assert forall|key: Seq<u8>| #[trigger] m.contains_key(key) implies m[key] >= 1 by {
            if !(window_ok(s, n - 1, k) && key == window_key(s, n - 1, k, canonical)) {
                assert(counts_upto(s, k, canonical, n - 1).contains_key(key));
            }
        }
    }
}

/// Counts the k-mers of a DNA sequence.
///
/// The sequence is upper-cased; every window of length `k` whose bytes
/// are all `A`, `C`, `G` or `T` is counted, keyed by the forward k-mer,
/// or in canonical mode by the lexicographically smaller of the forward
/// k-mer and its reverse complement (the forward form on a tie).  Any
/// `k` below one is rejected; a `k` longer than the sequence gives an
/// empty result.
pub fn count_kmers(sequence: &str, k: isize, canonical_kmers: bool) -> (r: Result<
    KmerCounts,
    KmerError,
>)
    ensures
        match r {
            Ok(t) => {
                &&& k >= 1
                &&& t.wf()
                &&& t.counts() == kmer_counts_map(
                    sequence.spec_bytes(),
                    k as int,
                    canonical_kmers,
                )
                &&& t.total as nat == kmer_total(sequence.spec_bytes(), k as int)
                &&& result_sum(t.entries@) == t.total as nat
                &&& (t.entries@.len() == 0 <==> t.total == 0)
                &&& forall|i: int| 0 <= i < t.entries@.len() ==> (#[trigger] t.entries@[i]).count
                    >= 1
            },
            Err(e) => k < 1 && e == KmerError::InvalidArgument,
        },
{
    if k < 1 {
        return Err(KmerError::InvalidArgument);
    }
    let bytes: &[u8] = sequence.as_bytes();
    let normv = normalize(bytes);
    let rcv = reverse_complement(&normv);
    let kk = k as usize;
    let n = normv.len();
    let mut table = CountTable::new();
    let mut total: u64 = 0;
    if kk <= n {
        let wins = n - kk + 1;
        assert(wins == window_positions(sequence.spec_bytes().len() as int, k as int));
        let mut p: usize = 0;
        while p < wins
            invariant
                p <= wins,
                table.wf(),
                table.view_map() == counts_upto(normv@, kk as int, canonical_kmers, p as int),
                table.sum() == total as nat,
                total as nat == valid_upto(normv@, kk as int, p as int),
                total <= p,
                forall|key: Seq<u8>| #[trigger]
                    table.view_map().contains_key(key) ==> all_bases(key),
            decreases wins - p,
        {
            if window_valid(&normv, p, kk) {
                let key = window_key_vec(&normv, &rcv, p, kk, canonical_kmers);
                proof {
                    lemma_key_bases(normv@, p as int, kk as int, canonical_kmers);
                    lemma_count_le_sum(table.entries@, key@);
                }
                table.increment(key);
                total = total + 1;
            }
            p = p + 1;
        }
    }
    assert(table.view_map() == kmer_counts_map(sequence.spec_bytes(), k as int, canonical_kmers));
    assert(total as nat == kmer_total(sequence.spec_bytes(), k as int));
    let entries = to_result_entries(&table);
    proof {
        lemma_result_matches(table.entries@, entries@);
        assert forall|i: int| 0 <= i < entries@.len()
            implies all_bases(str_key(#[trigger] entries@[i])) by {
            lemma_entries_map_at(table.entries@, i);
        }
        let raw = sequence.spec_bytes();
        let wp = window_positions(raw.len() as int, k as int);
        if total == 0 {
            lemma_no_windows_no_counts(norm_seq(raw), kk as int, canonical_kmers, wp);
            if entries@.len() > 0 {
                assert(result_map(entries@).contains_key(str_key(entries@.last())));
            }
        }
        lemma_counts_ge_one(norm_seq(raw), kk as int, canonical_kmers, wp);
        assert forall|i: int| 0 <= i < entries@.len() implies entries@[i].count >= 1 by {
            lemma_entries_map_at(table.entries@, i);
        }
    }
    Ok(KmerCounts { entries, total })
}

} // verus!
