//! Laws that relate the counting modes to one another.

use vstd::prelude::*;
use crate::bases::{norm_seq, rc_seq, lemma_rc_involution, lemma_norm_idempotent};
use crate::order::{lex_lt, lemma_lex_trichotomy};
use crate::table::count_at;
use crate::windows::{window, window_ok, window_key, canonical_of, lemma_canonical_rc};
use crate::count::{counts_upto, valid_upto, kmer_counts_map, kmer_total, window_positions};

verus! {

/// Case-insensitivity: two byte sequences that agree once upper-cased
/// are counted exactly alike, in either mode, and have the same number
/// of valid windows.
pub proof fn lemma_case_insensitive(s1: Seq<u8>, s2: Seq<u8>, k: int, canonical: bool)
    requires
        norm_seq(s1) == norm_seq(s2),
    ensures
        kmer_counts_map(s1, k, canonical) == kmer_counts_map(s2, k, canonical),
        kmer_total(s1, k) == kmer_total(s2, k),
{
    assert(s1.len() == norm_seq(s1).len());
    assert(s2.len() == norm_seq(s2).len());
}

/// Upper-casing the input before the call changes nothing: counting a
/// sequence and counting its upper-cased form agree.
pub proof fn lemma_norm_counts_same(s: Seq<u8>, k: int, canonical: bool)
    ensures
        kmer_counts_map(norm_seq(s), k, canonical) == kmer_counts_map(s, k, canonical),
        kmer_total(norm_seq(s), k) == kmer_total(s, k),
{
    lemma_norm_idempotent(s);
    lemma_case_insensitive(norm_seq(s), s, k, canonical);
}

/// Canonical-mode merging: for a key in canonical form, the canonical
/// count over the first `n` windows is the forward count of the key plus
/// the forward count of its reverse complement — the two buckets that a
/// forward count keeps apart and canonical counting folds together.  A
/// palindromic key (equal to its own reverse complement) has only the
/// one bucket.
pub proof fn lemma_canonical_merge(s: Seq<u8>, k: int, n: int, key: Seq<u8>)
    requires
        canonical_of(key) == key,
    ensures
        rc_seq(key) != key ==> count_at(counts_upto(s, k, true, n), key) == count_at(
            counts_upto(s, k, false, n),
            key,
        ) + count_at(counts_upto(s, k, false, n), rc_seq(key)),
        rc_seq(key) == key ==> count_at(counts_upto(s, k, true, n), key) == count_at(
            counts_upto(s, k, false, n),
            key,
        ),
    decreases n,
{
    if n > 0 {
        lemma_canonical_merge(s, k, n - 1, key);
        if window_ok(s, n - 1, k) {
            let w = window(s, n - 1, k);
            let cw = canonical_of(w);
            lemma_rc_involution(key);
            lemma_canonical_rc(key);
            if cw == key {
                // the window is the key itself or its reverse complement
                assert(w == key || w == rc_seq(key)) by {
                    if !lex_lt(rc_seq(w), w) {
                        assert(cw == w);
                    } else {
                        assert(cw == rc_seq(w));
                        lemma_rc_involution(w);
                    }
                }
            } else {
                // the window touches neither forward bucket of the key
                assert(w != key);
                assert(w != rc_seq(key)) by {
                    if w == rc_seq(key) {
                        lemma_canonical_rc(rc_seq(key));
                        lemma_rc_involution(key);
                    }
                }
            }
        }
    }
}

/// The canonical-merge law over whole sequences: counting a sequence in
/// canonical mode gives, at every canonical key, the sum of that key's
/// forward count and the forward count of its reverse complement.
pub proof fn lemma_canonical_merge_counts(raw: Seq<u8>, k: int, key: Seq<u8>)
    requires
        canonical_of(key) == key,
    ensures
        rc_seq(key) != key ==> count_at(kmer_counts_map(raw, k, true), key) == count_at(
            kmer_counts_map(raw, k, false),
            key,
        ) + count_at(kmer_counts_map(raw, k, false), rc_seq(key)),
        rc_seq(key) == key ==> count_at(kmer_counts_map(raw, k, true), key) == count_at(
            kmer_counts_map(raw, k, false),
            key,
        ),
{
    lemma_canonical_merge(
        norm_seq(raw),
        k,
        window_positions(raw.len() as int, k),
        key,
    );
}

/// Every key of a canonical-mode count of a whole sequence is in
/// canonical form, so the merge law above covers the whole canonical
/// table.
pub proof fn lemma_canonical_keys_counts(raw: Seq<u8>, k: int)
    ensures
        forall|key: Seq<u8>| #[trigger]
            kmer_counts_map(raw, k, true).contains_key(key) ==> canonical_of(key) == key,
{
    lemma_canonical_keys(norm_seq(raw), k, window_positions(raw.len() as int, k));
}

/// Every key of a canonical-mode count is in canonical form.
pub proof fn lemma_canonical_keys(s: Seq<u8>, k: int, n: int)
    ensures
        forall|key: Seq<u8>| #[trigger]
            counts_upto(s, k, true, n).contains_key(key) ==> canonical_of(key) == key,
    decreases n,
{
    if n > 0 {
        lemma_canonical_keys(s, k, n - 1);
        assert forall|key: Seq<u8>| #[trigger]
            counts_upto(s, k, true, n).contains_key(key) implies canonical_of(key) == key by {
            if window_ok(s, n - 1, k) && key == window_key(s, n - 1, k, true) {
                let w = window(s, n - 1, k);
                lemma_canonical_idempotent(w);
            } else {
                assert(counts_upto(s, k, true, n - 1).contains_key(key));
            }
        }
    }
}

/// Taking the canonical form twice changes nothing.
pub proof fn lemma_canonical_idempotent(w: Seq<u8>)
    ensures
        canonical_of(canonical_of(w)) == canonical_of(w),
{
    lemma_rc_involution(w);
    lemma_lex_trichotomy(rc_seq(w), w);
    if lex_lt(rc_seq(w), w) {
        assert(canonical_of(w) == rc_seq(w));
        assert(!lex_lt(w, rc_seq(w)));
        assert(canonical_of(rc_seq(w)) == rc_seq(w));
    }
}

} // verus!
