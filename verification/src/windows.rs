//! K-mer windows: which windows are counted, the canonical form of a
//! k-mer, and the key a window contributes to the count table.

use vstd::prelude::*;
use crate::bases::{is_base, comp_byte, rc_seq, lemma_rc_involution};
use crate::order::{lex_lt, lex_less, lemma_lex_trichotomy};

verus! {

/// The forward window of length `k` starting at position `p`.
pub open spec fn window(s: Seq<u8>, p: int, k: int) -> Seq<u8> {
    s.subrange(p, p + k)
}

/// A window is counted only when every byte in it is a base.
pub open spec fn window_ok(s: Seq<u8>, p: int, k: int) -> bool {
    forall|i: int| p <= i < p + k ==> is_base(s[i])
}

/// The canonical form of a k-mer: the lexicographically smaller of the
/// k-mer and its reverse complement; the k-mer itself on a tie.
pub open spec fn canonical_of(w: Seq<u8>) -> Seq<u8> {
    if lex_lt(rc_seq(w), w) {
        rc_seq(w)
    } else {
        w
    }
}

/// The key a valid window contributes: its canonical form in canonical
/// mode, the forward k-mer otherwise.
pub open spec fn window_key(s: Seq<u8>, p: int, k: int, canonical: bool) -> Seq<u8> {
    if canonical {
        canonical_of(window(s, p, k))
    } else {
        window(s, p, k)
    }
}

/// A k-mer and its reverse complement share one canonical form.
pub proof fn lemma_canonical_rc(w: Seq<u8>)
    ensures
        canonical_of(rc_seq(w)) == canonical_of(w),
{
    let r = rc_seq(w);
    lemma_rc_involution(w);
    lemma_lex_trichotomy(r, w);
    if !lex_lt(r, w) && !lex_lt(w, r) {
        assert(r == w);
    }
}

/// The mirrored slice of the whole-sequence reverse complement is the
/// reverse complement of the forward window.
pub proof fn lemma_rc_window(s: Seq<u8>, p: int, k: int)
    requires
        0 <= p,
        0 <= k,
        p + k <= s.len(),
    ensures
        rc_seq(s).subrange(s.len() - p - k, s.len() - p) == rc_seq(window(s, p, k)),
{
    let n = s.len() as int;
    let a = rc_seq(s).subrange(n - p - k, n - p);
    let b = rc_seq(window(s, p, k));
    assert forall|j: int| 0 <= j < k implies a[j] == b[j] by {
        assert(a[j] == comp_byte(s[n - 1 - (n - p - k + j)]));
        assert(b[j] == comp_byte(window(s, p, k)[k - 1 - j]));
        assert(window(s, p, k)[k - 1 - j] == s[p + k - 1 - j]);
    }
    assert(a =~= b);
}

/// Every byte of the key of a valid window is a base.
pub proof fn lemma_key_bases(s: Seq<u8>, p: int, k: int, canonical: bool)
    requires
        0 <= p,
        0 <= k,
        p + k <= s.len(),
        window_ok(s, p, k),
    ensures
        forall|i: int|
            0 <= i < k ==> is_base(#[trigger] window_key(s, p, k, canonical)[i]),
        window_key(s, p, k, canonical).len() == k,
{
    let w = window(s, p, k);
    assert(forall|i: int| 0 <= i < k ==> is_base(#[trigger] w[i]));
    assert(forall|i: int| 0 <= i < k ==> is_base(#[trigger] rc_seq(w)[i]));
}

/// Copies `k` bytes of `s` starting at `from`.
pub fn copy_range(s: &Vec<u8>, from: usize, k: usize) -> (r: Vec<u8>)
    requires
        from + k <= s@.len(),
    ensures
        r@ == s@.subrange(from as int, from + k),
{
    let total = s.len();
    assert(from + k <= total);
    let mut out: Vec<u8> = Vec::new();
    let mut i: usize = 0;
    while i < k
        invariant
            i <= k,
            from + k <= s@.len(),
            out@ =~= s@.subrange(from as int, from + i),
        decreases k - i,
    {
        out.push(s[from + i]);
        i = i + 1;
        assert(out@ =~= s@.subrange(from as int, from + i));
    }
    out
}

/// Decides whether every byte of the window at `p` is a base.
pub fn window_valid(s: &Vec<u8>, p: usize, k: usize) -> (r: bool)
    requires
        p + k <= s@.len(),
    ensures
        r == window_ok(s@, p as int, k as int),
{
    let total = s.len();
    assert(p + k <= total);
    let mut i: usize = 0;
    while i < k
        invariant
            i <= k,
            p + k <= s@.len(),
            forall|j: int| p <= j < p + i ==> is_base(s@[j]),
        decreases k - i,
    {
        let b = s[p + i];
        if !(b == crate::bases::UPPER_A || b == crate::bases::UPPER_C
            || b == crate::bases::UPPER_G || b == crate::bases::UPPER_T) {
            return false;
        }
        i = i + 1;
    }
    true
}

/// Builds the key of the valid window at `p`: the forward k-mer, or in
/// canonical mode the smaller of the forward k-mer and its reverse
/// complement, read out of the precomputed whole-sequence reverse
/// complement rather than recomputed per window.
pub fn window_key_vec(normv: &Vec<u8>, rcv: &Vec<u8>, p: usize, k: usize, canonical: bool) -> (r:
    Vec<u8>)
    requires
        rcv@ == rc_seq(normv@),
        p + k <= normv@.len(),
    ensures
        r@ == window_key(normv@, p as int, k as int, canonical),
{
    let n = normv.len();
    let fwd = copy_range(normv, p, k);
    if canonical {
        let rcw = copy_range(rcv, n - p - k, k);
        proof {
            lemma_rc_window(normv@, p as int, k as int);
        }
        if lex_less(&rcw, &fwd) {
            rcw
        } else {
            fwd
        }
    } else {
        fwd
    }
}

} // verus!
