//! Lexicographic comparison of equal-length byte sequences, used to pick
//! the canonical form of a k-mer.

use vstd::prelude::*;

verus! {

/// Strict lexicographic order on two sequences of the same length:
/// some position holds a smaller byte in `a`, and the two agree before it.
pub open spec fn lex_lt(a: Seq<u8>, b: Seq<u8>) -> bool {
    exists|i: int|
        0 <= i < a.len() && a[i] < b[i] && (forall|j: int| 0 <= j < i ==> a[j] == b[j])
}

/// Of two distinct sequences of one length, exactly one is smaller.
pub proof fn lemma_lex_trichotomy(a: Seq<u8>, b: Seq<u8>)
    requires
        a.len() == b.len(),
    ensures
        a == b <==> !lex_lt(a, b) && !lex_lt(b, a),
        !(lex_lt(a, b) && lex_lt(b, a)),
    decreases a.len(),
{
    if lex_lt(a, b) && lex_lt(b, a) {
        let i1 = choose|i: int|
            0 <= i < a.len() && a[i] < b[i] && (forall|j: int| 0 <= j < i ==> a[j] == b[j]);
        let i2 = choose|i: int|
            0 <= i < b.len() && b[i] < a[i] && (forall|j: int| 0 <= j < i ==> b[j] == a[j]);
        if i1 < i2 {
            assert(b[i1] == a[i1]);
        } else if i2 < i1 {
            assert(a[i2] == b[i2]);
        }
    }
    if lex_lt(a, b) {
        let i1 = choose|i: int|
            0 <= i < a.len() && a[i] < b[i] && (forall|j: int| 0 <= j < i ==> a[j] == b[j]);
        assert(a[i1] != b[i1]);
        assert(a != b);
    }
    if lex_lt(b, a) {
        let i2 = choose|i: int|
            0 <= i < b.len() && b[i] < a[i] && (forall|j: int| 0 <= j < i ==> b[j] == a[j]);
        assert(a[i2] != b[i2]);
        assert(a != b);
    }
    if !lex_lt(a, b) && !lex_lt(b, a) && a != b {
        lemma_lex_total(a, b);
    }
}

/// Two distinct sequences of one length are ordered one way or the other.
proof fn lemma_lex_total(a: Seq<u8>, b: Seq<u8>)
    requires
        a.len() == b.len(),
        a != b,
    ensures
        lex_lt(a, b) || lex_lt(b, a),
    decreases a.len(),
{
    if a.len() == 0 {
        assert(a =~= b);
    } else if a[0] != b[0] {
        if a[0] < b[0] {
            assert(lex_lt(a, b)) by {
                assert(0 <= 0 < a.len() && a[0] < b[0] && (forall|j: int|
                    0 <= j < 0 ==> a[j] == b[j]));
            }
        } else {
            assert(lex_lt(b, a)) by {
                assert(0 <= 0 < b.len() && b[0] < a[0] && (forall|j: int|
                    0 <= j < 0 ==> b[j] == a[j]));
            }
        }
    } else {
        let at = a.drop_first();
        let bt = b.drop_first();
        assert(at != bt) by {
            if at == bt {
                assert forall|j: int| 0 <= j < a.len() implies a[j] == b[j] by {
                    if j >= 1 {
                        assert(a[j] == at[j - 1]);
                        assert(b[j] == bt[j - 1]);
                    }
                }
                assert(a =~= b);
            }
        }
        lemma_lex_total(at, bt);
        if lex_lt(at, bt) {
            let i = choose|i: int|
                0 <= i < at.len() && at[i] < bt[i] && (forall|j: int| 0 <= j < i ==> at[j] == bt[j]);
            assert(a[i + 1] < b[i + 1]);
            assert(forall|j: int| 0 <= j < i + 1 ==> a[j] == b[j]) by {
                assert(forall|j: int| 1 <= j < i + 1 ==> a[j] == at[j - 1] && b[j] == bt[j - 1]);
            }
            assert(lex_lt(a, b));
        } else {
            let i = choose|i: int|
                0 <= i < bt.len() && bt[i] < at[i] && (forall|j: int| 0 <= j < i ==> bt[j] == at[j]);
            assert(b[i + 1] < a[i + 1]);
            assert(forall|j: int| 0 <= j < i + 1 ==> b[j] == a[j]) by {
                assert(forall|j: int| 1 <= j < i + 1 ==> b[j] == bt[j - 1] && a[j] == at[j - 1]);
            }
            assert(lex_lt(b, a));
        }
    }
}

/// Decides whether `a` is lexicographically smaller than `b`.
pub fn lex_less(a: &Vec<u8>, b: &Vec<u8>) -> (r: bool)
    requires
        a@.len() == b@.len(),
    ensures
        r == lex_lt(a@, b@),
{
    let n = a.len();
    let mut i: usize = 0;
    while i < n
        invariant
            i <= n,
            n == a@.len() == b@.len(),
            forall|j: int| 0 <= j < i ==> a@[j] == b@[j],
        decreases n - i,
    {
        if a[i] < b[i] {
            assert(lex_lt(a@, b@));
            return true;
        }
        if a[i] > b[i] {
            assert(!lex_lt(a@, b@)) by {
                lemma_lex_trichotomy(a@, b@);
                assert(lex_lt(b@, a@));
            }
            return false;
        }
        i = i + 1;
    }
    assert(a@ =~= b@);
    proof {
        lemma_lex_trichotomy(a@, b@);
    }
    false
}

} // verus!
