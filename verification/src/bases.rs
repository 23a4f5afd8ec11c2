//! Bases and whole-sequence transformations: upper-casing a byte
//! sequence and taking its reverse complement.

use vstd::prelude::*;

verus! {

/// Byte values of the upper-case bases and of the lower-case ASCII letters.
pub const UPPER_A: u8 = 65;

pub const UPPER_C: u8 = 67;

pub const UPPER_G: u8 = 71;

pub const UPPER_T: u8 = 84;

pub const LOWER_A: u8 = 97;

pub const LOWER_Z: u8 = 122;

/// The four bytes that may appear in a counted k-mer.
pub open spec fn is_base(b: u8) -> bool {
    b == UPPER_A || b == UPPER_C || b == UPPER_G || b == UPPER_T
}

/// Every byte of the sequence is a base.
pub open spec fn all_bases(s: Seq<u8>) -> bool {
    forall|i: int| 0 <= i < s.len() ==> is_base(#[trigger] s[i])
}

/// ASCII upper-casing of a byte; bytes outside `a..=z` are kept.
pub open spec fn upper_byte(b: u8) -> u8 {
    if LOWER_A <= b && b <= LOWER_Z {
        (b - 32) as u8
    } else {
        b
    }
}

/// The complement of a base: `A` pairs with `T` and `C` pairs with `G`.
/// Any other byte is kept unchanged, so a byte that is not a base never
/// complements to a base.
pub open spec fn comp_byte(b: u8) -> u8 {
    if b == UPPER_A {
        UPPER_T
    } else if b == UPPER_T {
        UPPER_A
    } else if b == UPPER_C {
        UPPER_G
    } else if b == UPPER_G {
        UPPER_C
    } else {
        b
    }
}

/// A sequence with every byte upper-cased.
pub open spec fn norm_seq(s: Seq<u8>) -> Seq<u8> {
    s.map_values(|b: u8| upper_byte(b))
}

/// The reverse complement: complement every byte, then reverse the order.
pub open spec fn rc_seq(s: Seq<u8>) -> Seq<u8> {
    Seq::new(s.len(), |i: int| comp_byte(s[s.len() - 1 - i]))
}

/// Upper-casing is idempotent on whole sequences.
pub proof fn lemma_norm_idempotent(s: Seq<u8>)
    ensures
        norm_seq(norm_seq(s)) == norm_seq(s),
{
    assert(norm_seq(norm_seq(s)) =~= norm_seq(s));
}

/// Taking the reverse complement twice gives the sequence back.
pub proof fn lemma_rc_involution(s: Seq<u8>)
    ensures
        rc_seq(rc_seq(s)) == s,
{
    assert(rc_seq(rc_seq(s)) =~= s);
}

/// Upper-cases every byte of a sequence.
pub fn normalize(s: &[u8]) -> (r: Vec<u8>)
    ensures
        r@ == norm_seq(s@),
{
    let n = s.len();
    let mut out: Vec<u8> = Vec::new();
    let mut i: usize = 0;
    while i < n
        invariant
            i <= n,
            out@ =~= norm_seq(s@).take(i as int),
        decreases n - i,
    {
        let b = s[i];
        if LOWER_A <= b && b <= LOWER_Z {
            out.push(b - 32);
        } else {
            out.push(b);
        }
        i = i + 1;
        assert(out@ =~= norm_seq(s@).take(i as int));
    }
    assert(norm_seq(s@).take(n as int) =~= norm_seq(s@));
    out
}

/// Computes the reverse complement of a whole sequence in one pass.
pub fn reverse_complement(s: &Vec<u8>) -> (r: Vec<u8>)
    ensures
        r@ == rc_seq(s@),
{
    let n = s.len();
    let mut out: Vec<u8> = Vec::new();
    let mut i: usize = 0;
    while i < n
        invariant
            i <= n,
            n == s@.len(),
            out@ =~= rc_seq(s@).take(i as int),
        decreases n - i,
    {
        let b = s[n - 1 - i];
        let c: u8 = if b == UPPER_A {
            UPPER_T
        } else if b == UPPER_T {
            UPPER_A
        } else if b == UPPER_C {
            UPPER_G
        } else if b == UPPER_G {
            UPPER_C
        } else {
            b
        };
        out.push(c);
        i = i + 1;
        assert(out@ =~= rc_seq(s@).take(i as int));
    }
    assert(rc_seq(s@).take(n as int) =~= rc_seq(s@));
    out
}

} // verus!
