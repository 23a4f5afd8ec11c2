//! Verified k-mer counting for DNA sequences.
//!
//! The library counts the fixed-length substrings ("k-mers") of a DNA
//! sequence, optionally collapsing each k-mer to its canonical strand
//! representation (the lexicographically smaller of the k-mer and its
//! reverse complement).  Windows containing a base other than `A`, `C`,
//! `G` or `T` are skipped.  Counts are exact integers; callers that want
//! relative frequencies divide each count by the reported total.
#![verifier::loop_isolation(false)]

pub mod bases;
pub mod count;
pub mod laws;
pub mod order;
pub mod table;
pub mod windows;
