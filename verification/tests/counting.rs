use kcounter::count::{count_kmers, KmerCounts, KmerError};

fn lookup(counts: &KmerCounts, key: &str) -> Option<u64> {
    for e in counts.entries.iter() {
        if e.kmer == key {
            return Some(e.count);
        }
    }
    None
}

fn sum_counts(counts: &KmerCounts) -> u64 {
    let mut s: u64 = 0;
    for e in counts.entries.iter() {
        s += e.count;
    }
    s
}

#[test]
fn forward_counts_scenario() {
    let r = count_kmers("AAACTTTTTT", 3, false).unwrap();
    assert_eq!(r.entries.len(), 5);
    assert_eq!(lookup(&r, "ACT"), Some(1));
    assert_eq!(lookup(&r, "AAA"), Some(1));
    assert_eq!(lookup(&r, "TTT"), Some(4));
    assert_eq!(lookup(&r, "CTT"), Some(1));
    assert_eq!(lookup(&r, "AAC"), Some(1));
    assert_eq!(r.total, 8);
}

#[test]
fn canonical_counts_scenario() {
    let r = count_kmers("AAACTTTTTT", 3, true).unwrap();
    assert_eq!(r.entries.len(), 4);
    assert_eq!(lookup(&r, "ACT"), Some(1));
    assert_eq!(lookup(&r, "AAA"), Some(5));
    assert_eq!(lookup(&r, "AAC"), Some(1));
    assert_eq!(lookup(&r, "AAG"), Some(1));
    assert_eq!(r.total, 8);
}

#[test]
fn relative_frequencies_scenario() {
    let r = count_kmers("AAACTTTTTT", 3, false).unwrap();
    assert_eq!(r.total, 8);
    let ttt = lookup(&r, "TTT").unwrap() as f64 / r.total as f64;
    let aaa = lookup(&r, "AAA").unwrap() as f64 / r.total as f64;
    assert!((ttt - 0.5).abs() < 1e-12);
    assert!((aaa - 0.125).abs() < 1e-12);
}

#[test]
fn frequencies_sum_to_one() {
    for (seq, k) in [("AAACTTTTTT", 3), ("ACGTACGTAC", 2), ("AANCTTTTTT", 3), ("ACGT", 4)] {
        for canonical in [false, true] {
            let r = count_kmers(seq, k, canonical).unwrap();
            assert!(r.total > 0);
            let mut s: f64 = 0.0;
            for e in r.entries.iter() {
                s += e.count as f64 / r.total as f64;
            }
            assert!((s - 1.0).abs() < 1e-9);
        }
    }
}

#[test]
fn no_valid_windows_gives_empty_result() {
    let r = count_kmers("NNNNN", 2, false).unwrap();
    assert_eq!(r.entries.len(), 0);
    assert_eq!(r.total, 0);
    let r = count_kmers("ACGT", 5, true).unwrap();
    assert_eq!(r.entries.len(), 0);
    assert_eq!(r.total, 0);
    let r = count_kmers("", 1, false).unwrap();
    assert_eq!(r.entries.len(), 0);
    assert_eq!(r.total, 0);
}

#[test]
fn raw_counts_sum_to_total() {
    for (seq, k) in [("AAACTTTTTT", 3), ("AANCTTTTTT", 3), ("acgtacgt", 1), ("TTTT", 2)] {
        for canonical in [false, true] {
            let r = count_kmers(seq, k, canonical).unwrap();
            assert_eq!(sum_counts(&r), r.total);
        }
    }
}

#[test]
fn case_insensitive() {
    let lower = count_kmers("aaactttttt", 3, false).unwrap();
    let upper = count_kmers("AAACTTTTTT", 3, false).unwrap();
    assert_eq!(lower.total, upper.total);
    assert_eq!(lower.entries.len(), upper.entries.len());
    for e in upper.entries.iter() {
        assert_eq!(lookup(&lower, &e.kmer), Some(e.count));
    }
    let mixed = count_kmers("AaAcTtTtTt", 3, true).unwrap();
    let canon = count_kmers("AAACTTTTTT", 3, true).unwrap();
    assert_eq!(mixed.total, canon.total);
    for e in canon.entries.iter() {
        assert_eq!(lookup(&mixed, &e.kmer), Some(e.count));
    }
}

#[test]
fn k_below_one_is_invalid() {
    for seq in ["AAACTTTTTT", "", "NNN"] {
        assert_eq!(count_kmers(seq, 0, false).unwrap_err(), KmerError::InvalidArgument);
        assert_eq!(count_kmers(seq, -3, true).unwrap_err(), KmerError::InvalidArgument);
    }
    let e = count_kmers("ACGT", 0, false).unwrap_err();
    assert_eq!(e.message(), "'k' must be a positive integer.");
}

#[test]
fn ambiguous_base_excludes_overlapping_windows() {
    let r = count_kmers("AANCTTTTTT", 3, false).unwrap();
    assert_eq!(r.total, 5);
    assert_eq!(lookup(&r, "CTT"), Some(1));
    assert_eq!(lookup(&r, "TTT"), Some(4));
    assert_eq!(lookup(&r, "AAN"), None);
    assert_eq!(lookup(&r, "ANC"), None);
    assert_eq!(lookup(&r, "NCT"), None);
    assert_eq!(r.entries.len(), 2);
}

#[test]
fn canonical_merges_reverse_complements() {
    // merging the forward buckets by hand must reproduce the canonical count
    let fwd = count_kmers("AAACTTTTTT", 3, false).unwrap();
    let canon = count_kmers("AAACTTTTTT", 3, true).unwrap();
    // AAA / TTT are mutual reverse complements: 1 + 4 = 5
    let aaa = lookup(&fwd, "AAA").unwrap() + lookup(&fwd, "TTT").unwrap();
    assert_eq!(lookup(&canon, "AAA"), Some(aaa));
    // CTT folds onto AAG, which never occurs forward
    assert_eq!(lookup(&canon, "AAG"), lookup(&fwd, "CTT"));
    assert_eq!(lookup(&canon, "CTT"), None);
    // rc(ACT) = AGT never occurs forward either, and ACT < AGT keeps ACT
    assert_eq!(lookup(&canon, "ACT"), lookup(&fwd, "ACT"));
}

#[test]
fn palindrome_keeps_forward_form() {
    // rc("ACGT") == "ACGT": the tie resolves to the forward form
    let r = count_kmers("ACGT", 4, true).unwrap();
    assert_eq!(lookup(&r, "ACGT"), Some(1));
    assert_eq!(r.total, 1);
}

#[test]
fn single_base_kmers() {
    let r = count_kmers("GGGCCC", 1, false).unwrap();
    assert_eq!(lookup(&r, "G"), Some(3));
    assert_eq!(lookup(&r, "C"), Some(3));
    assert_eq!(r.total, 6);
    let c = count_kmers("GGGCCC", 1, true).unwrap();
    // rc(G) = C, and C < G, so every window folds onto C
    assert_eq!(lookup(&c, "C"), Some(6));
    assert_eq!(lookup(&c, "G"), None);
    assert_eq!(c.total, 6);
}

#[test]
fn k_equal_to_length() {
    let r = count_kmers("TTAA", 4, false).unwrap();
    assert_eq!(lookup(&r, "TTAA"), Some(1));
    assert_eq!(r.total, 1);
    let c = count_kmers("TTAA", 4, true).unwrap();
    // rc(TTAA) = TTAA reversed-complemented: comp = AATT, reversed = TTAA
    assert_eq!(lookup(&c, "TTAA"), Some(1));
}

#[test]
fn get_finds_exact_keys_only() {
    let r = count_kmers("AAACTTTTTT", 3, false).unwrap();
    assert_eq!(r.get(&String::from("TTT")), Some(4));
    assert_eq!(r.get(&String::from("AAA")), Some(1));
    assert_eq!(r.get(&String::from("ttt")), None);
    assert_eq!(r.get(&String::from("GGG")), None);
    assert_eq!(r.get(&String::from("")), None);
}

#[test]
fn non_letter_bytes_are_skipped() {
    let r = count_kmers("AC GT", 2, false).unwrap();
    assert_eq!(r.total, 2);
    assert_eq!(lookup(&r, "AC"), Some(1));
    assert_eq!(lookup(&r, "GT"), Some(1));
}
