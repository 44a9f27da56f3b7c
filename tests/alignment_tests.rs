use seq_kernels::alignment::{diff, equal_length_diff, DiffTag, EditOp};

use DiffTag::{Delete, Insert, Match, Mismatch};

#[test]
fn diff_of_identical_sequences() {
    for s in [&b""[..], b"A", b"ACGT", b"acgtACGTuu"] {
        let r = diff(s, s, 0);
        assert!(!r.truncated);
        assert_eq!(r.edit_distance, 0);
        assert_eq!(r.mask_a, vec![Match; s.len()]);
        assert_eq!(r.mask_b, vec![Match; s.len()]);
        assert_eq!(r.matches, s.len());
    }
}

#[test]
fn diff_both_empty() {
    let r = diff(b"", b"", 10);
    assert!(!r.truncated);
    assert_eq!(r.edit_distance, 0);
    assert!(r.mask_a.is_empty() && r.mask_b.is_empty());
}

#[test]
fn diff_first_empty_is_all_insertions() {
    let r = diff(b"", b"ACGT", 10);
    assert!(!r.truncated);
    assert_eq!(r.edit_distance, 4);
    assert_eq!(r.insertions, 4);
    assert_eq!(r.mask_b, vec![Insert; 4]);
    assert!(r.mask_a.is_empty());
}

#[test]
fn diff_second_empty_is_all_deletions() {
    let r = diff(b"ACGT", b"", 10);
    assert!(!r.truncated);
    assert_eq!(r.edit_distance, 4);
    assert_eq!(r.deletions, 4);
    assert_eq!(r.mask_a, vec![Delete; 4]);
    assert!(r.mask_b.is_empty());
}

#[test]
fn diff_single_insertion() {
    let r = diff(b"ACGT", b"ACGGT", 10);
    assert!(!r.truncated);
    assert_eq!(r.edit_distance, 1);
    assert_eq!(r.insertions, 1);
    assert_eq!(r.deletions, 0);
    assert_eq!(r.matches, 4);
    assert_eq!(r.mask_b, vec![Match, Match, Match, Insert, Match]);
    assert_eq!(r.mask_a, vec![Match; 4]);
    assert_eq!(
        r.script,
        vec![EditOp::Match, EditOp::Match, EditOp::Match, EditOp::Insert, EditOp::Match]
    );
}

#[test]
fn diff_substitution_costs_two() {
    let r = diff(b"ACGT", b"ACCT", 10);
    assert!(!r.truncated);
    assert_eq!(r.edit_distance, 2);
    assert_eq!(r.insertions, 1);
    assert_eq!(r.deletions, 1);
    assert_eq!(r.matches, 3);
}

#[test]
fn diff_is_case_insensitive_and_reads_u_as_t() {
    let r = diff(b"acgu", b"ACGT", 0);
    assert!(!r.truncated);
    assert_eq!(r.edit_distance, 0);
}

#[test]
fn diff_ambiguous_never_matches() {
    let r = diff(b"N", b"N", 5);
    assert!(!r.truncated);
    assert_eq!(r.edit_distance, 2);
    assert_eq!(r.mask_a, vec![Delete]);
    assert_eq!(r.mask_b, vec![Insert]);
}

#[test]
fn diff_budget_exceeded_is_truncated() {
    let a = vec![b'A'; 100];
    let b = vec![b'C'; 100];
    let r = diff(&a, &b, 10);
    assert!(r.truncated);
    assert!(r.error.as_ref().map_or(false, |e| !e.is_empty()));
    assert!(r.mask_a.is_empty() && r.mask_b.is_empty());
}

#[test]
fn diff_length_gap_over_budget_is_truncated() {
    let r = diff(b"ACGTACGT", b"A", 3);
    assert!(r.truncated);
    assert!(r.error.is_some());
}

#[test]
fn diff_within_budget_finishes() {
    let r = diff(b"ACGTACGT", b"ACGACGTT", 2);
    assert!(!r.truncated);
    assert_eq!(r.edit_distance, 2);
    assert_eq!(r.mask_a.len(), 8);
    assert_eq!(r.mask_b.len(), 8);
}

#[test]
fn diff_script_reconstructs_second_sequence() {
    let a = b"GATTACAGATTACA";
    let b = b"GCATTACATTAGCA";
    let r = diff(a, b, 20);
    assert!(!r.truncated);
    let (mut i, mut j) = (0usize, 0usize);
    let mut built = Vec::new();
    for op in &r.script {
        match op {
            EditOp::Match => {
                assert_eq!(a[i], b[j]);
                built.push(a[i]);
                i += 1;
                j += 1;
            }
            EditOp::Delete => i += 1,
            EditOp::Insert => {
                built.push(b[j]);
                j += 1;
            }
        }
    }
    assert_eq!(i, a.len());
    assert_eq!(built, b.to_vec());
    assert_eq!(r.edit_distance, r.insertions + r.deletions);
}

#[test]
fn diff_is_deterministic() {
    let a = b"ACGTTGCAACGT";
    let b = b"ACGTGCATACGA";
    let r1 = diff(a, b, 50);
    let r2 = diff(a, b, 50);
    assert_eq!(r1.script, r2.script);
    assert_eq!(r1.mask_a, r2.mask_a);
    assert_eq!(r1.mask_b, r2.mask_b);
}

#[test]
fn equal_length_diff_one_mismatch() {
    let r = equal_length_diff(b"ACGT", b"ACCT");
    assert!(!r.truncated);
    assert_eq!(r.edit_distance, 1);
    assert_eq!(r.mismatches, 1);
    assert_eq!(r.matches, 3);
    assert_eq!(r.mask_a, vec![Match, Match, Mismatch, Match]);
    assert_eq!(r.mask_b, vec![Match, Match, Mismatch, Match]);
}

#[test]
fn equal_length_diff_rejects_unequal_lengths() {
    let r = equal_length_diff(b"ACGT", b"ACG");
    assert!(r.truncated);
    assert!(r.error.as_ref().map_or(false, |e| !e.is_empty()));
}

#[test]
fn equal_length_diff_ambiguous_is_mismatch() {
    let r = equal_length_diff(b"NA", b"NA");
    assert_eq!(r.mask_a, vec![Mismatch, Match]);
    assert_eq!(r.mismatches, 1);
}

#[test]
fn diff_table_ceiling_is_truncated() {
    let a = vec![b'A'; 4100];
    let b = vec![b'C'; 4100];
    let r = diff(&a, &b, 100_000);
    assert!(r.truncated);
    assert!(r.error.is_some());
    assert_eq!(r.edit_distance, 0);
}

#[test]
fn diff_one_empty_over_budget_is_truncated() {
    let r = diff(b"", b"ACGT", 3);
    assert!(r.truncated);
    let ok = diff(b"ACGT", b"", 4);
    assert!(!ok.truncated);
    assert_eq!(ok.script, vec![EditOp::Delete; 4]);
}

#[test]
fn diff_long_identical_sequences_take_the_fast_path() {
    let a = vec![b'G'; 5000];
    let r = diff(&a, &a, 0);
    assert!(!r.truncated);
    assert_eq!(r.matches, 5000);
}
