use seq_kernels::levenshtein::levenshtein_distance;
use seq_kernels::repeats::{detect_palindromes, detect_tandem_repeats, is_complement, Palindrome, TandemRepeat};
use seq_kernels::translation::count_codon_usage;

fn pals(seq: &str, min_len: usize, max_gap: usize) -> Vec<(usize, usize, usize, usize)> {
    detect_palindromes(seq.as_bytes(), min_len, max_gap)
        .iter()
        .map(|p: &Palindrome| (p.start, p.end, p.arm_length, p.gap))
        .collect()
}

fn tandems(seq: &str, min_unit: usize, max_unit: usize, min_copies: usize) -> Vec<(usize, usize, usize, usize)> {
    detect_tandem_repeats(seq.as_bytes(), min_unit, max_unit, min_copies)
        .iter()
        .map(|t: &TandemRepeat| (t.start, t.end, t.unit_length, t.copies))
        .collect()
}

fn chars(s: &str) -> Vec<char> {
    s.chars().collect()
}

#[test]
fn palindrome_without_gap() {
    assert_eq!(pals("GAATTC", 3, 0), vec![(0, 6, 3, 0)]);
    assert_eq!(pals("AAGAATTCTT", 3, 0), vec![(0, 10, 5, 0)]);
}

#[test]
fn palindrome_with_gap() {
    assert_eq!(pals("GCAAAAGC", 2, 4), vec![(0, 8, 2, 4)]);
    assert_eq!(
        pals("ttGCAAAAGCaa", 2, 5),
        vec![
            (0, 6, 3, 0),
            (0, 6, 3, 1),
            (0, 6, 2, 2),
            (0, 6, 2, 3),
            (0, 8, 2, 4),
            (0, 8, 2, 5),
            (0, 12, 4, 4),
            (0, 12, 4, 5)
        ]
    );
}

#[test]
fn palindrome_short_input() {
    assert_eq!(pals("ACGT", 2, 0), vec![(0, 4, 2, 0)]);
    assert!(pals("AC", 2, 0).is_empty());
    assert!(pals("GAATTC", 4, 0).is_empty());
}

#[test]
fn palindrome_huge_gap_terminates() {
    assert_eq!(pals("GCAAAAGC", 2, usize::MAX), vec![(0, 8, 2, 4), (0, 8, 2, 5)]);
}

#[test]
fn complement_pairs() {
    assert!(is_complement(b'A', b't'));
    assert!(is_complement(b'u', b'A'));
    assert!(is_complement(b'G', b'C'));
    assert!(!is_complement(b'G', b'T'));
    assert!(!is_complement(b'N', b'N'));
}

#[test]
fn tandem_repeats_found() {
    assert_eq!(tandems("ACACAC", 2, 2, 3), vec![(0, 6, 2, 3)]);
    assert_eq!(
        tandems("ATATATgcgc", 1, 2, 2),
        vec![(0, 6, 2, 3), (1, 5, 2, 2), (2, 6, 2, 2), (6, 10, 2, 2)]
    );
    assert_eq!(
        tandems("CAGCAGCAGtt", 3, 3, 2),
        vec![(0, 9, 3, 3), (1, 7, 3, 2), (2, 8, 3, 2), (3, 9, 3, 2)]
    );
}

#[test]
fn tandem_repeats_ignore_case() {
    assert_eq!(tandems("aaAA", 1, 1, 4), vec![(0, 4, 1, 4)]);
}

#[test]
fn tandem_repeats_too_short() {
    assert!(tandems("ACAC", 2, 2, 3).is_empty());
}

#[test]
fn levenshtein_examples() {
    assert_eq!(levenshtein_distance(&chars("kitten"), &chars("sitting")), 3);
    assert_eq!(levenshtein_distance(&chars(""), &chars("abc")), 3);
    assert_eq!(levenshtein_distance(&chars("abc"), &chars("")), 3);
    assert_eq!(levenshtein_distance(&chars("flaw"), &chars("lawn")), 2);
    assert_eq!(levenshtein_distance(&chars("abcdef"), &chars("az")), 5);
    assert_eq!(levenshtein_distance(&chars("az"), &chars("abcdef")), 5);
    assert_eq!(levenshtein_distance(&chars("same"), &chars("same")), 0);
}

#[test]
fn codon_usage_counts() {
    let t = count_codon_usage(b"ATGatgTTTATGx", 0);
    let v: Vec<((u8, u8, u8), usize)> = t.iter().map(|c| (c.codon, c.count)).collect();
    assert_eq!(v, vec![((b'A', b'T', b'G'), 3), ((b'T', b'T', b'T'), 1)]);
    let f1 = count_codon_usage(b"AATGA", 1);
    assert_eq!(f1.len(), 1);
    assert_eq!(f1[0].codon, (b'A', b'T', b'G'));
    assert!(count_codon_usage(b"AT", 0).is_empty());
}
