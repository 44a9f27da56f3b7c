use seq_kernels::encoding::{count_kmers_canonical, encode, minhash_canonical};
use seq_kernels::nucleotide::reverse_complement;
use seq_kernels::sketch::{jaccard, mix_exec};

#[test]
fn encode_keeps_length_and_counts_valid_bases() {
    let e = encode(b"ACGTUacgtuNnRX-");
    assert_eq!(e.length(), 15);
    assert_eq!(e.valid_count(), 10);
    let codes: Vec<u8> = (0..e.length()).map(|i| e.code_at(i)).collect();
    assert_eq!(codes, vec![0, 1, 2, 3, 3, 0, 1, 2, 3, 3, 4, 4, 4, 4, 4]);
}

#[test]
fn encode_empty_input() {
    let e = encode(b"");
    assert_eq!(e.length(), 0);
    assert_eq!(e.valid_count(), 0);
}

#[test]
fn count_kmers_dense_table() {
    let e = encode(b"ACGTA");
    let r = e.count_kmers(2);
    assert_eq!(r.k, 2);
    assert_eq!(r.counts.len(), 16);
    assert_eq!(r.total_valid, 4);
    // AC=1, CG=6, GT=11, TA=12
    assert_eq!(r.counts[1], 1);
    assert_eq!(r.counts[6], 1);
    assert_eq!(r.counts[11], 1);
    assert_eq!(r.counts[12], 1);
    assert_eq!(r.counts.iter().map(|&c| c as u64).sum::<u64>(), 4);
}

#[test]
fn count_kmers_skips_ambiguous_windows() {
    let e = encode(b"ACNGT");
    let r = e.count_kmers(2);
    assert_eq!(r.total_valid, 2);
    assert_eq!(r.counts.iter().map(|&c| c as u64).sum::<u64>(), 2);
    assert_eq!(r.counts[1], 1); // AC
    assert_eq!(r.counts[11], 1); // GT
}

#[test]
fn count_kmers_sum_matches_valid_windows() {
    let seq = b"ACGTTGCANNACGTACGTAGCTAGCTAGGGCTTAAN";
    let e = encode(seq);
    for k in 1..=10usize {
        let r = e.count_kmers(k);
        let sum: u64 = r.counts.iter().map(|&c| c as u64).sum();
        let windows = seq
            .windows(k)
            .filter(|w| w.iter().all(|&b| b != b'N'))
            .count() as u64;
        assert_eq!(sum, r.total_valid);
        assert_eq!(r.total_valid, windows);
    }
}

#[test]
fn count_kmers_out_of_domain_is_empty() {
    let e = encode(b"ACGT");
    for k in [0usize, 11, 5] {
        let r = e.count_kmers(k);
        assert!(r.counts.is_empty());
        assert_eq!(r.total_valid, 0);
        assert_eq!(r.k, k);
    }
}

#[test]
fn canonical_counts_are_strand_symmetric() {
    let seq = b"ACGGTCATTGACNNAGGCTTACG";
    let rc = reverse_complement(seq);
    for k in 1..=6usize {
        let a = count_kmers_canonical(seq, k);
        let b = count_kmers_canonical(&rc, k);
        assert_eq!(a.counts, b.counts);
        assert_eq!(a.total_valid, b.total_valid);
    }
}

#[test]
fn canonical_index_is_smaller_of_strands() {
    // AAC and its reverse complement GTT: index of AAC is 1, of GTT is 47.
    let r = count_kmers_canonical(b"GTT", 3);
    assert_eq!(r.counts[1], 1);
    assert_eq!(r.counts[47], 0);
}

#[test]
fn reverse_complement_handles_iupac_and_case() {
    assert_eq!(reverse_complement(b"ACGTN"), b"NACGT".to_vec());
    assert_eq!(reverse_complement(b"acgu"), b"acgt".to_vec());
    assert_eq!(reverse_complement(b"RYKMBVDHSW"), b"WSDHBVKMRY".to_vec());
    assert_eq!(reverse_complement(b"x-"), b"-x".to_vec());
}

#[test]
fn minhash_signature_of_identical_sequences_agrees() {
    let e = encode(b"ACGTACGGTTCAGT");
    let s1 = e.minhash(32, 4);
    let s2 = e.minhash(32, 4);
    assert_eq!(s1.signature, s2.signature);
    assert_eq!(s1.total_kmers, 11);
    let j = jaccard(&s1.signature, &s2.signature);
    assert_eq!(j.agreeing, 32);
    assert_eq!(j.slots, 32);
}

#[test]
fn minhash_slot_is_least_hash() {
    let e = encode(b"ACGT");
    let s = e.minhash(3, 4);
    // one window: ACGT has index 0*64 + 1*16 + 2*4 + 3 = 27
    for t in 0..3usize {
        assert_eq!(s.signature[t], mix_exec(t, 27));
    }
}

#[test]
fn minhash_out_of_domain_gives_empty_signature() {
    let e = encode(b"ACGT");
    for k in [0usize, 17, 5] {
        let s = e.minhash(8, k);
        assert_eq!(s.signature, vec![u32::MAX; 8]);
        assert_eq!(s.total_kmers, 0);
    }
}

#[test]
fn jaccard_of_empty_signature_is_zero() {
    let empty = vec![u32::MAX; 4];
    let j = jaccard(&empty, &empty);
    assert_eq!(j.agreeing, 0);
    assert_eq!(j.slots, 4);
}

#[test]
fn jaccard_counts_agreeing_slots() {
    let a = vec![1u32, 2, 3, 4];
    let b = vec![1u32, 5, 3, 6];
    let j = jaccard(&a, &b);
    assert_eq!(j.agreeing, 2);
    assert_eq!(j.slots, 4);
}

#[test]
fn jaccard_of_disjoint_kmer_sets_is_near_zero() {
    let a = encode(b"AAAAAAAAAAAAAAAAAAAAAAAAAAAAAAAAAAAAAAAAAAAAAAAAAAAAAAAAAAAACCCCCCCCCCCCCCCCCCCCCCCCCCCCCCCC");
    let b = encode(b"GGGGGGGGGGGGGGGGGGGGGGGGGGGGGGGGGGGGGGGGTTTTTTTTTTTTTTTTTTTTTTTTTTTTTTTTGTGTGTGTGTGTGTGTGTGT");
    let sa = a.minhash(128, 8);
    let sb = b.minhash(128, 8);
    let j = jaccard(&sa.signature, &sb.signature);
    assert_eq!(j.slots, 128);
    assert!((j.agreeing as f64) / (j.slots as f64) < 0.05);
}

#[test]
fn minhash_canonical_is_strand_symmetric() {
    let seq = b"ACGGTCATTGACAGGCTTACG";
    let rc = reverse_complement(seq);
    let a = minhash_canonical(seq, 5, 16);
    let b = minhash_canonical(&rc, 5, 16);
    assert_eq!(a.signature, b.signature);
    assert_eq!(a.total_kmers, b.total_kmers);
}

#[test]
fn sketches_are_deterministic() {
    let seq = b"TTGACCGATNNACGGATCAGGCATTTACG";
    let first = encode(seq).minhash(64, 7);
    let second = encode(seq).minhash(64, 7);
    assert_eq!(first.signature, second.signature);
    let c1 = count_kmers_canonical(seq, 5);
    let c2 = count_kmers_canonical(seq, 5);
    assert_eq!(c1.counts, c2.counts);
}

#[test]
fn gc_skew_windows() {
    let e = encode(b"GGGCCATGCG");
    let w = e.gc_skew(4, 2);
    // windows: GGGC, GCCA, CATG, TGCG
    assert_eq!(w.len(), 4);
    assert_eq!((w[0].g, w[0].c), (3, 1));
    assert_eq!((w[1].g, w[1].c), (1, 2));
    assert_eq!((w[2].g, w[2].c), (1, 1));
    assert_eq!((w[3].g, w[3].c), (2, 1));
}

#[test]
fn gc_skew_with_step_larger_than_window() {
    let e = encode(b"GGCCAAGGTT");
    let w = e.gc_skew(2, 3);
    // windows at 0, 3, 6: GG, CA, GG
    assert_eq!(w.len(), 3);
    assert_eq!((w[0].g, w[0].c), (2, 0));
    assert_eq!((w[1].g, w[1].c), (0, 1));
    assert_eq!((w[2].g, w[2].c), (2, 0));
}

#[test]
fn gc_skew_out_of_domain_is_empty() {
    let e = encode(b"GGCC");
    assert!(e.gc_skew(0, 1).is_empty());
    assert!(e.gc_skew(2, 0).is_empty());
    assert!(e.gc_skew(5, 1).is_empty());
}

#[test]
fn cumulative_gc_skew_per_base() {
    let e = encode(b"GCCgN");
    let c = e.cumulative_gc_skew();
    let pairs: Vec<(usize, usize)> = c.iter().map(|x| (x.g, x.c)).collect();
    assert_eq!(pairs, vec![(1, 0), (1, 1), (1, 2), (2, 2), (2, 2)]);
}

#[test]
fn dot_plot_self_counts() {
    let e = encode(b"AACCGGTT");
    let p = e.dot_plot_self(2, 4);
    assert_eq!(p.direct.len(), 2);
    // windows AACC (0) and GGTT (4)
    assert_eq!(p.direct[0][0], 4);
    assert_eq!(p.direct[1][1], 4);
    assert_eq!(p.direct[0][1], 0);
    assert_eq!(p.direct[1][0], 0);
    // reverse complement of GGTT is AACC
    assert_eq!(p.inverted[0][1], 4);
    assert_eq!(p.inverted[1][0], 4);
    // reverse complement of AACC is GGTT
    assert_eq!(p.inverted[0][0], 0);
}

#[test]
fn dot_plot_ambiguous_never_matches() {
    let e = encode(b"NNNN");
    let p = e.dot_plot_self(1, 4);
    assert_eq!(p.direct[0][0], 0);
    assert_eq!(p.inverted[0][0], 0);
}

#[test]
fn dot_plot_out_of_domain_is_empty() {
    let e = encode(b"ACGT");
    assert!(e.dot_plot_self(0, 2).direct.is_empty());
    assert!(e.dot_plot_self(2, 0).direct.is_empty());
    assert!(e.dot_plot_self(2, 5).inverted.is_empty());
}

#[test]
fn count_kmers_largest_k() {
    let e = encode(b"TTTTTTTTTT");
    let r = e.count_kmers(10);
    assert_eq!(r.counts.len(), 1 << 20);
    assert_eq!(r.counts[(1 << 20) - 1], 1);
    assert_eq!(r.total_valid, 1);
}

#[test]
fn minhash_largest_k() {
    let e = encode(b"TTTTTTTTTTTTTTTT");
    let s = e.minhash(2, 16);
    assert_eq!(s.total_kmers, 1);
    assert_eq!(s.signature[0], mix_exec(0, u32::MAX));
    assert_eq!(s.signature[1], mix_exec(1, u32::MAX));
}

#[test]
fn mix_depends_on_seed_and_index() {
    assert_ne!(mix_exec(0, 27), mix_exec(1, 27));
    assert_ne!(mix_exec(0, 27), mix_exec(0, 28));
    assert_eq!(mix_exec(5, 1234), mix_exec(5, 1234));
}
