use seq_kernels::grid::build_grid;

#[test]
fn grid_nucleotide_rows() {
    let g = build_grid(b"atgAAATAG", 0, 6, 2, false, 0);
    assert_eq!(g.len(), 2);
    assert_eq!((g[0].row, g[0].start, g[0].end), (0, 0, 6));
    assert_eq!((g[1].row, g[1].start, g[1].end), (1, 6, 9));
    let bases: Vec<u8> = g[0].bases.iter().map(|c| c.base).collect();
    assert_eq!(bases, b"ATGAAA".to_vec());
    let phases: Vec<u8> = g[0].bases.iter().map(|c| c.phase).collect();
    assert_eq!(phases, vec![0, 1, 2, 0, 1, 2]);
    assert!(g[0].bases[0].is_start);
    assert!(!g[0].bases[3].is_start && !g[0].bases[3].is_stop);
    assert!(g[1].bases[0].is_stop);
    assert!(g[0].codons.is_empty());
}

#[test]
fn grid_amino_rows() {
    let g = build_grid(b"ATGAAATAG", 0, 6, 5, true, 0);
    assert_eq!(g.len(), 2);
    let aas: Vec<u8> = g[0].codons.iter().map(|c| c.amino_acid).collect();
    assert_eq!(aas, b"MK".to_vec());
    assert_eq!(g[0].codons[1].pos, 3);
    assert_eq!((g[0].codons[1].b0, g[0].codons[1].b1, g[0].codons[1].b2), (b'A', b'A', b'A'));
    assert_eq!(g[1].codons.len(), 1);
    assert!(g[1].codons[0].is_stop);
    assert!(g[1].bases.is_empty());
}

#[test]
fn grid_negative_frame() {
    // frame -1 is frame 2: codons start at 2, 5, ...
    let g = build_grid(b"CCATGAAAT", 0, 9, 1, true, -1);
    assert_eq!(g[0].codons.len(), 2);
    assert_eq!(g[0].codons[0].pos, 2);
    assert_eq!(g[0].codons[0].amino_acid, b'M');
    let n = build_grid(b"CCATG", 0, 5, 1, false, -1);
    let phases: Vec<u8> = n[0].bases.iter().map(|c| c.phase).collect();
    assert_eq!(phases, vec![1, 2, 0, 1, 2]);
    assert!(n[0].bases[2].is_start);
}

#[test]
fn grid_empty_cases() {
    assert!(build_grid(b"ACGT", 0, 0, 2, false, 0).is_empty());
    assert!(build_grid(b"ACGT", 0, 2, 0, false, 0).is_empty());
    assert!(build_grid(b"ACGT", 4, 2, 2, false, 0).is_empty());
}

#[test]
fn grid_huge_sizes_stop_at_end() {
    let g = build_grid(b"ACGTA", 1, usize::MAX, usize::MAX, false, 0);
    assert_eq!(g.len(), 1);
    assert_eq!((g[0].start, g[0].end), (1, 5));
}
