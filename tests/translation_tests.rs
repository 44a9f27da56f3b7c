use seq_kernels::translation::{codon_to_aa, gc_content_counts, translate_sequence};

#[test]
fn translate_frames() {
    assert_eq!(translate_sequence(b"ATGGCCTAA", 0), b"MA*".to_vec());
    assert_eq!(translate_sequence(b"AATGGCCTAA", 1), b"MA*".to_vec());
    assert_eq!(translate_sequence(b"AAATGGCC", 2), b"MA".to_vec());
    assert_eq!(translate_sequence(b"AAATGGCC", 7), b"MA".to_vec());
}

#[test]
fn translate_short_and_unknown() {
    assert!(translate_sequence(b"AT", 0).is_empty());
    assert!(translate_sequence(b"A", 2).is_empty());
    assert_eq!(translate_sequence(b"ANGatg", 0), b"XM".to_vec());
    assert_eq!(translate_sequence(b"uuu", 0), b"F".to_vec());
}

#[test]
fn codon_table_entries() {
    assert_eq!(codon_to_aa(b'T', b'G', b'G'), b'W');
    assert_eq!(codon_to_aa(b'T', b'G', b'A'), b'*');
    assert_eq!(codon_to_aa(b'a', b'a', b'a'), b'K');
    assert_eq!(codon_to_aa(b'G', b'G', b'G'), b'G');
    assert_eq!(codon_to_aa(b'N', b'G', b'G'), b'X');
}

#[test]
fn gc_content_ignores_ambiguous() {
    let r = gc_content_counts(b"GCgcATNN");
    assert_eq!(r.gc, 4);
    assert_eq!(r.total, 6);
    let e = gc_content_counts(b"NNN");
    assert_eq!((e.gc, e.total), (0, 0));
}
