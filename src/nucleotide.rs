//! Nucleotide codes: A, C, G, T as 0..=3 and everything else as ambiguous.
use vstd::prelude::*;

verus! {

/// Code of an adenine.
pub const CODE_A: u8 = 0;
/// Code of a cytosine.
pub const CODE_C: u8 = 1;
/// Code of a guanine.
pub const CODE_G: u8 = 2;
/// Code of a thymine (or uracil).
pub const CODE_T: u8 = 3;
/// Code of any byte that is not a nucleotide letter.
pub const AMBIGUOUS: u8 = 4;

/// The code of a byte: case-insensitive, with U read as T.
pub open spec fn code_of(b: u8) -> u8 {
    if b == 0x41 || b == 0x61 {
        CODE_A
    } else if b == 0x43 || b == 0x63 {
        CODE_C
    } else if b == 0x47 || b == 0x67 {
        CODE_G
    } else if b == 0x54 || b == 0x74 || b == 0x55 || b == 0x75 {
        CODE_T
    } else {
        AMBIGUOUS
    }
}

/// The code of the complementary base; ambiguous stays ambiguous.
pub open spec fn complement_code(c: u8) -> u8 {
    if c < 4 { (3 - c) as u8 } else { AMBIGUOUS }
}

/// Two codes are equal bases: ambiguous equals nothing, not even itself.
pub open spec fn same_base(x: u8, y: u8) -> bool {
    x == y && x < 4
}

/// The complement of a byte, case kept: A and T swap (U goes to A), C and
/// G swap, and the IUPAC ambiguity letters go to their complements (R and
/// Y, K and M, B and V, D and H swap; N, S and W stay). Other bytes stay.
pub open spec fn complement_byte(b: u8) -> u8 {
    if b == 0x41 { 0x54 }  // A -> T
    else if b == 0x54 { 0x41 }  // T -> A
    else if b == 0x47 { 0x43 }  // G -> C
    else if b == 0x43 { 0x47 }  // C -> G
    else if b == 0x61 { 0x74 }  // a -> t
    else if b == 0x74 { 0x61 }  // t -> a
    else if b == 0x67 { 0x63 }  // g -> c
    else if b == 0x63 { 0x67 }  // c -> g
    else if b == 0x52 { 0x59 }  // R -> Y
    else if b == 0x72 { 0x79 }  // r -> y
    else if b == 0x59 { 0x52 }  // Y -> R
    else if b == 0x79 { 0x72 }  // y -> r
    else if b == 0x4b { 0x4d }  // K -> M
    else if b == 0x6b { 0x6d }  // k -> m
    else if b == 0x4d { 0x4b }  // M -> K
    else if b == 0x6d { 0x6b }  // m -> k
    else if b == 0x42 { 0x56 }  // B -> V
    else if b == 0x62 { 0x76 }  // b -> v
    else if b == 0x56 { 0x42 }  // V -> B
    else if b == 0x76 { 0x62 }  // v -> b
    else if b == 0x44 { 0x48 }  // D -> H
    else if b == 0x64 { 0x68 }  // d -> h
    else if b == 0x48 { 0x44 }  // H -> D
    else if b == 0x68 { 0x64 }  // h -> d
    else if b == 0x55 { 0x41 }  // U -> A
    else if b == 0x75 { 0x61 }  // u -> a
    else { b }
}

/// The reverse complement of a byte sequence.
pub open spec fn reverse_complement_of(s: Seq<u8>) -> Seq<u8> {
    Seq::new(s.len(), |i: int| complement_byte(s[s.len() - 1 - i]))
}

/// Complementing a byte complements its code.
pub proof fn lemma_complement_code(b: u8)
    ensures
        code_of(complement_byte(b)) == complement_code(code_of(b)),
{
}

/// Maps a byte to its complement.
pub fn complement(b: u8) -> (r: u8)
    ensures
        r == complement_byte(b),
{
    match b {
        0x41 => 0x54,
        0x54 => 0x41,
        0x47 => 0x43,
        0x43 => 0x47,
        0x61 => 0x74,
        0x74 => 0x61,
        0x67 => 0x63,
        0x63 => 0x67,
        0x52 => 0x59,
        0x72 => 0x79,
        0x59 => 0x52,
        0x79 => 0x72,
        0x4b => 0x4d,
        0x6b => 0x6d,
        0x4d => 0x4b,
        0x6d => 0x6b,
        0x42 => 0x56,
        0x62 => 0x76,
        0x56 => 0x42,
        0x76 => 0x62,
        0x44 => 0x48,
        0x64 => 0x68,
        0x48 => 0x44,
        0x68 => 0x64,
        0x55 => 0x41,
        0x75 => 0x61,
        other => other,
    }
}

/// The reverse complement of a DNA sequence, case kept, ambiguity letters
/// complemented and other bytes left as they are.
pub fn reverse_complement(seq: &[u8]) -> (r: Vec<u8>)
    ensures
        r@ == reverse_complement_of(seq@),
{
    let n = seq.len();
    let mut out: Vec<u8> = Vec::new();
    let mut i: usize = 0;
    while i < n
        invariant
            n == seq@.len(),
            i <= n,
            out@ =~= reverse_complement_of(seq@).subrange(0, i as int),
        decreases n - i,
    {
        out.push(complement(seq[n - 1 - i]));
        i = i + 1;
    }
    proof {
        assert(reverse_complement_of(seq@).subrange(0, n as int) =~= reverse_complement_of(seq@));
    }
    out
}

/// Maps a byte to its nucleotide code.
pub fn encode_base(b: u8) -> (r: u8)
    ensures
        r == code_of(b),
        r <= 4,
{
    match b {
        0x41 | 0x61 => CODE_A,
        0x43 | 0x63 => CODE_C,
        0x47 | 0x67 => CODE_G,
        0x54 | 0x74 | 0x55 | 0x75 => CODE_T,
        _ => AMBIGUOUS,
    }
}

/// Whether two bytes stand for the same unambiguous base.
pub fn bases_equal(x: u8, y: u8) -> (r: bool)
    ensures
        r == same_base(code_of(x), code_of(y)),
{
    let cx = encode_base(x);
    let cy = encode_base(y);
    cx == cy && cx < 4
}

} // verus!
