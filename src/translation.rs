//! Translation of DNA codons into amino acids, and base composition.
use vstd::prelude::*;
use crate::nucleotide::{code_of, encode_base};
use crate::repeats::upper;

verus! {

/// The standard genetic code (translation table 1), indexed by
/// `16 * first + 4 * second + third` over the codes A=0, C=1, G=2, T=3,
/// as one-letter amino acid codes with `*` for stop.
pub open spec fn codon_table() -> Seq<u8> {
    seq![
        0x4b, 0x4e, 0x4b, 0x4e, 0x54, 0x54, 0x54, 0x54, 0x52, 0x53, 0x52, 0x53, 0x49, 0x49, 0x4d, 0x49,
        0x51, 0x48, 0x51, 0x48, 0x50, 0x50, 0x50, 0x50, 0x52, 0x52, 0x52, 0x52, 0x4c, 0x4c, 0x4c, 0x4c,
        0x45, 0x44, 0x45, 0x44, 0x41, 0x41, 0x41, 0x41, 0x47, 0x47, 0x47, 0x47, 0x56, 0x56, 0x56, 0x56,
        0x2a, 0x59, 0x2a, 0x59, 0x53, 0x53, 0x53, 0x53, 0x2a, 0x43, 0x57, 0x43, 0x4c, 0x46, 0x4c, 0x46,
    ]
}

/// Amino acid of unknown codons.
pub const UNKNOWN_AMINO_ACID: u8 = 0x58;

/// The amino acid of a codon: `X` when a base is not a nucleotide letter.
pub open spec fn amino_acid(b0: u8, b1: u8, b2: u8) -> u8 {
    let (c0, c1, c2) = (code_of(b0), code_of(b1), code_of(b2));
    if c0 < 4 && c1 < 4 && c2 < 4 {
        codon_table()[16 * c0 + 4 * c1 + c2]
    } else {
        UNKNOWN_AMINO_ACID
    }
}

/// Translates one codon.
pub fn codon_to_aa(b0: u8, b1: u8, b2: u8) -> (r: u8)
    ensures
        r == amino_acid(b0, b1, b2),
{
    let e0 = encode_base(b0);
    let e1 = encode_base(b1);
    let e2 = encode_base(b2);
    if e0 >= 4 || e1 >= 4 || e2 >= 4 {
        return UNKNOWN_AMINO_ACID;
    }
    let table: [u8; 64] = [
        0x4b, 0x4e, 0x4b, 0x4e, 0x54, 0x54, 0x54, 0x54, 0x52, 0x53, 0x52, 0x53, 0x49, 0x49, 0x4d, 0x49,
        0x51, 0x48, 0x51, 0x48, 0x50, 0x50, 0x50, 0x50, 0x52, 0x52, 0x52, 0x52, 0x4c, 0x4c, 0x4c, 0x4c,
        0x45, 0x44, 0x45, 0x44, 0x41, 0x41, 0x41, 0x41, 0x47, 0x47, 0x47, 0x47, 0x56, 0x56, 0x56, 0x56,
        0x2a, 0x59, 0x2a, 0x59, 0x53, 0x53, 0x53, 0x53, 0x2a, 0x43, 0x57, 0x43, 0x4c, 0x46, 0x4c, 0x46,
    ];
    proof {
        assert(table@ =~= codon_table());
    }
    let idx = 16 * (e0 as usize) + 4 * (e1 as usize) + (e2 as usize);
    table[idx]
}

/// The reading frame actually used: 0, 1 or 2, larger frames read as 2.
pub open spec fn frame_offset(frame: u8) -> nat {
    if frame <= 2 { frame as nat } else { 2 }
}

/// Number of whole codons in a sequence of `n` bases from offset `f`.
pub open spec fn codon_count(n: nat, f: nat) -> nat {
    if n >= f { ((n - f) as nat / 3) as nat } else { 0 }
}

/// Translates a DNA sequence in the given reading frame (0, 1 or 2; larger
/// frames read as 2). Codons holding a base that is not a nucleotide letter
/// become `X`; a trailing partial codon is dropped.
pub fn translate_sequence(seq: &[u8], frame: u8) -> (r: Vec<u8>)
    ensures
        r@.len() == codon_count(seq@.len(), frame_offset(frame)),
        forall|q: int|
            0 <= q < r@.len() ==> {
                let p = frame_offset(frame) + 3 * q;
                #[trigger] r@[q] == amino_acid(seq@[p], seq@[p + 1], seq@[p + 2])
            },
{
    let f: usize = if frame <= 2 { frame as usize } else { 2 };
    let n = seq.len();
    let mut out: Vec<u8> = Vec::new();
    if n < f {
        return out;
    }
    let count = (n - f) / 3;
    let mut q: usize = 0;
    while q < count
        invariant
            n == seq@.len(),
            f == frame_offset(frame),
            f <= n,
            count == (n - f) as nat / 3,
            q <= count,
            out@.len() == q,
            forall|qq: int|
                0 <= qq < q ==> {
                    let p = f + 3 * qq;
                    #[trigger] out@[qq] == amino_acid(seq@[p], seq@[p + 1], seq@[p + 2])
                },
        decreases count - q,
    {
        let p = f + 3 * q;
        out.push(codon_to_aa(seq[p], seq[p + 1], seq[p + 2]));
        q = q + 1;
    }
    out
}

/// Number of bytes below `upto` that are G or C, in either case.
pub open spec fn gc_bases(s: Seq<u8>, upto: nat) -> nat
    decreases upto,
{
    if upto == 0 {
        0
    } else {
        gc_bases(s, (upto - 1) as nat) + if code_of(s[upto - 1]) == 1 || code_of(s[upto - 1]) == 2 {
            1nat
        } else {
            0nat
        }
    }
}

/// Number of bytes below `upto` that are A, C, G, T or U, in either case.
pub open spec fn acgtu_bases(s: Seq<u8>, upto: nat) -> nat
    decreases upto,
{
    if upto == 0 {
        0
    } else {
        acgtu_bases(s, (upto - 1) as nat) + if code_of(s[upto - 1]) < 4 { 1nat } else { 0nat }
    }
}

/// Counts of a GC content: `gc` of `total` unambiguous bases. The GC
/// percentage is `100 * gc / total`, and 0 when `total` is 0.
#[derive(Clone, Copy, PartialEq, Eq, Structural, Debug)]
pub struct GcContent {
    pub gc: u64,
    pub total: u64,
}

/// Counts the G and C bases and all unambiguous bases; ambiguity codes
/// count in neither.
pub fn gc_content_counts(seq: &[u8]) -> (r: GcContent)
    ensures
        r.gc == gc_bases(seq@, seq@.len()),
        r.total == acgtu_bases(seq@, seq@.len()),
{
    let mut gc: u64 = 0;
    let mut total: u64 = 0;
    let mut i: usize = 0;
    while i < seq.len()
        invariant
            i <= seq@.len(),
            gc == gc_bases(seq@, i as nat),
            total == acgtu_bases(seq@, i as nat),
            gc <= total <= i,
        decreases seq@.len() - i,
    {
        let c = encode_base(seq[i]);
        if c == 1 || c == 2 {
            gc = gc + 1;
        }
        if c < 4 {
            total = total + 1;
        }
        i = i + 1;
    }
    GcContent { gc, total }
}

/// The codon `q` of the reading frame at offset `f`, in upper case.
pub open spec fn codon_at(s: Seq<u8>, f: nat, q: nat) -> (u8, u8, u8) {
    let p = (f + 3 * q) as int;
    (upper(s[p]), upper(s[p + 1]), upper(s[p + 2]))
}

/// Number of codons among the first `upto` of the frame that equal `c`.
pub open spec fn codon_occurrences(s: Seq<u8>, f: nat, c: (u8, u8, u8), upto: nat) -> nat
    decreases upto,
{
    if upto == 0 {
        0
    } else {
        codon_occurrences(s, f, c, (upto - 1) as nat) + if codon_at(s, f, (upto - 1) as nat) == c {
            1nat
        } else {
            0nat
        }
    }
}

/// How often a codon occurs in a reading frame.
#[derive(Clone, Copy, PartialEq, Eq, Debug)]
pub struct CodonCount {
    /// The codon, in upper case.
    pub codon: (u8, u8, u8),
    pub count: usize,
}

/// The usage table of the first `upto` codons: codons distinct, each with
/// its number of occurrences, and every codon seen listed.
pub open spec fn usage_table(s: Seq<u8>, f: nat, upto: nat, t: Seq<CodonCount>) -> bool {
    &&& forall|i: int, j: int| 0 <= i < j < t.len() ==> #[trigger] t[i].codon != #[trigger] t[j].codon
    &&& forall|i: int|
        0 <= i < t.len() ==> #[trigger] t[i].count == codon_occurrences(s, f, t[i].codon, upto)
            && t[i].count >= 1
    &&& forall|q: nat| q < upto ==> listed(t, #[trigger] codon_at(s, f, q))
}

/// The table has an entry for codon `c`.
pub open spec fn listed(t: Seq<CodonCount>, c: (u8, u8, u8)) -> bool {
    exists|i: int| 0 <= i < t.len() && #[trigger] t[i].codon == c
}

proof fn lemma_codon_occurrences_bound(s: Seq<u8>, f: nat, c: (u8, u8, u8), upto: nat)
    ensures
        codon_occurrences(s, f, c, upto) <= upto,
    decreases upto,
{
    if upto > 0 {
        lemma_codon_occurrences_bound(s, f, c, (upto - 1) as nat);
    }
}

proof fn lemma_codon_absent(s: Seq<u8>, f: nat, c: (u8, u8, u8), upto: nat)
    requires
        forall|q: nat| q < upto ==> #[trigger] codon_at(s, f, q) != c,
    ensures
        codon_occurrences(s, f, c, upto) == 0,
    decreases upto,
{
    if upto > 0 {
        lemma_codon_absent(s, f, c, (upto - 1) as nat);
    }
}

/// The entry of codon `c` in the table, if there is one.
fn find_codon(table: &Vec<CodonCount>, c: (u8, u8, u8)) -> (r: Option<usize>)
    ensures
        r matches Some(i) ==> i < table@.len() && table@[i as int].codon == c,
        r is None ==> forall|j: int| 0 <= j < table@.len() ==> #[trigger] table@[j].codon != c,
{
    let mut i: usize = 0;
    while i < table.len()
        invariant
            forall|j: int| 0 <= j < i ==> #[trigger] table@[j].codon != c,
            i <= table@.len(),
        decreases table@.len() - i,
    {
        let e = table[i];
        if e.codon.0 == c.0 && e.codon.1 == c.1 && e.codon.2 == c.2 {
            return Some(i);
        }
        i = i + 1;
    }
    None
}

/// Counts the codons of a reading frame (0, 1 or 2; larger frames read as
/// 2), in upper case, listed in order of first occurrence.
pub fn count_codon_usage(seq: &[u8], frame: u8) -> (r: Vec<CodonCount>)
    ensures
        usage_table(seq@, frame_offset(frame), codon_count(seq@.len(), frame_offset(frame)), r@),
{
    let f: usize = if frame <= 2 { frame as usize } else { 2 };
    let n = seq.len();
    let mut table: Vec<CodonCount> = Vec::new();
    if n < f {
        return table;
    }
    let count = (n - f) / 3;
    let mut q: usize = 0;
    while q < count
        invariant
            n == seq@.len(),
            f == frame_offset(frame),
            f <= n,
            count == (n - f) as nat / 3,
            count == codon_count(n as nat, f as nat),
            q <= count,
            usage_table(seq@, f as nat, q as nat, table@),
        decreases count - q,
    {
        let p = f + 3 * q;
        let b0 = seq[p];
        let b1 = seq[p + 1];
        let b2 = seq[p + 2];
        let c = (
            if 0x61 <= b0 && b0 <= 0x7a { b0 - 32 } else { b0 },
            if 0x61 <= b1 && b1 <= 0x7a { b1 - 32 } else { b1 },
            if 0x61 <= b2 && b2 <= 0x7a { b2 - 32 } else { b2 },
        );
        assert(c == codon_at(seq@, f as nat, q as nat));
        let ghost old_table = table@;
        let pos = find_codon(&table, c);
        if pos.is_some() {
            let i = pos.unwrap();
            let e = table[i];
            proof {
                lemma_codon_occurrences_bound(seq@, f as nat, c, q as nat);
            }
            table.set(i, CodonCount { codon: e.codon, count: e.count + 1 });
            proof {
                assert forall|qq: nat| qq < q + 1 implies listed(table@, #[trigger] codon_at(seq@, f as nat, qq)) by {
                    if qq < q {
                        assert(listed(old_table, codon_at(seq@, f as nat, qq)));
                        let j = choose|j: int| 0 <= j < old_table.len() && #[trigger] old_table[j].codon == codon_at(seq@, f as nat, qq);
                        assert(table@[j].codon == old_table[j].codon);
                    } else {
                        assert(table@[i as int].codon == codon_at(seq@, f as nat, qq));
                    }
                }
                assert forall|j: int| 0 <= j < table@.len() implies #[trigger] table@[j].count
                    == codon_occurrences(seq@, f as nat, table@[j].codon, (q + 1) as nat)
                    && table@[j].count >= 1 by {
                    if j != i {
                        assert(old_table[j].codon != old_table[i as int].codon);
                    }
                }
            }
        } else {
            proof {
                assert forall|qq: nat| qq < q implies #[trigger] codon_at(seq@, f as nat, qq) != c by {
                    if codon_at(seq@, f as nat, qq) == c {
                        assert(listed(old_table, codon_at(seq@, f as nat, qq)));
                        let j = choose|j: int| 0 <= j < old_table.len() && #[trigger] old_table[j].codon == codon_at(seq@, f as nat, qq);
                        assert(old_table[j].codon != c);
                    }
                }
                lemma_codon_absent(seq@, f as nat, c, q as nat);
            }
            table.push(CodonCount { codon: c, count: 1 });
            proof {
                assert forall|qq: nat| qq < q + 1 implies listed(table@, #[trigger] codon_at(seq@, f as nat, qq)) by {
                    if qq < q {
                        assert(listed(old_table, codon_at(seq@, f as nat, qq)));
                        let j = choose|j: int| 0 <= j < old_table.len() && #[trigger] old_table[j].codon == codon_at(seq@, f as nat, qq);
                        assert(table@[j].codon == old_table[j].codon);
                    } else {
                        assert(table@[old_table.len() as int].codon == codon_at(seq@, f as nat, qq));
                    }
                }
                assert forall|j: int| 0 <= j < table@.len() implies #[trigger] table@[j].count
                    == codon_occurrences(seq@, f as nat, table@[j].codon, (q + 1) as nat)
                    && table@[j].count >= 1 by {
                    if j < old_table.len() {
                        assert(old_table[j].codon != c);
                    }
                }
            }
        }
        q = q + 1;
    }
    table
}

} // verus!
