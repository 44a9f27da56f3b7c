//! Cells of a sequence viewport: rows of bases, or rows of codons in a
//! reading frame, with stop and start codons marked.
use vstd::prelude::*;
use crate::repeats::upper;
use crate::translation::{amino_acid, codon_to_aa};
use vstd::arithmetic::div_mod::lemma_fundamental_div_mod;

verus! {

/// Amino acid code of a stop codon.
pub const STOP: u8 = 0x2a;
/// Amino acid code of methionine, the start codon.
pub const START: u8 = 0x4d;

/// A base shown in nucleotide mode.
#[derive(Clone, Copy, PartialEq, Eq, Structural, Debug)]
pub struct BaseCell {
    /// The base in upper case.
    pub base: u8,
    pub pos: usize,
    /// Position of the base in its codon, 0 to 2, in the reading frame.
    pub phase: u8,
    /// The codon that starts here is a stop codon.
    pub is_stop: bool,
    /// The codon that starts here is a start codon.
    pub is_start: bool,
}

/// A codon shown in amino acid mode.
#[derive(Clone, Copy, PartialEq, Eq, Structural, Debug)]
pub struct CodonCell {
    pub amino_acid: u8,
    /// The first base of the codon, in upper case.
    pub b0: u8,
    pub b1: u8,
    pub b2: u8,
    pub pos: usize,
    pub is_stop: bool,
    pub is_start: bool,
}

/// One row of the viewport, covering `[start, end)`; in nucleotide mode
/// `bases` holds its cells and `codons` is empty, in amino acid mode the
/// other way round.
pub struct GridRow {
    pub row: usize,
    pub start: usize,
    pub end: usize,
    pub bases: Vec<BaseCell>,
    pub codons: Vec<CodonCell>,
}

/// The reading frame offset, 0 to 2, of a signed frame.
pub open spec fn frame_mod(frame: i8) -> nat {
    ((frame as int + 129) % 3) as nat
}

/// Phase of position `i` in the reading frame at offset `f`.
pub open spec fn phase_of(i: nat, f: nat) -> nat {
    ((i + 3 - f) % 3) as nat
}

/// The base cell at `i`.
pub open spec fn base_cell(s: Seq<u8>, f: nat, i: nat) -> BaseCell {
    let phase = phase_of(i, f);
    let coding = phase == 0 && i + 3 <= s.len();
    let aa = amino_acid(s[i as int], s[i + 1 as int], s[i + 2 as int]);
    BaseCell {
        base: upper(s[i as int]),
        pos: i as usize,
        phase: phase as u8,
        is_stop: coding && aa == STOP,
        is_start: coding && aa == START,
    }
}

/// The codon cell at `i`.
pub open spec fn codon_cell(s: Seq<u8>, i: nat) -> CodonCell {
    let aa = amino_acid(s[i as int], s[i + 1 as int], s[i + 2 as int]);
    CodonCell {
        amino_acid: aa,
        b0: upper(s[i as int]),
        b1: upper(s[i + 1 as int]),
        b2: upper(s[i + 2 as int]),
        pos: i as usize,
        is_stop: aa == STOP,
        is_start: aa == START,
    }
}

/// First position in `[lo, ..)` that starts a codon of the frame.
pub open spec fn first_codon(lo: nat, f: nat) -> nat {
    let off = phase_of(lo, f);
    if off == 0 { lo } else { (lo + 3 - off) as nat }
}

/// Number of whole codons of the frame within `[lo, hi)`.
pub open spec fn codons_within(lo: nat, hi: nat, f: nat) -> nat {
    let first = first_codon(lo, f);
    if first + 3 <= hi { ((hi - first) as nat / 3) as nat } else { 0 }
}

/// The row that starts at `lo` in nucleotide or amino acid mode.
pub open spec fn row_cells_ok(s: Seq<u8>, f: nat, amino: bool, r: GridRow) -> bool {
    let lo = r.start as nat;
    let hi = r.end as nat;
    if amino {
        &&& r.bases@.len() == 0
        &&& r.codons@.len() == codons_within(lo, hi, f)
        &&& forall|t: int|
            0 <= t < r.codons@.len() ==> #[trigger] r.codons@[t] == codon_cell(
                s,
                first_codon(lo, f) + 3 * t as nat,
            )
    } else {
        &&& r.codons@.len() == 0
        &&& r.bases@.len() == hi - lo
        &&& forall|t: int| 0 <= t < r.bases@.len() ==> #[trigger] r.bases@[t] == base_cell(s, f, lo + t as nat)
    }
}

/// Number of rows of `cols` cells from `start` that begin inside a sequence
/// of `n` bases, at most `rows`.
pub open spec fn row_count(n: nat, start: nat, cols: nat, rows: nat) -> nat {
    if cols == 0 || rows == 0 || start >= n {
        0
    } else {
        let avail = ((n - start - 1) as nat / cols + 1) as nat;
        if avail <= rows { avail } else { rows }
    }
}

/// The rows of a viewport grid.
pub open spec fn grid_ok(s: Seq<u8>, start: nat, cols: nat, rows: nat, amino: bool, frame: i8, g: Seq<GridRow>) -> bool {
    &&& g.len() == row_count(s.len(), start, cols, rows)
    &&& forall|k: int|
        0 <= k < g.len() ==> {
            let lo = start + k * cols;
            let hi = if lo + cols <= s.len() { lo + cols } else { s.len() as int };
            &&& #[trigger] g[k].row == k
            &&& g[k].start == lo
            &&& g[k].end == hi
            &&& row_cells_ok(s, frame_mod(frame), amino, g[k])
        }
}

fn upper_exec(b: u8) -> (r: u8)
    ensures
        r == upper(b),
{
    if 0x61 <= b && b <= 0x7a { b - 32 } else { b }
}

fn base_row(s: &[u8], f: usize, lo: usize, hi: usize) -> (r: Vec<BaseCell>)
    requires
        f <= 2,
        lo <= hi <= s@.len(),
    ensures
        r@.len() == hi - lo,
        forall|t: int| 0 <= t < r@.len() ==> #[trigger] r@[t] == base_cell(s@, f as nat, (lo + t) as nat),
{
    let n = s.len();
    let mut out: Vec<BaseCell> = Vec::new();
    let mut i: usize = lo;
    while i < hi
        invariant
            n == s@.len(),
            f <= 2,
            lo <= i <= hi <= n,
            out@.len() == i - lo,
            forall|t: int| 0 <= t < out@.len() ==> #[trigger] out@[t] == base_cell(s@, f as nat, (lo + t) as nat),
        decreases hi - i,
    {
        let phase = ((i % 3) + 3 - f) % 3;
        proof {
            assert(phase == phase_of(i as nat, f as nat)) by (nonlinear_arith)
                requires
                    phase == ((i % 3) + 3 - f) % 3,
                    f <= 2,
            ;
        }
        let mut is_stop = false;
        let mut is_start = false;
        if phase == 0 && 3 <= n - i {
            let aa = codon_to_aa(s[i], s[i + 1], s[i + 2]);
            is_stop = aa == STOP;
            is_start = aa == START;
        }
        out.push(BaseCell { base: upper_exec(s[i]), pos: i, phase: phase as u8, is_stop, is_start });
        i = i + 1;
    }
    out
}

fn codon_row(s: &[u8], f: usize, lo: usize, hi: usize) -> (r: Vec<CodonCell>)
    requires
        f <= 2,
        lo <= hi <= s@.len(),
    ensures
        r@.len() == codons_within(lo as nat, hi as nat, f as nat),
        forall|t: int|
            0 <= t < r@.len() ==> #[trigger] r@[t] == codon_cell(s@, first_codon(lo as nat, f as nat) + 3 * t as nat),
{
    let n = s.len();
    let mut out: Vec<CodonCell> = Vec::new();
    let off = ((lo % 3) + 3 - f) % 3;
    proof {
        assert(off == phase_of(lo as nat, f as nat)) by (nonlinear_arith)
            requires
                off == ((lo % 3) + 3 - f) % 3,
                f <= 2,
        ;
    }
    if off != 0 && hi - lo < 3 - off {
        return out;
    }
    let first = if off == 0 { lo } else { lo + (3 - off) };
    let mut i: usize = first;
    let ghost count = codons_within(lo as nat, hi as nat, f as nat);
    while i <= hi && 3 <= hi - i
        invariant
            n == s@.len(),
            f <= 2,
            hi <= n,
            first == first_codon(lo as nat, f as nat),
            first <= i,
            i == first + 3 * out@.len(),
            (i - first) % 3 == 0,
            first + 3 <= hi ==> out@.len() <= count,
            first + 3 <= hi ==> i <= hi,
            first + 3 > hi ==> out@.len() == 0,
            count == codons_within(lo as nat, hi as nat, f as nat),
            first <= hi + 3,
            i <= hi + 3,
            forall|t: int|
                0 <= t < out@.len() ==> #[trigger] out@[t] == codon_cell(s@, first as nat + 3 * t as nat),
        decreases hi + 3 - i,
    {
        proof {
            assert(out@.len() < count) by (nonlinear_arith)
                requires
                    i == first + 3 * out@.len(),
                    i + 3 <= hi,
                    count == (hi - first) / 3,
            ;
        }
        let aa = codon_to_aa(s[i], s[i + 1], s[i + 2]);
        out.push(
            CodonCell {
                amino_acid: aa,
                b0: upper_exec(s[i]),
                b1: upper_exec(s[i + 1]),
                b2: upper_exec(s[i + 2]),
                pos: i,
                is_stop: aa == STOP,
                is_start: aa == START,
            },
        );
        i = i + 3;
    }
    proof {
        if first + 3 <= hi {
            assert(out@.len() == count) by (nonlinear_arith)
                requires
                    i == first + 3 * out@.len(),
                    i + 3 > hi,
                    i <= hi,
                    first + 3 <= hi,
                    count == (hi - first) / 3,
            ;
        } else {
            assert(out@.len() == 0);
        }
    }
    out
}

/// Rows of viewport cells: `rows` rows of `cols` positions from
/// `start_index`, stopping at the end of the sequence. In amino acid mode a
/// row holds the whole codons of the reading frame that lie in it; in
/// nucleotide mode each base, its phase, and whether the codon starting
/// there is a stop or start codon. The frame is taken modulo 3.
pub fn build_grid(seq: &[u8], start_index: usize, cols: usize, rows: usize, amino: bool, frame: i8) -> (g:
    Vec<GridRow>)
    ensures
        grid_ok(seq@, start_index as nat, cols as nat, rows as nat, amino, frame, g@),
{
    let n = seq.len();
    let mut out: Vec<GridRow> = Vec::new();
    if cols == 0 || rows == 0 || start_index >= n {
        return out;
    }
    let f: usize = ((frame as i16 + 129) as u16 % 3) as usize;
    let ghost total = row_count(n as nat, start_index as nat, cols as nat, rows as nat);
    let mut row: usize = 0;
    let mut lo: usize = start_index;
    loop
        invariant
            n == seq@.len(),
            cols >= 1,
            f == frame_mod(frame),
            f <= 2,
            row < rows,
            lo < n,
            lo == start_index + row * cols,
            total == row_count(n as nat, start_index as nat, cols as nat, rows as nat),
            row < total,
            out@.len() == row,
            forall|k: int|
                0 <= k < out@.len() ==> {
                    let lo = start_index + k * cols;
                    let hi = if lo + cols <= n { lo + cols } else { n as int };
                    &&& #[trigger] out@[k].row == k
                    &&& out@[k].start == lo
                    &&& out@[k].end == hi
                    &&& row_cells_ok(seq@, f as nat, amino, out@[k])
                },
        ensures
            out@.len() == total,
            forall|k: int|
                0 <= k < out@.len() ==> {
                    let lo = start_index + k * cols;
                    let hi = if lo + cols <= n { lo + cols } else { n as int };
                    &&& #[trigger] out@[k].row == k
                    &&& out@[k].start == lo
                    &&& out@[k].end == hi
                    &&& row_cells_ok(seq@, f as nat, amino, out@[k])
                },
        decreases total - row,
    {
        let hi = if cols <= n - lo { lo + cols } else { n };
        let r = if amino {
            GridRow { row, start: lo, end: hi, bases: Vec::new(), codons: codon_row(seq, f, lo, hi) }
        } else {
            GridRow { row, start: lo, end: hi, bases: base_row(seq, f, lo, hi), codons: Vec::new() }
        };
        out.push(r);
        proof {
            lemma_row_count_step(n as nat, start_index as nat, cols as nat, rows as nat, row as nat);
        }
        if row + 1 >= rows || n - lo <= cols {
            return out;
        }
        row = row + 1;
        lo = lo + cols;
        proof {
            assert(lo == start_index + row * cols) by (nonlinear_arith)
                requires
                    lo == start_index + (row - 1) * cols + cols,
            ;
        }
    }
}

proof fn lemma_row_count_step(n: nat, start: nat, cols: nat, rows: nat, row: nat)
    requires
        cols >= 1,
        start < n,
        row < rows,
        start + row * cols < n,
    ensures
        row < row_count(n, start, cols, rows),
        (row + 1 < rows && start + row * cols + cols < n) <==> row + 1 < row_count(n, start, cols, rows),
{
    let m = (n - start - 1) as nat;
    assert(row * cols <= m);
    lemma_fundamental_div_mod(m as int, cols as int);
    assert(row <= m / cols) by (nonlinear_arith)
        requires
            row * cols <= m,
            m == cols * (m / cols) + m % cols,
            0 <= m % cols < cols,
    ;
    assert((row + 1) * cols <= m <==> row + 1 <= m / cols) by (nonlinear_arith)
        requires
            m == cols * (m / cols) + m % cols,
            0 <= m % cols < cols,
            cols >= 1,
    ;
    assert(start + row * cols + cols == start + (row + 1) * cols) by (nonlinear_arith);
}

} // verus!
