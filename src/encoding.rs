//! The encoded-sequence handle and its k-mer analyses.
use vstd::prelude::*;
use crate::nucleotide::{code_of, encode_base};
use crate::profile::{
    cumulative_gc, dot_plot_codes, dot_plot_cells, dot_plot_in_domain, gc_counts_of,
    skew_window_count, windowed_gc, DotPlot, GcCounts,
};
use crate::sketch::{sketch_codes, signature_of, sketch_k_in_range, MinHashSketch};
use crate::kmer::{
    kmer_windows, lemma_pow4_monotone, lemma_window_key_bound, pow4, pow4_exec, window_count,
    window_key,
};

verus! {

/// Largest k for the dense k-mer count table (4^10 counters).
pub const MAX_COUNT_K: usize = 10;

/// The codes of a byte sequence.
pub open spec fn codes_of(b: Seq<u8>) -> Seq<u8> {
    Seq::new(b.len(), |i: int| code_of(b[i]))
}

/// Number of bytes that are A, C, G, T or U in either case.
pub open spec fn count_bases(b: Seq<u8>) -> nat
    decreases b.len(),
{
    if b.len() == 0 {
        0
    } else {
        count_bases(b.drop_last()) + if code_of(b.last()) < 4 { 1nat } else { 0nat }
    }
}

/// Number of windows among the first `upto` whose index is `x`.
pub open spec fn occurrences(s: Seq<u8>, k: nat, canonical: bool, x: nat, upto: nat) -> nat
    decreases upto,
{
    if upto == 0 {
        0
    } else {
        occurrences(s, k, canonical, x, (upto - 1) as nat) + if window_key(
            s,
            upto - 1,
            k,
            canonical,
        ) == Some(x) {
            1nat
        } else {
            0nat
        }
    }
}

/// Number of windows among the first `upto` that hold no ambiguous code.
pub open spec fn valid_windows(s: Seq<u8>, k: nat, upto: nat) -> nat
    decreases upto,
{
    if upto == 0 {
        0
    } else {
        valid_windows(s, k, (upto - 1) as nat) + if window_key(s, upto - 1, k, false) is Some {
            1nat
        } else {
            0nat
        }
    }
}

/// A counter that stops at the largest `u32`.
pub open spec fn saturate(n: nat) -> u32 {
    if n < 0xffff_ffff { n as u32 } else { 0xffff_ffff }
}

/// The dense count table: one saturating counter per k-mer index.
pub open spec fn count_table(s: Seq<u8>, k: nat, canonical: bool) -> Seq<u32> {
    Seq::new(
        pow4(k),
        |x: int| saturate(occurrences(s, k, canonical, x as nat, window_count(s.len(), k))),
    )
}

/// `k` can index a dense count table.
pub open spec fn count_k_in_range(k: nat) -> bool {
    1 <= k <= MAX_COUNT_K
}

/// Counts of k-mers in a sequence.
pub struct KmerCounts {
    /// One counter per k-mer index; empty when `k` was out of range or the
    /// sequence shorter than `k`.
    pub counts: Vec<u32>,
    /// Number of windows free of ambiguous codes.
    pub total_valid: u64,
    /// The `k` that was asked for.
    pub k: usize,
}

/// A sequence of nucleotide codes, with the number of unambiguous ones.
pub struct EncodedSequence {
    codes: Vec<u8>,
    valid: usize,
}

impl View for EncodedSequence {
    type V = Seq<u8>;

    closed spec fn view(&self) -> Seq<u8> {
        self.codes@
    }
}

impl EncodedSequence {
    /// The well-formedness of a handle: codes stay in 0..=4 and the count
    /// of unambiguous codes is kept.
    pub closed spec fn wf(&self) -> bool {
        &&& forall|i: int| 0 <= i < self.codes@.len() ==> #[trigger] self.codes@[i] <= 4
        &&& self.valid as nat == count_codes(self.codes@)
    }

    /// Number of codes.
    pub fn length(&self) -> (r: usize)
        ensures
            r == self@.len(),
    {
        self.codes.len()
    }

    /// Number of unambiguous codes.
    pub fn valid_count(&self) -> (r: usize)
        requires
            self.wf(),
        ensures
            r == count_codes(self@),
    {
        self.valid
    }

    /// The code at `i`.
    pub fn code_at(&self, i: usize) -> (r: u8)
        requires
            i < self@.len(),
        ensures
            r == self@[i as int],
    {
        self.codes[i]
    }

    /// Counts every ambiguity-free window of length `k` in a dense table of
    /// 4^k saturating counters. Out of range `k` (0 or over 10) or a
    /// sequence shorter than `k` gives an empty table and a zero total.
    pub fn count_kmers(&self, k: usize) -> (r: KmerCounts)
        requires
            self.wf(),
        ensures
            r.k == k,
            count_k_in_range(k as nat) && self@.len() >= k ==> {
                &&& r.counts@ == count_table(self@, k as nat, false)
                &&& r.total_valid == valid_windows(self@, k as nat, window_count(self@.len(), k as nat))
            },
            !(count_k_in_range(k as nat) && self@.len() >= k) ==> r.counts@.len() == 0
                && r.total_valid == 0,
    {
        count_windows(&self.codes, k, false)
    }

    /// MinHash sketch of the k-mers of the sequence with `seed_count` hash
    /// functions. Out of range `k` (0 or over 16) gives an empty signature.
    pub fn minhash(&self, seed_count: usize, k: usize) -> (r: MinHashSketch)
        ensures
            r.k == k,
            r.signature@ == signature_of(self@, k as nat, false, seed_count as nat),
            r.total_kmers == if sketch_k_in_range(k as nat) {
                valid_windows(self@, k as nat, window_count(self@.len(), k as nat))
            } else {
                0
            },
    {
        sketch_codes(&self.codes, seed_count, k, false)
    }

    /// G and C counts of each window of `window` codes, starting every
    /// `step` codes; empty for a zero window or step, or a window longer
    /// than the sequence. The skew of a window is `(g - c) / (g + c)`.
    pub fn gc_skew(&self, window: usize, step: usize) -> (r: Vec<GcCounts>)
        ensures
            r@.len() == skew_window_count(self@.len() as nat, window as nat, step as nat),
            forall|i: int|
                0 <= i < r@.len() ==> #[trigger] r@[i] == gc_counts_of(
                    self@,
                    i * step,
                    i * step + window,
                ),
    {
        windowed_gc(&self.codes, window, step)
    }

    /// G and C counts of every prefix, one per base: entry `i` covers the
    /// first `i + 1` codes.
    pub fn cumulative_gc_skew(&self) -> (r: Vec<GcCounts>)
        ensures
            r@.len() == self@.len(),
            forall|i: int| 0 <= i < r@.len() ==> #[trigger] r@[i] == gc_counts_of(self@, 0, i + 1),
    {
        cumulative_gc(&self.codes)
    }

    /// Dot plot of the sequence against itself over `bins` evenly spaced
    /// windows of `window` codes, direct and against the reverse
    /// complement. Ambiguous codes match nothing.
    pub fn dot_plot_self(&self, bins: usize, window: usize) -> (p: DotPlot)
        ensures
            p.bins == bins,
            p.window == window,
            dot_plot_in_domain(self@.len(), bins as nat, window as nat) ==> dot_plot_cells(
                self@,
                bins as nat,
                window as nat,
                p,
            ),
            !dot_plot_in_domain(self@.len(), bins as nat, window as nat) ==> p.direct@.len() == 0
                && p.inverted@.len() == 0,
    {
        dot_plot_codes(&self.codes, bins, window)
    }
}

/// Number of unambiguous codes.
pub open spec fn count_codes(s: Seq<u8>) -> nat
    decreases s.len(),
{
    if s.len() == 0 {
        0
    } else {
        count_codes(s.drop_last()) + if s.last() < 4 { 1nat } else { 0nat }
    }
}

proof fn lemma_count_codes_of(b: Seq<u8>)
    ensures
        count_codes(codes_of(b)) == count_bases(b),
    decreases b.len(),
{
    if b.len() > 0 {
        lemma_count_codes_of(b.drop_last());
        assert(codes_of(b).drop_last() =~= codes_of(b.drop_last()));
    }
}

/// Encodes bytes into nucleotide codes: total, and one code per byte.
pub fn encode(bytes: &[u8]) -> (r: EncodedSequence)
    ensures
        r.wf(),
        r@ == codes_of(bytes@),
        r@.len() == bytes@.len(),
        count_codes(r@) == count_bases(bytes@),
{
    let mut codes: Vec<u8> = Vec::new();
    let mut valid: usize = 0;
    let mut i: usize = 0;
    while i < bytes.len()
        invariant
            i <= bytes@.len(),
            codes@ =~= codes_of(bytes@.subrange(0, i as int)),
            valid as nat == count_codes(codes@),
            valid <= i,
            forall|j: int| 0 <= j < codes@.len() ==> #[trigger] codes@[j] <= 4,
        decreases bytes@.len() - i,
    {
        let c = encode_base(bytes[i]);
        let ghost before = codes@;
        codes.push(c);
        proof {
            assert(codes@.drop_last() == before);
            assert(bytes@.subrange(0, i + 1).drop_last() =~= bytes@.subrange(0, i as int));
        }
        if c < 4 {
            valid = valid + 1;
        }
        i = i + 1;
    }
    proof {
        assert(bytes@.subrange(0, bytes@.len() as int) =~= bytes@);
        lemma_count_codes_of(bytes@);
    }
    EncodedSequence { codes, valid }
}

/// Counts the windows of `codes`, forward or canonical.
fn count_windows(codes: &Vec<u8>, k: usize, canonical: bool) -> (r: KmerCounts)
    ensures
        r.k == k,
        count_k_in_range(k as nat) && codes@.len() >= k ==> {
            &&& r.counts@ == count_table(codes@, k as nat, canonical)
            &&& r.total_valid == valid_windows(codes@, k as nat, window_count(codes@.len(), k as nat))
        },
        !(count_k_in_range(k as nat) && codes@.len() >= k) ==> r.counts@.len() == 0
            && r.total_valid == 0,
{
    if k == 0 || k > MAX_COUNT_K || codes.len() < k {
        return KmerCounts { counts: Vec::new(), total_valid: 0, k };
    }
    let windows = kmer_windows(codes, k, canonical);
    let size = pow4_exec(k);
    proof {
        lemma_pow4_monotone(k as nat, 10);
        reveal_with_fuel(pow4, 11);
    }
    let mut counts: Vec<u32> = Vec::new();
    while counts.len() < size as usize
        invariant
            size == pow4(k as nat),
            size <= 1048576,
            counts@.len() <= size,
            forall|x: int| 0 <= x < counts@.len() ==> #[trigger] counts@[x] == 0,
        decreases size - counts@.len(),
    {
        counts.push(0);
    }
    let mut total: u64 = 0;
    let mut j: usize = 0;
    while j < windows.len()
        invariant
            count_k_in_range(k as nat),
            size == pow4(k as nat),
            size <= 1048576,
            j <= windows@.len(),
            windows@.len() == window_count(codes@.len() as nat, k as nat),
            forall|jj: int|
                0 <= jj < windows@.len() ==> #[trigger] windows@[jj] == match window_key(
                    codes@,
                    jj,
                    k as nat,
                    canonical,
                ) {
                    Some(v) => Some(v as u32),
                    None => None::<u32>,
                },
            counts@.len() == size,
            forall|x: int|
                0 <= x < size ==> #[trigger] counts@[x] == saturate(
                    occurrences(codes@, k as nat, canonical, x as nat, j as nat),
                ),
            total == valid_windows(codes@, k as nat, j as nat),
            total <= j,
        decreases windows@.len() - j,
    {
        let w = windows[j];
        proof {
            assert(window_key(codes@, j as int, k as nat, canonical) is Some
                <==> window_key(codes@, j as int, k as nat, false) is Some);
        }
        match w {
            Some(x) => {
                proof {
                    lemma_window_key_bound(codes@, j as int, k as nat, canonical);
                }
                let cur = counts[x as usize];
                let next = if cur < 0xffff_ffff { cur + 1 } else { cur };
                counts.set(x as usize, next);
                total = total + 1;
            },
            None => {},
        }
        j = j + 1;
    }
    proof {
        assert(counts@ =~= count_table(codes@, k as nat, canonical));
    }
    KmerCounts { counts, total_valid: total, k }
}

/// What `count_kmers_canonical` returns for `bytes` and `k`.
pub open spec fn canonical_counts_of(bytes: Seq<u8>, k: nat, r: KmerCounts) -> bool {
    &&& r.k == k
    &&& count_k_in_range(k) && bytes.len() >= k ==> {
        &&& r.counts@ == count_table(codes_of(bytes), k, true)
        &&& r.total_valid == valid_windows(codes_of(bytes), k, window_count(bytes.len(), k))
    }
    &&& !(count_k_in_range(k) && bytes.len() >= k) ==> r.counts@.len() == 0 && r.total_valid == 0
}

/// Counts canonical k-mers of raw bytes: each window is counted at the
/// smaller of its index and the index of its reverse complement, so that a
/// sequence and its reverse complement give the same table.
pub fn count_kmers_canonical(bytes: &[u8], k: usize) -> (r: KmerCounts)
    ensures
        canonical_counts_of(bytes@, k as nat, r),
{
    let e = encode(bytes);
    count_windows(&e.codes, k, true)
}

/// Sum of a table of counters.
pub open spec fn table_sum(t: Seq<u32>) -> nat
    decreases t.len(),
{
    if t.len() == 0 {
        0
    } else {
        table_sum(t.drop_last()) + t.last() as nat
    }
}

/// Sum over the indices below `n` of their occurrences in the first `upto`
/// windows.
spec fn occurrence_sum(s: Seq<u8>, k: nat, canonical: bool, n: nat, upto: nat) -> nat
    decreases n,
{
    if n == 0 {
        0
    } else {
        occurrence_sum(s, k, canonical, (n - 1) as nat, upto) + occurrences(
            s,
            k,
            canonical,
            (n - 1) as nat,
            upto,
        )
    }
}

proof fn lemma_occurrences_bound(s: Seq<u8>, k: nat, canonical: bool, x: nat, upto: nat)
    ensures
        occurrences(s, k, canonical, x, upto) <= upto,
    decreases upto,
{
    if upto > 0 {
        lemma_occurrences_bound(s, k, canonical, x, (upto - 1) as nat);
    }
}

proof fn lemma_occurrence_sum_step(s: Seq<u8>, k: nat, canonical: bool, n: nat, upto: nat)
    ensures
        occurrence_sum(s, k, canonical, n, upto + 1) == occurrence_sum(s, k, canonical, n, upto)
            + match window_key(s, upto as int, k, canonical) {
            Some(v) => if v < n { 1nat } else { 0nat },
            None => 0nat,
        },
    decreases n,
{
    if n > 0 {
        lemma_occurrence_sum_step(s, k, canonical, (n - 1) as nat, upto);
    }
}

proof fn lemma_occurrence_sum_total(s: Seq<u8>, k: nat, upto: nat)
    requires
        upto <= window_count(s.len(), k),
    ensures
        occurrence_sum(s, k, false, pow4(k), upto) == valid_windows(s, k, upto),
    decreases upto,
{
    if upto > 0 {
        let u = (upto - 1) as nat;
        lemma_occurrence_sum_total(s, k, u);
        lemma_occurrence_sum_step(s, k, false, pow4(k), u);
        if window_key(s, u as int, k, false) is Some {
            lemma_window_key_bound(s, u as int, k, false);
        }
    } else {
        lemma_occurrence_sum_zero(s, k, pow4(k));
    }
}

proof fn lemma_occurrence_sum_zero(s: Seq<u8>, k: nat, n: nat)
    ensures
        occurrence_sum(s, k, false, n, 0) == 0,
    decreases n,
{
    if n > 0 {
        lemma_occurrence_sum_zero(s, k, (n - 1) as nat);
    }
}

proof fn lemma_table_sum(s: Seq<u8>, k: nat, n: nat)
    requires
        n <= pow4(k),
        window_count(s.len(), k) < 0xffff_ffff,
    ensures
        table_sum(count_table(s, k, false).subrange(0, n as int)) == occurrence_sum(
            s,
            k,
            false,
            n,
            window_count(s.len(), k),
        ),
    decreases n,
{
    let t = count_table(s, k, false);
    if n > 0 {
        lemma_table_sum(s, k, (n - 1) as nat);
        assert(t.subrange(0, n as int).drop_last() =~= t.subrange(0, n - 1));
        lemma_occurrences_bound(s, k, false, (n - 1) as nat, window_count(s.len(), k));
    } else {
        assert(t.subrange(0, 0) =~= Seq::<u32>::empty());
    }
}

/// For `k` in range and a sequence of at least `k` codes, the dense counts
/// sum to the number of windows free of ambiguous codes, which is the
/// total that `count_kmers` reports. Counters cannot saturate, since no
/// sequence here has more than `u32::MAX` windows.
pub proof fn lemma_count_sum(s: Seq<u8>, k: nat)
    requires
        count_k_in_range(k),
        s.len() >= k,
        s.len() < 0xffff_ffff,
    ensures
        table_sum(count_table(s, k, false)) == valid_windows(s, k, window_count(s.len(), k)),
{
    let t = count_table(s, k, false);
    lemma_table_sum(s, k, pow4(k));
    assert(t.subrange(0, pow4(k) as int) =~= t);
    lemma_occurrence_sum_total(s, k, window_count(s.len(), k));
}

/// What `minhash_canonical` returns for `bytes`, `k` and `seed_count`.
pub open spec fn canonical_sketch_of(bytes: Seq<u8>, k: nat, seed_count: nat, r: MinHashSketch) -> bool {
    &&& r.k == k
    &&& r.signature@ == signature_of(codes_of(bytes), k, true, seed_count)
    &&& r.total_kmers == if sketch_k_in_range(k) {
        valid_windows(codes_of(bytes), k, window_count(bytes.len(), k))
    } else {
        0
    }
}

/// Canonical counts and sketches depend on the bytes and the parameters
/// alone: two results for the same input are equal field by field.
pub proof fn lemma_canonical_deterministic(
    bytes: Seq<u8>,
    k: nat,
    seed_count: nat,
    c1: KmerCounts,
    c2: KmerCounts,
    s1: MinHashSketch,
    s2: MinHashSketch,
)
    requires
        canonical_counts_of(bytes, k, c1),
        canonical_counts_of(bytes, k, c2),
        canonical_sketch_of(bytes, k, seed_count, s1),
        canonical_sketch_of(bytes, k, seed_count, s2),
    ensures
        c1.counts@ == c2.counts@,
        c1.total_valid == c2.total_valid,
        c1.k == c2.k,
        s1.signature@ == s2.signature@,
        s1.total_kmers == s2.total_kmers,
        s1.k == s2.k,
{
    if !(count_k_in_range(k) && bytes.len() >= k) {
        assert(c1.counts@ =~= c2.counts@);
    }
}

/// MinHash sketch of the canonical k-mers of raw bytes, so that a sequence
/// and its reverse complement give the same signature.
pub fn minhash_canonical(bytes: &[u8], k: usize, seed_count: usize) -> (r: MinHashSketch)
    ensures
        canonical_sketch_of(bytes@, k as nat, seed_count as nat, r),
{
    let e = encode(bytes);
    sketch_codes(&e.codes, seed_count, k, true)
}

} // verus!
