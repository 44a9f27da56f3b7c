//! MinHash sketches of k-mer sets and their agreement.
use vstd::prelude::*;
use crate::kmer::{kmer_windows, lemma_pow4_16, lemma_pow4_monotone, lemma_window_key_bound, window_count, window_key, MAX_INDEX_K};
use crate::encoding::valid_windows;

verus! {

/// Largest value of a signature slot: no k-mer seen.
pub const EMPTY_SLOT: u32 = 0xffff_ffff;

/// The seed word of hash function `t`.
pub open spec fn seed_word(t: nat) -> u32 {
    (((t % 0x1_0000_0000) * 0x9e37_79b9) % 0x1_0000_0000) as u32
}

/// One round of the mixing function: fold the high half into the low half,
/// then multiply modulo 2^32.
pub open spec fn mix_round(h: u32) -> u32 {
    (((h ^ (h >> 16u32)) as nat * 0x045d_9f3b) % 0x1_0000_0000) as u32
}

/// Hash function `t` applied to a k-mer index: a fixed 32-bit mixing of the
/// index and the seed word of `t`.
pub open spec fn mix(t: nat, x: u32) -> u32 {
    let h = mix_round(mix_round(x ^ seed_word(t)));
    h ^ (h >> 16u32)
}

/// The least hash `t` over the first `upto` windows free of ambiguous codes.
pub open spec fn min_hash(s: Seq<u8>, k: nat, canonical: bool, t: nat, upto: nat) -> u32
    decreases upto,
{
    if upto == 0 {
        EMPTY_SLOT
    } else {
        let m = min_hash(s, k, canonical, t, (upto - 1) as nat);
        match window_key(s, upto - 1, k, canonical) {
            Some(v) => {
                let h = mix(t, v as u32);
                if h < m { h } else { m }
            },
            None => m,
        }
    }
}

/// `k` can be sketched: its indices fit in 32 bits.
pub open spec fn sketch_k_in_range(k: nat) -> bool {
    1 <= k <= MAX_INDEX_K
}

/// The signature of a code sequence: one least hash per seed, all slots
/// empty when `k` is out of range.
pub open spec fn signature_of(s: Seq<u8>, k: nat, canonical: bool, seed_count: nat) -> Seq<u32> {
    Seq::new(
        seed_count,
        |t: int|
            if sketch_k_in_range(k) {
                min_hash(s, k, canonical, t as nat, window_count(s.len(), k))
            } else {
                EMPTY_SLOT
            },
    )
}

/// A MinHash sketch.
pub struct MinHashSketch {
    /// One least hash per seed.
    pub signature: Vec<u32>,
    /// Number of windows free of ambiguous codes that were hashed.
    pub total_kmers: u64,
    /// The `k` that was asked for.
    pub k: usize,
}

/// Hash function `t` on a k-mer index.
pub fn mix_exec(t: usize, x: u32) -> (r: u32)
    ensures
        r == mix(t as nat, x),
{
    let seed = (((t as u64 % 0x1_0000_0000) * 0x9e37_79b9) % 0x1_0000_0000) as u32;
    let h0 = x ^ seed;
    let h1 = (((h0 ^ (h0 >> 16u32)) as u64 * 0x045d_9f3b) % 0x1_0000_0000) as u32;
    let h2 = (((h1 ^ (h1 >> 16u32)) as u64 * 0x045d_9f3b) % 0x1_0000_0000) as u32;
    h2 ^ (h2 >> 16u32)
}

/// Sketches a code sequence with `seed_count` hash functions.
pub(crate) fn sketch_codes(codes: &Vec<u8>, seed_count: usize, k: usize, canonical: bool) -> (r:
    MinHashSketch)
    ensures
        r.k == k,
        r.signature@ == signature_of(codes@, k as nat, canonical, seed_count as nat),
        r.total_kmers == if sketch_k_in_range(k as nat) {
            valid_windows(codes@, k as nat, window_count(codes@.len(), k as nat))
        } else {
            0
        },
{
    let mut sig: Vec<u32> = Vec::new();
    while sig.len() < seed_count
        invariant
            sig@.len() <= seed_count,
            forall|t: int| 0 <= t < sig@.len() ==> #[trigger] sig@[t] == EMPTY_SLOT,
        decreases seed_count - sig@.len(),
    {
        sig.push(EMPTY_SLOT);
    }
    if k == 0 || k > MAX_INDEX_K {
        proof {
            assert(sig@ =~= signature_of(codes@, k as nat, canonical, seed_count as nat));
        }
        return MinHashSketch { signature: sig, total_kmers: 0, k };
    }
    let windows = kmer_windows(codes, k, canonical);
    let mut total: u64 = 0;
    let mut j: usize = 0;
    while j < windows.len()
        invariant
            sketch_k_in_range(k as nat),
            j <= windows@.len(),
            windows@.len() == window_count(codes@.len() as nat, k as nat),
            forall|jj: int|
                0 <= jj < windows@.len() ==> #[trigger] windows@[jj] == match window_key(
                    codes@,
                    jj,
                    k as nat,
                    canonical,
                ) {
                    Some(v) => Some(v as u32),
                    None => None::<u32>,
                },
            sig@.len() == seed_count,
            forall|t: int|
                0 <= t < seed_count ==> #[trigger] sig@[t] == min_hash(
                    codes@,
                    k as nat,
                    canonical,
                    t as nat,
                    j as nat,
                ),
            total == valid_windows(codes@, k as nat, j as nat),
            total <= j,
        decreases windows@.len() - j,
    {
        proof {
            assert(window_key(codes@, j as int, k as nat, canonical) is Some
                <==> window_key(codes@, j as int, k as nat, false) is Some);
        }
        match windows[j] {
            Some(x) => {
                proof {
                    lemma_window_key_bound(codes@, j as int, k as nat, canonical);
                    lemma_pow4_monotone(k as nat, 16);
                    lemma_pow4_16();
                }
                let mut t: usize = 0;
                while t < seed_count
                    invariant
                        t <= seed_count,
                        sig@.len() == seed_count,
                        window_key(codes@, j as int, k as nat, canonical) == Some(x as nat),
                        forall|q: int|
                            0 <= q < t ==> #[trigger] sig@[q] == min_hash(
                                codes@,
                                k as nat,
                                canonical,
                                q as nat,
                                (j + 1) as nat,
                            ),
                        forall|q: int|
                            t <= q < seed_count ==> #[trigger] sig@[q] == min_hash(
                                codes@,
                                k as nat,
                                canonical,
                                q as nat,
                                j as nat,
                            ),
                    decreases seed_count - t,
                {
                    let h = mix_exec(t, x);
                    if h < sig[t] {
                        sig.set(t, h);
                    }
                    t = t + 1;
                }
                total = total + 1;
            },
            None => {
                proof {
                    assert forall|q: int| 0 <= q < seed_count implies #[trigger] sig@[q] == min_hash(
                        codes@,
                        k as nat,
                        canonical,
                        q as nat,
                        (j + 1) as nat,
                    ) by {}
                }
            },
        }
        j = j + 1;
    }
    proof {
        assert(sig@ =~= signature_of(codes@, k as nat, canonical, seed_count as nat));
    }
    MinHashSketch { signature: sig, total_kmers: total, k }
}

/// A signature with every slot empty: no k-mer was seen.
pub open spec fn empty_signature(sig: Seq<u32>) -> bool {
    forall|t: int| 0 <= t < sig.len() ==> #[trigger] sig[t] == EMPTY_SLOT
}

/// Number of slots below `upto` on which two signatures agree.
pub open spec fn agreements(a: Seq<u32>, b: Seq<u32>, upto: nat) -> nat
    decreases upto,
{
    if upto == 0 {
        0
    } else {
        agreements(a, b, (upto - 1) as nat) + if a[upto - 1] == b[upto - 1] {
            1nat
        } else {
            0nat
        }
    }
}

/// An estimate of Jaccard similarity: `agreeing` of `slots` signature
/// slots agree. The estimate is `agreeing / slots`, and 0 when `slots` is 0.
#[derive(Clone, Copy, PartialEq, Eq, Structural, Debug)]
pub struct Similarity {
    pub agreeing: usize,
    pub slots: usize,
}

/// What `jaccard` returns for two signatures.
pub open spec fn similarity_of(a: Seq<u32>, b: Seq<u32>, r: Similarity) -> bool {
    &&& r.slots == a.len()
    &&& r.agreeing == if empty_signature(a) || empty_signature(b) {
        0
    } else {
        agreements(a, b, a.len())
    }
}

/// Fraction of signature slots on which two signatures agree. An empty
/// signature has no similarity to anything, another empty one included.
pub fn jaccard(sig_a: &[u32], sig_b: &[u32]) -> (r: Similarity)
    requires
        sig_a@.len() == sig_b@.len(),
    ensures
        similarity_of(sig_a@, sig_b@, r),
{
    let n = sig_a.len();
    let mut empty_a = true;
    let mut empty_b = true;
    let mut agreeing: usize = 0;
    let mut t: usize = 0;
    while t < n
        invariant
            n == sig_a@.len() == sig_b@.len(),
            t <= n,
            empty_a == forall|q: int| 0 <= q < t ==> #[trigger] sig_a@[q] == EMPTY_SLOT,
            empty_b == forall|q: int| 0 <= q < t ==> #[trigger] sig_b@[q] == EMPTY_SLOT,
            agreeing == agreements(sig_a@, sig_b@, t as nat),
            agreeing <= t,
        decreases n - t,
    {
        if sig_a[t] != EMPTY_SLOT {
            empty_a = false;
        }
        if sig_b[t] != EMPTY_SLOT {
            empty_b = false;
        }
        if sig_a[t] == sig_b[t] {
            agreeing = agreeing + 1;
        }
        t = t + 1;
    }
    if empty_a || empty_b {
        Similarity { agreeing: 0, slots: n }
    } else {
        Similarity { agreeing, slots: n }
    }
}

proof fn lemma_self_agreements(sig: Seq<u32>, upto: nat)
    requires
        upto <= sig.len(),
    ensures
        agreements(sig, sig, upto) == upto,
    decreases upto,
{
    if upto > 0 {
        lemma_self_agreements(sig, (upto - 1) as nat);
    }
}

/// A signature that is not empty has a similarity of 1 to itself: every
/// slot agrees, and there is at least one.
pub proof fn lemma_self_similarity(sig: Seq<u32>, r: Similarity)
    requires
        !empty_signature(sig),
        similarity_of(sig, sig, r),
    ensures
        r.slots > 0,
        r.agreeing == r.slots,
{
    lemma_self_agreements(sig, sig.len());
}

} // verus!
