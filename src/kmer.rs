//! Rolling k-mer indices over nucleotide codes.
//!
//! A k-mer is packed as a base-4 number, first base most significant. Beside
//! the forward register runs a mirrored register that holds the packed
//! reverse complement of the same window; the canonical index is the smaller
//! of the two.
use vstd::prelude::*;
use vstd::arithmetic::div_mod::lemma_fundamental_div_mod_converse;

verus! {

/// Largest k for which k-mer indices fit in 32 bits.
pub const MAX_INDEX_K: usize = 16;

/// 4 to the power `n`.
pub open spec fn pow4(n: nat) -> nat
    decreases n,
{
    if n == 0 { 1 } else { 4 * pow4((n - 1) as nat) }
}

/// Packed value of the `len` codes starting at `a`, first code most significant.
pub open spec fn kmer_value(s: Seq<u8>, a: int, len: nat) -> nat
    decreases len,
{
    if len == 0 {
        0
    } else {
        kmer_value(s, a, (len - 1) as nat) * 4 + s[a + len - 1] as nat
    }
}

/// Digit of the complementary base in the packed reverse complement.
pub open spec fn rc_digit(c: u8) -> nat {
    if c < 4 { (3 - c) as nat } else { 0 }
}

/// Packed value of the reverse complement of the `len` codes starting at `a`.
pub open spec fn rc_kmer_value(s: Seq<u8>, a: int, len: nat) -> nat
    decreases len,
{
    if len == 0 {
        0
    } else {
        rc_kmer_value(s, a, (len - 1) as nat) + rc_digit(s[a + len - 1]) * pow4((len - 1) as nat)
    }
}

/// Every code of the window `[a, a + len)` is an unambiguous base.
pub open spec fn window_valid(s: Seq<u8>, a: int, len: nat) -> bool {
    &&& 0 <= a
    &&& a + len <= s.len()
    &&& forall|t: int| a <= t < a + len ==> #[trigger] s[t] < 4
}

/// Index of the window starting at `a`: forward, or the smaller of forward and
/// reverse complement; `None` where the window holds an ambiguous code.
pub open spec fn window_key(s: Seq<u8>, a: int, k: nat, canonical: bool) -> Option<nat> {
    if window_valid(s, a, k) {
        if canonical {
            let f = kmer_value(s, a, k);
            let r = rc_kmer_value(s, a, k);
            Some(if r < f { r } else { f })
        } else {
            Some(kmer_value(s, a, k))
        }
    } else {
        None
    }
}

/// Number of windows of length `k` in a sequence of length `n`.
pub open spec fn window_count(n: nat, k: nat) -> nat {
    if n >= k { (n - k + 1) as nat } else { 0 }
}

pub proof fn lemma_pow4_positive(n: nat)
    ensures
        pow4(n) >= 1,
    decreases n,
{
    if n > 0 {
        lemma_pow4_positive((n - 1) as nat);
    }
}

pub proof fn lemma_pow4_add(a: nat, b: nat)
    ensures
        pow4(a + b) == pow4(a) * pow4(b),
    decreases a,
{
    if a > 0 {
        let a1 = (a - 1) as nat;
        lemma_pow4_add(a1, b);
        assert(pow4(a + b) == 4 * pow4(a1 + b));
        assert(pow4(a) == 4 * pow4(a1));
        let x = pow4(a1) as int;
        let y = pow4(b) as int;
        assert(4 * (x * y) == (4 * x) * y) by (nonlinear_arith);
        assert(pow4(a + b) == pow4(a) * pow4(b));
    } else {
        assert(pow4(0) == 1);
        assert(a + b == b);
        assert(pow4(a) * pow4(b) == pow4(b));
    }
}

pub proof fn lemma_pow4_16()
    ensures
        pow4(16) == 4294967296,
{
    reveal_with_fuel(pow4, 17);
}

pub proof fn lemma_pow4_monotone(a: nat, b: nat)
    requires
        a <= b,
    ensures
        pow4(a) <= pow4(b),
{
    lemma_pow4_add(a, (b - a) as nat);
    lemma_pow4_positive((b - a) as nat);
    lemma_pow4_positive(a);
    assert(pow4(a) * pow4((b - a) as nat) >= pow4(a)) by (nonlinear_arith)
        requires
            pow4((b - a) as nat) >= 1,
    ;
}

pub proof fn lemma_kmer_value_bound(s: Seq<u8>, a: int, len: nat)
    requires
        window_valid(s, a, len),
    ensures
        kmer_value(s, a, len) < pow4(len),
        rc_kmer_value(s, a, len) < pow4(len),
    decreases len,
{
    if len > 0 {
        let l1 = (len - 1) as nat;
        lemma_kmer_value_bound(s, a, l1);
        assert(s[a + len - 1] < 4);
        let v = kmer_value(s, a, l1);
        let c = s[a + len - 1] as nat;
        assert(v * 4 + c < 4 * pow4(l1)) by (nonlinear_arith)
            requires
                v < pow4(l1),
                c < 4,
        ;
        let w = rc_kmer_value(s, a, l1);
        let d = rc_digit(s[a + len - 1]);
        assert(w + d * pow4(l1) < 4 * pow4(l1)) by (nonlinear_arith)
            requires
                w < pow4(l1),
                d <= 3,
        ;
    }
}

/// A window's index is below 4 to the power `k`.
pub proof fn lemma_window_key_bound(s: Seq<u8>, a: int, k: nat, canonical: bool)
    requires
        window_key(s, a, k, canonical) is Some,
    ensures
        window_key(s, a, k, canonical)->Some_0 < pow4(k),
{
    lemma_kmer_value_bound(s, a, k);
}

/// Splitting off the first code of a window.
pub proof fn lemma_kmer_value_front(s: Seq<u8>, a: int, len: nat)
    requires
        0 <= a,
        a + len + 1 <= s.len(),
    ensures
        kmer_value(s, a, len + 1) == s[a] * pow4(len) + kmer_value(s, a + 1, len),
        rc_kmer_value(s, a, len + 1) == rc_digit(s[a]) + 4 * rc_kmer_value(s, a + 1, len),
    decreases len,
{
    if len == 0 {
        assert(kmer_value(s, a, 0) == 0);
        assert(kmer_value(s, a + 1, 0) == 0);
        assert(rc_kmer_value(s, a, 0) == 0);
        assert(rc_kmer_value(s, a + 1, 0) == 0);
        assert(pow4(0) == 1);
        assert(kmer_value(s, a, 1) == s[a] as nat);
        assert(rc_kmer_value(s, a, 1) == rc_digit(s[a]));
    } else {
        let l1 = (len - 1) as nat;
        lemma_kmer_value_front(s, a, l1);
        assert(kmer_value(s, a, len + 1) == kmer_value(s, a, len) * 4 + s[a + len] as nat);
        assert(kmer_value(s, a + 1, len) == kmer_value(s, a + 1, l1) * 4 + s[a + len] as nat);
        assert(rc_kmer_value(s, a, len + 1) == rc_kmer_value(s, a, len) + rc_digit(s[a + len]) * pow4(len));
        assert(rc_kmer_value(s, a + 1, len) == rc_kmer_value(s, a + 1, l1) + rc_digit(s[a + len]) * pow4(l1));
        assert(pow4(len) == 4 * pow4(l1));
        assert(a + 1 + l1 == a + len);
        let x = s[a] as int;
        let p = pow4(l1) as int;
        let y = kmer_value(s, a + 1, l1) as int;
        let c = s[a + len] as int;
        assert((x * p + y) * 4 + c == x * (4 * p) + (y * 4 + c)) by (nonlinear_arith);
        let z = rc_kmer_value(s, a + 1, l1) as int;
        let dx = rc_digit(s[a]) as int;
        let dc = rc_digit(s[a + len]) as int;
        assert(dx + 4 * z + dc * (4 * p) == dx + 4 * (z + dc * p)) by (nonlinear_arith);
    }
}

/// The rolling registers after reading `p` codes, with `run` the length of
/// the unambiguous run that ends at `p`, capped at `k`.
pub open spec fn rolling_state(
    s: Seq<u8>,
    k: nat,
    p: int,
    run: int,
    fwd: int,
    rev: int,
) -> bool {
    &&& 0 <= run <= k
    &&& run <= p <= s.len()
    &&& window_valid(s, p - run, run as nat)
    &&& (run < k && run < p ==> s[p - run - 1] >= 4)
    &&& fwd == kmer_value(s, p - run, run as nat)
    &&& rev == rc_kmer_value(s, p - run, run as nat) * pow4((k - run) as nat)
}

proof fn lemma_roll_step(s: Seq<u8>, k: nat, p: int, run: int, fwd: int, rev: int)
    requires
        1 <= k <= 16,
        rolling_state(s, k, p, run, fwd, rev),
        p < s.len(),
        s[p] < 4,
    ensures
        ({
            let c = s[p] as int;
            let nrun = if run < k { run + 1 } else { run };
            let nfwd = (fwd * 4 + c) % (pow4(k) as int);
            let nrev = rev / 4 + (3 - c) * pow4((k - 1) as nat);
            rolling_state(s, k, p + 1, nrun, nfwd, nrev)
        }),
{
    let c = s[p] as int;
    assert(rc_digit(s[p]) == 3 - c);
    let pk = pow4(k) as int;
    lemma_pow4_positive(k);
    assert forall|t: int| p - run <= t < p + 1 implies #[trigger] s[t] < 4 by {
        if t < p {
            assert(s[t] < 4);
        }
    }
    assert(window_valid(s, p + 1 - (run + 1), (run + 1) as nat));
    assert(kmer_value(s, p - run, (run + 1) as nat) == fwd * 4 + c);
    if run < k {
        let r1 = (run + 1) as nat;
        lemma_kmer_value_bound(s, p - run, r1);
        lemma_pow4_monotone(r1, k);
        lemma_fundamental_div_mod_converse(fwd * 4 + c, pk, 0, fwd * 4 + c);
        // reverse register
        let q = pow4((k - run - 1) as nat) as int;
        lemma_pow4_add(run as nat, (k - run - 1) as nat);
        assert(pow4((k - run) as nat) == 4 * q);
        assert((k - 1) as nat == run as nat + (k - run - 1) as nat);
        let w = rc_kmer_value(s, p - run, run as nat) as int;
        assert(rev == w * (4 * q));
        assert(w * (4 * q) == (w * q) * 4) by (nonlinear_arith);
        lemma_fundamental_div_mod_converse(rev, 4, w * q, 0);
        let pr = pow4(run as nat) as int;
        assert(w * q + (3 - c) * (pr * q) == (w + (3 - c) * pr) * q) by (nonlinear_arith);
        assert(rc_kmer_value(s, p - run, r1) == w + (3 - c) * pr);
    } else {
        let a = p - k;
        let km1 = (k - 1) as nat;
        lemma_kmer_value_front(s, a, k);
        assert(a + 1 + k == p + 1);
        lemma_kmer_value_bound(s, a + 1, k);
        let x = s[a] as int;
        assert(s[a] < 4);
        assert(rc_digit(s[a]) == 3 - x);
        let y = kmer_value(s, a + 1, k) as int;
        assert(fwd * 4 + c == x * pk + y);
        lemma_fundamental_div_mod_converse(fwd * 4 + c, pk, x, y);
        // reverse register
        assert(k - run == 0);
        assert(pow4(0) == 1);
        lemma_kmer_value_front(s, a, km1);
        assert(km1 + 1 == k);
        let z = rc_kmer_value(s, a + 1, km1) as int;
        assert(rev == rc_kmer_value(s, a, k) * 1);
        assert(rc_kmer_value(s, a, km1 + 1) == rc_digit(s[a]) + 4 * z);
        assert(rc_kmer_value(s, a, k) == rc_digit(s[a]) + 4 * z);
        let rk = rc_kmer_value(s, a, k) as int;
        assert(rk * 1 == rk) by (nonlinear_arith);
        assert(rev == rk);
        assert(rev == rc_digit(s[a]) + 4 * z);
        assert(rc_digit(s[a]) == 3 - x);
        assert(rev == (3 - x) + 4 * z);
        lemma_fundamental_div_mod_converse(rev, 4, z, 3 - x);
        assert(a + 1 + km1 == p);
        assert(rc_kmer_value(s, a + 1, k) == z + (3 - c) * pow4(km1));
    }
}

/// 4 to the power `k`, for `k` up to 16.
pub fn pow4_exec(k: usize) -> (r: u64)
    requires
        k <= MAX_INDEX_K,
    ensures
        r == pow4(k as nat),
{
    let mut r: u64 = 1;
    let mut i: usize = 0;
    while i < k
        invariant
            i <= k <= MAX_INDEX_K,
            r == pow4(i as nat),
        decreases k - i,
    {
        proof {
            lemma_pow4_monotone((i + 1) as nat, 16);
            lemma_pow4_16();
        }
        r = r * 4;
        i = i + 1;
    }
    r
}

/// The index of every window of length `k`, in order of its start: `None`
/// where the window holds an ambiguous code. One pass over the codes, with
/// O(1) work per code.
pub fn kmer_windows(codes: &Vec<u8>, k: usize, canonical: bool) -> (r: Vec<Option<u32>>)
    requires
        1 <= k <= MAX_INDEX_K,
    ensures
        r@.len() == window_count(codes@.len() as nat, k as nat),
        forall|j: int|
            0 <= j < r@.len() ==> #[trigger] r@[j] == match window_key(codes@, j, k as nat, canonical) {
                Some(v) => Some(v as u32),
                None => None::<u32>,
            },
{
    let s = Ghost(codes@);
    let size = pow4_exec(k);
    let top = pow4_exec(k - 1);
    let mut out: Vec<Option<u32>> = Vec::new();
    let mut fwd: u64 = 0;
    let mut rev: u64 = 0;
    let mut run: usize = 0;
    let mut i: usize = 0;
    proof {
        assert(pow4(0) == 1);
        assert(kmer_value(codes@, 0, 0) == 0);
        assert(rc_kmer_value(codes@, 0, 0) == 0);
        assert(0 * pow4(k as nat) == 0);
        assert(pow4(k as nat) == 4 * pow4((k - 1) as nat));
        lemma_pow4_monotone(k as nat, 16);
        lemma_pow4_16();
    }
    while i < codes.len()
        invariant
            1 <= k <= MAX_INDEX_K,
            s@ == codes@,
            size == pow4(k as nat),
            top == pow4((k - 1) as nat),
            size == 4 * top,
            size <= 4294967296,
            i <= codes@.len(),
            rolling_state(codes@, k as nat, i as int, run as int, fwd as int, rev as int),
            out@.len() == window_count(i as nat, k as nat),
            forall|j: int|
                0 <= j < out@.len() ==> #[trigger] out@[j] == match window_key(
                    codes@,
                    j,
                    k as nat,
                    canonical,
                ) {
                    Some(v) => Some(v as u32),
                    None => None::<u32>,
                },
        decreases codes.len() - i,
    {
        let c = codes[i];
        proof {
            lemma_kmer_value_bound(codes@, i - run, run as nat);
            lemma_pow4_monotone(run as nat, k as nat);
            lemma_pow4_monotone((k - 1) as nat, k as nat);
        }
        if c >= 4 {
            fwd = 0;
            rev = 0;
            run = 0;
            proof {
                assert(kmer_value(codes@, i + 1, 0) == 0);
                assert(rc_kmer_value(codes@, i + 1, 0) == 0);
            }
        } else {
            proof {
                lemma_roll_step(codes@, k as nat, i as int, run as int, fwd as int, rev as int);
                lemma_pow4_add((k - run) as nat, run as nat);
                assert(rev as int == rc_kmer_value(codes@, i - run, run as nat) * pow4((k - run) as nat));
                let w = rc_kmer_value(codes@, i - run, run as nat) as int;
                let q = pow4((k - run) as nat) as int;
                let pr = pow4(run as nat) as int;
                lemma_pow4_positive((k - run) as nat);
                assert(w * q < pr * q) by (nonlinear_arith)
                    requires
                        w < pr,
                        q >= 1,
                ;
                assert((k - run) as nat + run as nat == k as nat);
                assert(pr * q == q * pr) by (nonlinear_arith);
                assert(rev < size);
                assert((3 - c as u64) * top <= 3 * top) by (nonlinear_arith)
                    requires
                        c < 4,
                ;
                assert(rev / 4 < top);
            }
            fwd = (fwd * 4 + c as u64) % size;
            rev = rev / 4 + (3 - c as u64) * top;
            if run < k {
                run = run + 1;
            }
        }
        proof {
            lemma_kmer_value_bound(codes@, i + 1 - run, run as nat);
        }
        if i + 1 >= k {
            let j: Ghost<int> = Ghost(i + 1 - k);
            if run == k {
                proof {
                    let rk = rc_kmer_value(codes@, j@, k as nat) as int;
                    assert(pow4(0) == 1);
                    assert(rk * 1 == rk) by (nonlinear_arith);
                    assert(rev == rk);
                    assert(fwd == kmer_value(codes@, j@, k as nat));
                    assert(window_valid(codes@, j@, k as nat));
                }
                let key = if canonical && rev < fwd { rev } else { fwd };
                out.push(Some(key as u32));
            } else {
                proof {
                    assert(codes@[i - run] >= 4);
                    assert(!window_valid(codes@, j@, k as nat));
                }
                out.push(None);
            }
            proof {
                assert forall|jj: int|
                    0 <= jj < out@.len() implies #[trigger] out@[jj] == match window_key(
                        codes@,
                        jj,
                        k as nat,
                        canonical,
                    ) {
                        Some(v) => Some(v as u32),
                        None => None::<u32>,
                    } by {
                    if jj == j@ {
                    }
                }
            }
        }
        i = i + 1;
    }
    out
}

} // verus!
