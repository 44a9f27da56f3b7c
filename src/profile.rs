//! GC skew along a sequence of nucleotide codes.
use vstd::prelude::*;
use crate::nucleotide::{complement_code, same_base, CODE_C, CODE_G};
use vstd::arithmetic::div_mod::lemma_fundamental_div_mod;

verus! {

/// Number of positions in `[lo, hi)` that hold `code`.
pub open spec fn count_code(s: Seq<u8>, code: u8, lo: int, hi: int) -> nat
    decreases hi - lo,
{
    if hi <= lo {
        0
    } else {
        count_code(s, code, lo, hi - 1) + if s[hi - 1] == code { 1nat } else { 0nat }
    }
}

/// Counts of G and C in a stretch of sequence; the skew of the stretch is
/// `(g - c) / (g + c)`, and 0 when `g + c` is 0.
#[derive(Clone, Copy, PartialEq, Eq, Structural, Debug)]
pub struct GcCounts {
    pub g: usize,
    pub c: usize,
}

/// The G and C counts of `[lo, hi)`.
pub open spec fn gc_counts_of(s: Seq<u8>, lo: int, hi: int) -> GcCounts {
    GcCounts { g: count_code(s, CODE_G, lo, hi) as usize, c: count_code(s, CODE_C, lo, hi) as usize }
}

/// Number of windows of `window` codes, `step` apart, in `n` codes.
pub open spec fn skew_window_count(n: nat, window: nat, step: nat) -> nat {
    if window == 0 || step == 0 || n < window {
        0
    } else {
        ((n - window) as nat / step + 1) as nat
    }
}

proof fn lemma_count_code_front(s: Seq<u8>, code: u8, lo: int, hi: int)
    requires
        0 <= lo < hi <= s.len(),
    ensures
        count_code(s, code, lo, hi) == count_code(s, code, lo + 1, hi) + if s[lo] == code {
            1nat
        } else {
            0nat
        },
    decreases hi - lo,
{
    if lo + 1 < hi {
        lemma_count_code_front(s, code, lo, hi - 1);
    } else {
        assert(count_code(s, code, lo, lo) == 0);
        assert(count_code(s, code, lo + 1, hi) == 0);
    }
}

proof fn lemma_count_code_bound(s: Seq<u8>, code: u8, lo: int, hi: int)
    ensures
        count_code(s, code, lo, hi) <= if hi > lo { hi - lo } else { 0 },
    decreases hi - lo,
{
    if hi > lo {
        lemma_count_code_bound(s, code, lo, hi - 1);
    }
}

/// G and C counts of each window of `window` codes, starting every `step`
/// codes. The counts slide with the window: each code enters once and leaves
/// once, so the work is linear in the length.
pub(crate) fn windowed_gc(codes: &Vec<u8>, window: usize, step: usize) -> (r: Vec<GcCounts>)
    ensures
        r@.len() == skew_window_count(codes@.len() as nat, window as nat, step as nat),
        forall|i: int|
            0 <= i < r@.len() ==> #[trigger] r@[i] == gc_counts_of(
                codes@,
                i * step,
                i * step + window,
            ),
{
    let n = codes.len();
    let mut out: Vec<GcCounts> = Vec::new();
    if window == 0 || step == 0 || n < window {
        return out;
    }
    let count = (n - window) / step + 1;
    let mut lo: usize = 0;
    let mut hi: usize = 0;
    let mut g: usize = 0;
    let mut c: usize = 0;
    let mut i: usize = 0;
    while i < count
        invariant
            n == codes@.len(),
            1 <= window <= n,
            step >= 1,
            count == (n - window) as nat / step as nat + 1,
            i <= count,
            lo <= hi <= n,
            g == count_code(codes@, CODE_G, lo as int, hi as int),
            c == count_code(codes@, CODE_C, lo as int, hi as int),
            out@.len() == i,
            forall|q: int|
                0 <= q < i ==> #[trigger] out@[q] == gc_counts_of(codes@, q * step, q * step + window),
            lo <= i * step,
            hi <= i * step + window,
        decreases count - i,
    {
        proof {
            let q = (n - window) as int / step as int;
            lemma_fundamental_div_mod((n - window) as int, step as int);
            assert(i * step <= q * step) by (nonlinear_arith)
                requires
                    i <= q,
                    step >= 1,
            ;
            assert(q * step <= n - window) by (nonlinear_arith)
                requires
                    (n - window) as int == step * q + (n - window) as int % step as int,
                    (n - window) as int % step as int >= 0,
            ;
        }
        let start = i * step;
        let end = start + window;
        while hi < end
            invariant
                n == codes@.len(),
                lo <= start,
                end <= n,
                lo <= hi <= end,
                g == count_code(codes@, CODE_G, lo as int, hi as int),
                c == count_code(codes@, CODE_C, lo as int, hi as int),
            decreases end - hi,
        {
            proof {
                lemma_count_code_bound(codes@, CODE_G, lo as int, hi as int);
                lemma_count_code_bound(codes@, CODE_C, lo as int, hi as int);
            }
            let x = codes[hi];
            if x == CODE_G {
                g = g + 1;
            } else if x == CODE_C {
                c = c + 1;
            }
            hi = hi + 1;
        }
        while lo < start
            invariant
                n == codes@.len(),
                lo <= start <= hi,
                hi <= n,
                g == count_code(codes@, CODE_G, lo as int, hi as int),
                c == count_code(codes@, CODE_C, lo as int, hi as int),
            decreases start - lo,
        {
            proof {
                lemma_count_code_front(codes@, CODE_G, lo as int, hi as int);
                lemma_count_code_front(codes@, CODE_C, lo as int, hi as int);
            }
            let x = codes[lo];
            if x == CODE_G {
                g = g - 1;
            } else if x == CODE_C {
                c = c - 1;
            }
            lo = lo + 1;
        }
        out.push(GcCounts { g, c });
        proof {
            assert(lo + step <= (i + 1) * step) by (nonlinear_arith)
                requires
                    lo == i * step,
            ;
            assert(hi <= (i + 1) * step + window) by (nonlinear_arith)
                requires
                    hi == i * step + window,
            ;
        }
        i = i + 1;
    }
    out
}

/// G and C counts of every prefix that ends at a base: entry `i` covers
/// the first `i + 1` codes.
pub(crate) fn cumulative_gc(codes: &Vec<u8>) -> (r: Vec<GcCounts>)
    ensures
        r@.len() == codes@.len(),
        forall|i: int| 0 <= i < r@.len() ==> #[trigger] r@[i] == gc_counts_of(codes@, 0, i + 1),
{
    let n = codes.len();
    let mut out: Vec<GcCounts> = Vec::new();
    let mut g: usize = 0;
    let mut c: usize = 0;
    let mut i: usize = 0;
    while i < n
        invariant
            n == codes@.len(),
            i <= n,
            g == count_code(codes@, CODE_G, 0, i as int),
            c == count_code(codes@, CODE_C, 0, i as int),
            out@.len() == i,
            forall|q: int| 0 <= q < i ==> #[trigger] out@[q] == gc_counts_of(codes@, 0, q + 1),
        decreases n - i,
    {
        proof {
            lemma_count_code_bound(codes@, CODE_G, 0, i as int);
            lemma_count_code_bound(codes@, CODE_C, 0, i as int);
        }
        let x = codes[i];
        if x == CODE_G {
            g = g + 1;
        } else if x == CODE_C {
            c = c + 1;
        }
        out.push(GcCounts { g, c });
        i = i + 1;
    }
    out
}

/// Largest number of bins of a dot plot.
pub const MAX_DOT_BINS: usize = 1024;

/// Start of sampled window `i` of `bins` windows of `w` codes spread evenly
/// over `n` codes: the first starts at 0 and the last ends at `n`.
pub open spec fn sample_start(n: nat, w: nat, bins: nat, i: nat) -> nat {
    if bins <= 1 { 0 } else { (i * (n - w) as nat / (bins - 1) as nat) as nat }
}

/// Positions `t < upto` where the windows at `x` and `y` hold the same base.
pub open spec fn direct_matches(s: Seq<u8>, x: int, y: int, upto: int) -> nat
    decreases upto,
{
    if upto <= 0 {
        0
    } else {
        direct_matches(s, x, y, upto - 1) + if same_base(s[x + upto - 1], s[y + upto - 1]) {
            1nat
        } else {
            0nat
        }
    }
}

/// Positions `t < upto` where the window at `x` matches the reverse
/// complement of the window of `w` codes at `y`.
pub open spec fn inverted_matches(s: Seq<u8>, x: int, y: int, w: int, upto: int) -> nat
    decreases upto,
{
    if upto <= 0 {
        0
    } else {
        inverted_matches(s, x, y, w, upto - 1) + if same_base(
            s[x + upto - 1],
            complement_code(s[y + w - upto]),
        ) {
            1nat
        } else {
            0nat
        }
    }
}

/// A dot plot of a sequence against itself: for each pair of sampled
/// windows, the number of positions that match directly and against the
/// reverse complement. The identity fraction of a cell is its count over
/// `window`.
pub struct DotPlot {
    pub bins: usize,
    pub window: usize,
    pub direct: Vec<Vec<usize>>,
    pub inverted: Vec<Vec<usize>>,
}

/// The sizes of a dot plot are in its domain.
pub open spec fn dot_plot_in_domain(n: nat, bins: nat, window: nat) -> bool {
    1 <= bins <= MAX_DOT_BINS && 1 <= window <= n
}

/// The cells of a dot plot: the pair is taken in order, the lower index
/// first, so that the plot is symmetric.
pub open spec fn dot_plot_cells(s: Seq<u8>, bins: nat, window: nat, p: DotPlot) -> bool {
    &&& p.direct@.len() == bins
    &&& p.inverted@.len() == bins
    &&& forall|i: int| 0 <= i < bins ==> #[trigger] p.direct@[i]@.len() == bins
    &&& forall|i: int| 0 <= i < bins ==> #[trigger] p.inverted@[i]@.len() == bins
    &&& forall|i: int, j: int|
        0 <= i < bins && 0 <= j < bins ==> {
            let lo = if i <= j { i } else { j };
            let hi = if i <= j { j } else { i };
            let x = sample_start(s.len(), window, bins, lo as nat) as int;
            let y = sample_start(s.len(), window, bins, hi as nat) as int;
            &&& #[trigger] p.direct@[i]@[j] == direct_matches(s, x, y, window as int)
            &&& p.inverted@[i]@[j] == inverted_matches(s, x, y, window as int, window as int)
        }
}

fn sample_start_exec(n: usize, w: usize, bins: usize, i: usize) -> (r: usize)
    requires
        w <= n,
        i < bins,
    ensures
        r == sample_start(n as nat, w as nat, bins as nat, i as nat),
        r + w <= n,
{
    if bins <= 1 {
        return 0;
    }
    proof {
        assert((i as int) * ((n - w) as int) <= 0xffff_ffff_ffff_ffff * 0xffff_ffff_ffff_ffff)
            by (nonlinear_arith)
            requires
                0 <= i <= 0xffff_ffff_ffff_ffff,
                0 <= n - w <= 0xffff_ffff_ffff_ffff,
        ;
    }
    let num = i as u128 * (n - w) as u128;
    let d = (bins - 1) as u128;
    proof {
        assert((i as int) * ((n - w) as int) <= ((bins - 1) as int) * ((n - w) as int))
            by (nonlinear_arith)
            requires
                i <= bins - 1,
                w <= n,
        ;
        lemma_fundamental_div_mod(num as int, d as int);
        assert(num / d <= n - w) by (nonlinear_arith)
            requires
                num <= d * (n - w),
                num == d * (num / d) + num % d,
                num % d >= 0,
                d >= 1,
        ;
    }
    (num / d) as usize
}

fn count_direct(s: &Vec<u8>, x: usize, y: usize, w: usize) -> (r: usize)
    requires
        x + w <= s@.len(),
        y + w <= s@.len(),
    ensures
        r == direct_matches(s@, x as int, y as int, w as int),
{
    let n = s.len();
    let mut r: usize = 0;
    let mut t: usize = 0;
    while t < w
        invariant
            n == s@.len(),
            x + w <= s@.len(),
            y + w <= s@.len(),
            t <= w,
            r == direct_matches(s@, x as int, y as int, t as int),
            r <= t,
        decreases w - t,
    {
        let u = s[x + t];
        if u == s[y + t] && u < 4 {
            r = r + 1;
        }
        t = t + 1;
    }
    r
}

fn count_inverted(s: &Vec<u8>, x: usize, y: usize, w: usize) -> (r: usize)
    requires
        x + w <= s@.len(),
        y + w <= s@.len(),
    ensures
        r == inverted_matches(s@, x as int, y as int, w as int, w as int),
{
    let n = s.len();
    let mut r: usize = 0;
    let mut t: usize = 0;
    while t < w
        invariant
            n == s@.len(),
            x + w <= s@.len(),
            y + w <= s@.len(),
            t <= w,
            r == inverted_matches(s@, x as int, y as int, w as int, t as int),
            r <= t,
        decreases w - t,
    {
        let u = s[x + t];
        let v = s[y + w - 1 - t];
        if u < 4 && v < 4 && u == 3 - v {
            r = r + 1;
        }
        t = t + 1;
    }
    r
}

/// Dot plot of a code sequence against itself over `bins` evenly spaced
/// windows of `window` codes. Each unordered pair is computed once and
/// mirrored. Out of its domain the plot is empty.
pub(crate) fn dot_plot_codes(s: &Vec<u8>, bins: usize, window: usize) -> (p: DotPlot)
    ensures
        p.bins == bins,
        p.window == window,
        dot_plot_in_domain(s@.len(), bins as nat, window as nat) ==> dot_plot_cells(
            s@,
            bins as nat,
            window as nat,
            p,
        ),
        !dot_plot_in_domain(s@.len(), bins as nat, window as nat) ==> p.direct@.len() == 0
            && p.inverted@.len() == 0,
{
    let n = s.len();
    let mut direct: Vec<Vec<usize>> = Vec::new();
    let mut inverted: Vec<Vec<usize>> = Vec::new();
    if bins == 0 || bins > MAX_DOT_BINS || window == 0 || window > n {
        return DotPlot { bins, window, direct, inverted };
    }
    let mut i: usize = 0;
    while i < bins
        invariant
            n == s@.len(),
            dot_plot_in_domain(n as nat, bins as nat, window as nat),
            i <= bins,
            direct@.len() == i,
            inverted@.len() == i,
            forall|a: int| 0 <= a < i ==> #[trigger] direct@[a]@.len() == bins,
            forall|a: int| 0 <= a < i ==> #[trigger] inverted@[a]@.len() == bins,
            forall|a: int, j: int|
                0 <= a < i && 0 <= j < bins ==> {
                    let lo = if a <= j { a } else { j };
                    let hi = if a <= j { j } else { a };
                    let x = sample_start(n as nat, window as nat, bins as nat, lo as nat) as int;
                    let y = sample_start(n as nat, window as nat, bins as nat, hi as nat) as int;
                    &&& #[trigger] direct@[a]@[j] == direct_matches(s@, x, y, window as int)
                    &&& inverted@[a]@[j] == inverted_matches(
                        s@,
                        x,
                        y,
                        window as int,
                        window as int,
                    )
                },
        decreases bins - i,
    {
        let mut drow: Vec<usize> = Vec::new();
        let mut irow: Vec<usize> = Vec::new();
        let x = sample_start_exec(n, window, bins, i);
        let mut j: usize = 0;
        while j < bins
            invariant
                n == s@.len(),
                dot_plot_in_domain(n as nat, bins as nat, window as nat),
                i < bins,
                j <= bins,
                x == sample_start(n as nat, window as nat, bins as nat, i as nat),
                x + window <= n,
                direct@.len() == i,
                inverted@.len() == i,
                forall|a: int| 0 <= a < i ==> #[trigger] direct@[a]@.len() == bins,
                forall|a: int| 0 <= a < i ==> #[trigger] inverted@[a]@.len() == bins,
                forall|a: int, jj: int|
                    0 <= a < i && 0 <= jj < bins ==> {
                        let lo = if a <= jj { a } else { jj };
                        let hi = if a <= jj { jj } else { a };
                        let x = sample_start(n as nat, window as nat, bins as nat, lo as nat) as int;
                        let y = sample_start(n as nat, window as nat, bins as nat, hi as nat) as int;
                        &&& #[trigger] direct@[a]@[jj] == direct_matches(s@, x, y, window as int)
                        &&& inverted@[a]@[jj] == inverted_matches(
                            s@,
                            x,
                            y,
                            window as int,
                            window as int,
                        )
                    },
                drow@.len() == j,
                irow@.len() == j,
                forall|jj: int|
                    0 <= jj < j ==> {
                        let lo = if i <= jj { i as int } else { jj };
                        let hi = if i <= jj { jj } else { i as int };
                        let x = sample_start(n as nat, window as nat, bins as nat, lo as nat) as int;
                        let y = sample_start(n as nat, window as nat, bins as nat, hi as nat) as int;
                        &&& #[trigger] drow@[jj] == direct_matches(s@, x, y, window as int)
                        &&& irow@[jj] == inverted_matches(s@, x, y, window as int, window as int)
                    },
            decreases bins - j,
        {
            if j < i {
                let dv = direct[j][i];
                let iv = inverted[j][i];
                drow.push(dv);
                irow.push(iv);
            } else {
                let y = sample_start_exec(n, window, bins, j);
                drow.push(count_direct(s, x, y, window));
                irow.push(count_inverted(s, x, y, window));
            }
            j = j + 1;
        }
        let ghost d0 = direct@;
        let ghost i0 = inverted@;
        direct.push(drow);
        inverted.push(irow);
        proof {
            assert(direct@[i as int] == drow);
            assert(inverted@[i as int] == irow);
            assert forall|a: int, jj: int|
                0 <= a < i + 1 && 0 <= jj < bins implies {
                    let lo = if a <= jj { a } else { jj };
                    let hi = if a <= jj { jj } else { a };
                    let x = sample_start(n as nat, window as nat, bins as nat, lo as nat) as int;
                    let y = sample_start(n as nat, window as nat, bins as nat, hi as nat) as int;
                    &&& #[trigger] direct@[a]@[jj] == direct_matches(s@, x, y, window as int)
                    &&& inverted@[a]@[jj] == inverted_matches(s@, x, y, window as int, window as int)
                } by {
                if a < i {
                    assert(direct@[a] == d0[a]);
                    assert(inverted@[a] == i0[a]);
                }
            }
        }
        i = i + 1;
    }
    DotPlot { bins, window, direct, inverted }
}

} // verus!
