//! Levenshtein distance between two character sequences.
use vstd::prelude::*;

verus! {

/// Least number of single-character insertions, deletions and
/// substitutions that turn `a[..i]` into `b[..j]`.
pub open spec fn lev(a: Seq<char>, b: Seq<char>, i: nat, j: nat) -> nat
    decreases i + j,
{
    if i == 0 {
        j
    } else if j == 0 {
        i
    } else {
        let del = lev(a, b, (i - 1) as nat, j) + 1;
        let ins = lev(a, b, i, (j - 1) as nat) + 1;
        let sub = lev(a, b, (i - 1) as nat, (j - 1) as nat) + if a[i - 1] == b[j - 1] {
            0nat
        } else {
            1nat
        };
        let m = if del <= ins { del } else { ins };
        if sub <= m { sub } else { m }
    }
}

proof fn lemma_lev_symmetric(a: Seq<char>, b: Seq<char>, i: nat, j: nat)
    ensures
        lev(a, b, i, j) == lev(b, a, j, i),
    decreases i + j,
{
    if i > 0 && j > 0 {
        lemma_lev_symmetric(a, b, (i - 1) as nat, j);
        lemma_lev_symmetric(a, b, i, (j - 1) as nat);
        lemma_lev_symmetric(a, b, (i - 1) as nat, (j - 1) as nat);
    }
}

proof fn lemma_lev_bound(a: Seq<char>, b: Seq<char>, i: nat, j: nat)
    ensures
        lev(a, b, i, j) <= if i >= j { i } else { j },
    decreases i + j,
{
    if i > 0 && j > 0 {
        lemma_lev_bound(a, b, (i - 1) as nat, (j - 1) as nat);
    }
}

/// The distance with one row of costs over `s1`, column by column of `s2`.
fn levenshtein_rows(s1: &[char], s2: &[char]) -> (r: usize)
    requires
        s1@.len() < usize::MAX,
        s2@.len() < usize::MAX,
    ensures
        r == lev(s1@, s2@, s1@.len(), s2@.len()),
{
    let m = s1.len();
    let mut costs: Vec<usize> = Vec::new();
    let mut i: usize = 0;
    while i <= m
        invariant
            m == s1@.len() < usize::MAX,
            i <= m + 1,
            costs@.len() == i,
            forall|q: int| 0 <= q < i ==> #[trigger] costs@[q] == lev(s1@, s2@, q as nat, 0),
        decreases m + 1 - i,
    {
        costs.push(i);
        i = i + 1;
    }
    let mut j: usize = 0;
    while j < s2.len()
        invariant
            m == s1@.len() < usize::MAX,
            s2@.len() < usize::MAX,
            j <= s2@.len(),
            costs@.len() == m + 1,
            forall|q: int| 0 <= q <= m ==> #[trigger] costs@[q] == lev(s1@, s2@, q as nat, j as nat),
        decreases s2@.len() - j,
    {
        let c2 = s2[j];
        let mut prev = costs[0];
        costs.set(0, j + 1);
        let mut i: usize = 0;
        while i < m
            invariant
                m == s1@.len() < usize::MAX,
                s2@.len() < usize::MAX,
                j < s2@.len(),
                c2 == s2@[j as int],
                i <= m,
                costs@.len() == m + 1,
                forall|q: int|
                    0 <= q <= i ==> #[trigger] costs@[q] == lev(s1@, s2@, q as nat, (j + 1) as nat),
                forall|q: int|
                    i < q <= m ==> #[trigger] costs@[q] == lev(s1@, s2@, q as nat, j as nat),
                prev == lev(s1@, s2@, i as nat, j as nat),
            decreases m - i,
        {
            proof {
                lemma_lev_bound(s1@, s2@, i as nat, (j + 1) as nat);
                lemma_lev_bound(s1@, s2@, (i + 1) as nat, j as nat);
                lemma_lev_bound(s1@, s2@, i as nat, j as nat);
            }
            let ins = costs[i];
            let del = costs[i + 1];
            let sub = if s1[i] == c2 { prev } else { prev + 1 };
            prev = del;
            let best = if ins <= del { ins + 1 } else { del + 1 };
            let best = if sub <= best { sub } else { best };
            costs.set(i + 1, best);
            i = i + 1;
        }
        j = j + 1;
    }
    costs[m]
}

/// Levenshtein distance between two character sequences. The row of costs
/// runs over the shorter sequence.
pub fn levenshtein_distance(s1: &[char], s2: &[char]) -> (r: usize)
    requires
        s1@.len() < usize::MAX,
        s2@.len() < usize::MAX,
    ensures
        r == lev(s1@, s2@, s1@.len(), s2@.len()),
{
    let m = s1.len();
    let n = s2.len();
    if m == 0 {
        return n;
    }
    if n == 0 {
        return m;
    }
    if m > n {
        proof {
            lemma_lev_symmetric(s1@, s2@, m as nat, n as nat);
        }
        return levenshtein_rows(s2, s1);
    }
    levenshtein_rows(s1, s2)
}

} // verus!
