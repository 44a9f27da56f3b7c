//! Shortest edit scripts between two nucleotide sequences.
//!
//! The edit distance counts insertions and deletions only; two bases match
//! when they are the same unambiguous base (case folded, U read as T). An
//! ambiguous base matches nothing, not even another ambiguous base.
use vstd::prelude::*;
use crate::nucleotide::{bases_equal, code_of, same_base};

verus! {

/// Ceiling on the number of cells of the distance table that a search may use.
pub const MAX_DIFF_CELLS: u64 = 16777216;

/// Tag of one position in a diff mask.
#[derive(Clone, Copy, PartialEq, Eq, Structural, Debug)]
pub enum DiffTag {
    Match,
    Mismatch,
    Insert,
    Delete,
}

/// One step of an edit script. A `Match` consumes a base of each sequence,
/// a `Delete` one of the first, an `Insert` one of the second.
#[derive(Clone, Copy, PartialEq, Eq, Structural, Debug)]
pub enum EditOp {
    Match,
    Delete,
    Insert,
}

/// Result of a diff.
pub struct DiffResult {
    /// One tag per base of the first sequence.
    pub mask_a: Vec<DiffTag>,
    /// One tag per base of the second sequence.
    pub mask_b: Vec<DiffTag>,
    /// The edit script, in order.
    pub script: Vec<EditOp>,
    pub edit_distance: usize,
    pub matches: usize,
    pub mismatches: usize,
    pub insertions: usize,
    pub deletions: usize,
    /// Set when a guardrail stopped the search; the other fields are then
    /// empty or zero.
    pub truncated: bool,
    /// Why the search stopped, or why the input was refused.
    pub error: Option<String>,
}

/// Bases `a[i]` and `b[j]` match.
pub open spec fn base_match(a: Seq<u8>, i: int, b: Seq<u8>, j: int) -> bool {
    same_base(code_of(a[i]), code_of(b[j]))
}

pub open spec fn min_nat(x: nat, y: nat) -> nat {
    if x <= y { x } else { y }
}

/// Least number of insertions and deletions that turn `a[..i]` into `b[..j]`.
pub open spec fn dist(a: Seq<u8>, b: Seq<u8>, i: nat, j: nat) -> nat
    decreases i + j,
{
    if i == 0 {
        j
    } else if j == 0 {
        i
    } else {
        let best = min_nat(dist(a, b, (i - 1) as nat, j) + 1, dist(a, b, i, (j - 1) as nat) + 1);
        if base_match(a, i - 1, b, j - 1) {
            min_nat(best, dist(a, b, (i - 1) as nat, (j - 1) as nat))
        } else {
            best
        }
    }
}

/// The edit distance between two whole sequences.
pub open spec fn edit_distance(a: Seq<u8>, b: Seq<u8>) -> nat {
    dist(a, b, a.len(), b.len())
}

/// The script that the traceback picks for `a[..i]` and `b[..j]`: walking
/// back from the end, a deletion where it costs no more than the best, else
/// an insertion, else a match.
pub open spec fn trace(a: Seq<u8>, b: Seq<u8>, i: nat, j: nat) -> Seq<EditOp>
    decreases i + j,
{
    if i == 0 && j == 0 {
        Seq::empty()
    } else if i > 0 && dist(a, b, i, j) == dist(a, b, (i - 1) as nat, j) + 1 {
        trace(a, b, (i - 1) as nat, j).push(EditOp::Delete)
    } else if j > 0 && dist(a, b, i, j) == dist(a, b, i, (j - 1) as nat) + 1 {
        trace(a, b, i, (j - 1) as nat).push(EditOp::Insert)
    } else if i > 0 && j > 0 {
        trace(a, b, (i - 1) as nat, (j - 1) as nat).push(EditOp::Match)
    } else {
        Seq::empty()
    }
}

/// The script of least cost that `diff` returns.
pub open spec fn edit_script(a: Seq<u8>, b: Seq<u8>) -> Seq<EditOp> {
    trace(a, b, a.len(), b.len())
}

/// `ops` turns `a` into `b`: it covers the positions of each sequence in
/// order, exactly once, and matches only matching bases.
pub open spec fn script_valid(a: Seq<u8>, b: Seq<u8>, ops: Seq<EditOp>) -> bool
    decreases ops.len(),
{
    if ops.len() == 0 {
        a.len() == 0 && b.len() == 0
    } else {
        match ops[0] {
            EditOp::Match => a.len() > 0 && b.len() > 0 && base_match(a, 0, b, 0)
                && script_valid(a.skip(1), b.skip(1), ops.skip(1)),
            EditOp::Delete => a.len() > 0 && script_valid(a.skip(1), b, ops.skip(1)),
            EditOp::Insert => b.len() > 0 && script_valid(a, b.skip(1), ops.skip(1)),
        }
    }
}

/// Number of steps of `ops` equal to `op`.
pub open spec fn count_op(ops: Seq<EditOp>, op: EditOp) -> nat
    decreases ops.len(),
{
    if ops.len() == 0 {
        0
    } else {
        count_op(ops.drop_last(), op) + if ops.last() == op { 1nat } else { 0nat }
    }
}

/// Number of insertions and deletions in `ops`.
pub open spec fn script_cost(ops: Seq<EditOp>) -> nat {
    count_op(ops, EditOp::Insert) + count_op(ops, EditOp::Delete)
}

/// The mask of the first sequence that a script gives.
pub open spec fn mask_a_of(ops: Seq<EditOp>) -> Seq<DiffTag>
    decreases ops.len(),
{
    if ops.len() == 0 {
        Seq::empty()
    } else {
        let m = mask_a_of(ops.drop_last());
        match ops.last() {
            EditOp::Match => m.push(DiffTag::Match),
            EditOp::Delete => m.push(DiffTag::Delete),
            EditOp::Insert => m,
        }
    }
}

/// The mask of the second sequence that a script gives.
pub open spec fn mask_b_of(ops: Seq<EditOp>) -> Seq<DiffTag>
    decreases ops.len(),
{
    if ops.len() == 0 {
        Seq::empty()
    } else {
        let m = mask_b_of(ops.drop_last());
        match ops.last() {
            EditOp::Match => m.push(DiffTag::Match),
            EditOp::Delete => m,
            EditOp::Insert => m.push(DiffTag::Insert),
        }
    }
}

/// The two sequences have equal length and match at every position.
pub open spec fn positionally_equal(a: Seq<u8>, b: Seq<u8>) -> bool {
    a.len() == b.len() && forall|i: int| 0 <= i < a.len() ==> #[trigger] base_match(a, i, b, i)
}

/// The distance table of the two sequences would exceed its ceiling.
pub open spec fn table_too_large(a: Seq<u8>, b: Seq<u8>) -> bool {
    (a.len() + 1) * (b.len() + 1) > MAX_DIFF_CELLS
}

/// The diff needs no search: the sequences match position by position,
/// or one of them is empty.
pub open spec fn fast_path(a: Seq<u8>, b: Seq<u8>) -> bool {
    positionally_equal(a, b) || a.len() == 0 || b.len() == 0
}

/// A diff stops at a guardrail: the distance exceeds the budget, or the
/// search would need a table over the ceiling.
pub open spec fn diff_truncated(a: Seq<u8>, b: Seq<u8>, max_distance: nat) -> bool {
    if fast_path(a, b) {
        edit_distance(a, b) > max_distance
    } else {
        table_too_large(a, b) || edit_distance(a, b) > max_distance
    }
}

/// What a diff that finished returns: a valid script of least cost, the
/// masks it gives and its counts.
pub open spec fn diff_complete(a: Seq<u8>, b: Seq<u8>, r: DiffResult) -> bool {
    &&& !r.truncated
    &&& r.error is None
    &&& r.script@ == edit_script(a, b)
    &&& script_valid(a, b, r.script@)
    &&& script_cost(r.script@) == edit_distance(a, b)
    &&& r.edit_distance == edit_distance(a, b)
    &&& r.mask_a@ == mask_a_of(r.script@)
    &&& r.mask_b@ == mask_b_of(r.script@)
    &&& r.matches == count_op(r.script@, EditOp::Match)
    &&& r.insertions == count_op(r.script@, EditOp::Insert)
    &&& r.deletions == count_op(r.script@, EditOp::Delete)
    &&& r.mismatches == 0
}

/// What a diff that stopped at a guardrail returns.
pub open spec fn diff_stopped(r: DiffResult) -> bool {
    &&& r.truncated
    &&& r.error is Some
    &&& r.script@.len() == 0
    &&& r.mask_a@.len() == 0
    &&& r.mask_b@.len() == 0
    &&& r.edit_distance == 0
    &&& r.matches == 0
    &&& r.mismatches == 0
    &&& r.insertions == 0
    &&& r.deletions == 0
}

proof fn lemma_dist_bound(a: Seq<u8>, b: Seq<u8>, i: nat, j: nat)
    ensures
        dist(a, b, i, j) <= i + j,
    decreases i + j,
{
    if i > 0 && j > 0 {
        lemma_dist_bound(a, b, (i - 1) as nat, j);
    }
}

/// The table of `dist` for every pair of prefixes, row by row.
fn distance_table(a: &[u8], b: &[u8]) -> (t: Vec<Vec<u32>>)
    requires
        (a@.len() + 1) * (b@.len() + 1) <= MAX_DIFF_CELLS,
    ensures
        t@.len() == a@.len() + 1,
        forall|i: int| 0 <= i <= a@.len() ==> #[trigger] t@[i]@.len() == b@.len() + 1,
        forall|i: int, j: int|
            0 <= i <= a@.len() && 0 <= j <= b@.len() ==> #[trigger] t@[i]@[j] == dist(
                a@,
                b@,
                i as nat,
                j as nat,
            ),
{
    let n = a.len();
    let m = b.len();
    proof {
        assert(n + 1 <= MAX_DIFF_CELLS && m + 1 <= MAX_DIFF_CELLS) by (nonlinear_arith)
            requires
                (n + 1) * (m + 1) <= MAX_DIFF_CELLS,
        ;
    }
    let mut t: Vec<Vec<u32>> = Vec::new();
    let mut first: Vec<u32> = Vec::new();
    let mut j: usize = 0;
    while j <= m
        invariant
            j <= m + 1,
            m + 1 <= MAX_DIFF_CELLS,
            m == b@.len(),
            first@.len() == j,
            forall|jj: int| 0 <= jj < j ==> #[trigger] first@[jj] == dist(a@, b@, 0, jj as nat),
        decreases m + 1 - j,
    {
        first.push(j as u32);
        j = j + 1;
    }
    t.push(first);
    let mut i: usize = 1;
    while i <= n
        invariant
            1 <= i <= n + 1,
            n == a@.len(),
            m == b@.len(),
            n + 1 <= MAX_DIFF_CELLS,
            m + 1 <= MAX_DIFF_CELLS,
            t@.len() == i,
            forall|ii: int| 0 <= ii < i ==> #[trigger] t@[ii]@.len() == m + 1,
            forall|ii: int, jj: int|
                0 <= ii < i && 0 <= jj <= m ==> #[trigger] t@[ii]@[jj] == dist(
                    a@,
                    b@,
                    ii as nat,
                    jj as nat,
                ),
        decreases n + 1 - i,
    {
        let mut row: Vec<u32> = Vec::new();
        row.push(i as u32);
        let mut j: usize = 1;
        while j <= m
            invariant
                1 <= i <= n,
                1 <= j <= m + 1,
                n == a@.len(),
                m == b@.len(),
                n + 1 <= MAX_DIFF_CELLS,
                m + 1 <= MAX_DIFF_CELLS,
                t@.len() == i,
                t@[i - 1]@.len() == m + 1,
                forall|jj: int|
                    0 <= jj <= m ==> #[trigger] t@[i - 1]@[jj] == dist(
                        a@,
                        b@,
                        (i - 1) as nat,
                        jj as nat,
                    ),
                row@.len() == j,
                forall|jj: int| 0 <= jj < j ==> #[trigger] row@[jj] == dist(a@, b@, i as nat, jj as nat),
            decreases m + 1 - j,
        {
            proof {
                lemma_dist_bound(a@, b@, (i - 1) as nat, j as nat);
                lemma_dist_bound(a@, b@, i as nat, (j - 1) as nat);
            }
            let up = t[i - 1][j];
            let left = row[j - 1];
            let diag = t[i - 1][j - 1];
            let mut best = if up <= left { up + 1 } else { left + 1 };
            if bases_equal(a[i - 1], b[j - 1]) && diag < best {
                best = diag;
            }
            row.push(best);
            j = j + 1;
        }
        t.push(row);
        i = i + 1;
    }
    t
}

proof fn lemma_count_op_prepend(op: EditOp, s: Seq<EditOp>, o: EditOp)
    ensures
        count_op(seq![op] + s, o) == count_op(s, o) + if op == o { 1nat } else { 0nat },
    decreases s.len(),
{
    if s.len() > 0 {
        lemma_count_op_prepend(op, s.drop_last(), o);
        assert((seq![op] + s).drop_last() =~= seq![op] + s.drop_last());
        assert((seq![op] + s).last() == s.last());
    } else {
        assert(seq![op] + s =~= seq![op]);
        assert(seq![op].drop_last() =~= Seq::<EditOp>::empty());
        assert(seq![op].last() == op);
        assert(count_op(Seq::<EditOp>::empty(), o) == 0);
    }
}

/// Walks the distance table back from its last cell to its first and
/// returns the script in forward order. Where a deletion or an insertion
/// costs as little as a match, it is preferred, so that matches gather
/// toward the start.
fn trace_script(a: &[u8], b: &[u8], t: &Vec<Vec<u32>>) -> (ops: Vec<EditOp>)
    requires
        (a@.len() + 1) * (b@.len() + 1) <= MAX_DIFF_CELLS,
        t@.len() == a@.len() + 1,
        forall|i: int| 0 <= i <= a@.len() ==> #[trigger] t@[i]@.len() == b@.len() + 1,
        forall|i: int, j: int|
            0 <= i <= a@.len() && 0 <= j <= b@.len() ==> #[trigger] t@[i]@[j] == dist(
                a@,
                b@,
                i as nat,
                j as nat,
            ),
    ensures
        ops@ == edit_script(a@, b@),
        script_valid(a@, b@, ops@),
        script_cost(ops@) == edit_distance(a@, b@),
{
    let n = a.len();
    let m = b.len();
    proof {
        assert(n + 1 <= MAX_DIFF_CELLS && m + 1 <= MAX_DIFF_CELLS) by (nonlinear_arith)
            requires
                (n + 1) * (m + 1) <= MAX_DIFF_CELLS,
        ;
    }
    let mut i: usize = n;
    let mut j: usize = m;
    let mut rev: Vec<EditOp> = Vec::new();
    let ghost mut suf: Seq<EditOp> = Seq::empty();
    proof {
        assert(a@.subrange(n as int, n as int) =~= Seq::<u8>::empty());
        assert(b@.subrange(m as int, m as int) =~= Seq::<u8>::empty());
        assert(edit_script(a@, b@) + suf =~= edit_script(a@, b@));
    }
    while i > 0 || j > 0
        invariant
            i <= n == a@.len(),
            j <= m == b@.len(),
            n + 1 <= MAX_DIFF_CELLS,
            m + 1 <= MAX_DIFF_CELLS,
            t@.len() == a@.len() + 1,
            forall|ii: int| 0 <= ii <= a@.len() ==> #[trigger] t@[ii]@.len() == b@.len() + 1,
            forall|ii: int, jj: int|
                0 <= ii <= a@.len() && 0 <= jj <= b@.len() ==> #[trigger] t@[ii]@[jj] == dist(
                    a@,
                    b@,
                    ii as nat,
                    jj as nat,
                ),
            script_valid(a@.subrange(i as int, n as int), b@.subrange(j as int, m as int), suf),
            script_cost(suf) + dist(a@, b@, i as nat, j as nat) == edit_distance(a@, b@),
            rev@.len() == suf.len(),
            forall|q: int| 0 <= q < suf.len() ==> #[trigger] rev@[q] == suf[suf.len() - 1 - q],
            trace(a@, b@, i as nat, j as nat) + suf == edit_script(a@, b@),
        decreases i + j,
    {
        proof {
            if i > 0 {
                lemma_dist_bound(a@, b@, (i - 1) as nat, j as nat);
            }
            if j > 0 {
                lemma_dist_bound(a@, b@, i as nat, (j - 1) as nat);
            }
        }
        let cur = t[i][j];
        let op = if i > 0 && cur == t[i - 1][j] + 1 {
            EditOp::Delete
        } else if j > 0 && cur == t[i][j - 1] + 1 {
            EditOp::Insert
        } else {
            EditOp::Match
        };
        let ghost old_suf = suf;
        let ghost sa = a@.subrange(i as int, n as int);
        let ghost sb = b@.subrange(j as int, m as int);
        proof {
            suf = seq![op] + old_suf;
            let ni: nat = if op == EditOp::Insert { i as nat } else { (i - 1) as nat };
            let nj: nat = if op == EditOp::Delete { j as nat } else { (j - 1) as nat };
            assert(trace(a@, b@, i as nat, j as nat) == trace(a@, b@, ni, nj).push(op));
            assert(trace(a@, b@, ni, nj) + suf =~= trace(a@, b@, i as nat, j as nat) + old_suf);
            lemma_count_op_prepend(op, old_suf, EditOp::Insert);
            lemma_count_op_prepend(op, old_suf, EditOp::Delete);
            assert(suf[0] == op);
            assert(suf.skip(1) =~= old_suf);
        }
        match op {
            EditOp::Delete => {
                proof {
                    let na = a@.subrange(i - 1, n as int);
                    assert(na.skip(1) =~= sa);
                }
                i = i - 1;
            },
            EditOp::Insert => {
                proof {
                    let nb = b@.subrange(j - 1, m as int);
                    assert(nb.skip(1) =~= sb);
                }
                j = j - 1;
            },
            EditOp::Match => {
                proof {
                    assert(i > 0 && j > 0);
                    assert(base_match(a@, i - 1, b@, j - 1));
                    let na = a@.subrange(i - 1, n as int);
                    let nb = b@.subrange(j - 1, m as int);
                    assert(na.skip(1) =~= sa);
                    assert(nb.skip(1) =~= sb);
                    assert(na[0] == a@[i - 1]);
                    assert(nb[0] == b@[j - 1]);
                }
                i = i - 1;
                j = j - 1;
            },
        }
        rev.push(op);
        proof {
            assert forall|q: int| 0 <= q < suf.len() implies #[trigger] rev@[q] == suf[suf.len() - 1 - q] by {
                if q < old_suf.len() {
                    assert(rev@[q] == old_suf[old_suf.len() - 1 - q]);
                }
            }
        }
    }
    let mut ops: Vec<EditOp> = Vec::new();
    let mut q: usize = rev.len();
    while q > 0
        invariant
            q <= rev@.len() == suf.len(),
            forall|x: int| 0 <= x < suf.len() ==> #[trigger] rev@[x] == suf[suf.len() - 1 - x],
            ops@ =~= suf.subrange(0, (suf.len() - q) as int),
        decreases q,
    {
        q = q - 1;
        ops.push(rev[q]);
    }
    proof {
        assert(a@.subrange(0, n as int) =~= a@);
        assert(b@.subrange(0, m as int) =~= b@);
        assert(ops@ =~= suf);
        assert(dist(a@, b@, 0, 0) == 0);
        assert(trace(a@, b@, 0, 0) + suf =~= suf);
    }
    ops
}

proof fn lemma_dist_lower(a: Seq<u8>, b: Seq<u8>, i: nat, j: nat)
    ensures
        dist(a, b, i, j) >= i - j,
        dist(a, b, i, j) >= j - i,
    decreases i + j,
{
    if i > 0 && j > 0 {
        lemma_dist_lower(a, b, (i - 1) as nat, j);
        lemma_dist_lower(a, b, i, (j - 1) as nat);
        lemma_dist_lower(a, b, (i - 1) as nat, (j - 1) as nat);
    }
}

/// A script of `len` matches.
pub open spec fn all_matches(len: nat) -> Seq<EditOp> {
    Seq::new(len, |q: int| EditOp::Match)
}

proof fn lemma_equal_prefix_dist(a: Seq<u8>, b: Seq<u8>, i: nat)
    requires
        positionally_equal(a, b),
        i <= a.len(),
    ensures
        dist(a, b, i, i) == 0,
    decreases i,
{
    if i > 0 {
        lemma_equal_prefix_dist(a, b, (i - 1) as nat);
        assert(base_match(a, i - 1, b, i - 1));
    }
}

proof fn lemma_trace_equal(a: Seq<u8>, b: Seq<u8>, i: nat)
    requires
        positionally_equal(a, b),
        i <= a.len(),
    ensures
        trace(a, b, i, i) =~= all_matches(i),
    decreases i,
{
    if i > 0 {
        lemma_trace_equal(a, b, (i - 1) as nat);
        lemma_equal_prefix_dist(a, b, i);
        assert(all_matches(i) =~= all_matches((i - 1) as nat).push(EditOp::Match));
    }
}

/// A script of `len` copies of `op`.
pub open spec fn uniform(len: nat, op: EditOp) -> Seq<EditOp> {
    Seq::new(len, |q: int| op)
}

proof fn lemma_uniform_counts(len: nat, op: EditOp, o: EditOp)
    ensures
        count_op(uniform(len, op), o) == if o == op { len } else { 0 },
    decreases len,
{
    if len > 0 {
        lemma_uniform_counts((len - 1) as nat, op, o);
        assert(uniform(len, op).drop_last() =~= uniform((len - 1) as nat, op));
    }
}

proof fn lemma_trace_one_empty(a: Seq<u8>, b: Seq<u8>, i: nat, j: nat)
    requires
        i == 0 || j == 0,
    ensures
        i == 0 ==> trace(a, b, i, j) =~= uniform(j, EditOp::Insert),
        j == 0 ==> trace(a, b, i, j) =~= uniform(i, EditOp::Delete),
        i == 0 ==> script_valid(Seq::<u8>::empty(), b.subrange(b.len() - j, b.len() as int), uniform(j, EditOp::Insert)) || j > b.len(),
        j == 0 ==> script_valid(a.subrange(a.len() - i, a.len() as int), Seq::<u8>::empty(), uniform(i, EditOp::Delete)) || i > a.len(),
    decreases i + j,
{
    if i > 0 {
        lemma_trace_one_empty(a, b, (i - 1) as nat, j);
        assert(uniform(i, EditOp::Delete) =~= uniform((i - 1) as nat, EditOp::Delete).push(EditOp::Delete));
        assert(uniform(i, EditOp::Insert) =~= uniform((i - 1) as nat, EditOp::Insert).push(EditOp::Insert));
        if i <= a.len() {
            let sa = a.subrange(a.len() - i, a.len() as int);
            assert(sa.skip(1) =~= a.subrange(a.len() - (i - 1), a.len() as int));
            assert(uniform(i, EditOp::Delete).skip(1) =~= uniform((i - 1) as nat, EditOp::Delete));
        }
    } else if j > 0 {
        lemma_trace_one_empty(a, b, i, (j - 1) as nat);
        assert(uniform(j, EditOp::Insert) =~= uniform((j - 1) as nat, EditOp::Insert).push(EditOp::Insert));
        assert(uniform(j, EditOp::Delete) =~= uniform((j - 1) as nat, EditOp::Delete).push(EditOp::Delete));
        if j <= b.len() {
            let sb = b.subrange(b.len() - j, b.len() as int);
            assert(sb.skip(1) =~= b.subrange(b.len() - (j - 1), b.len() as int));
            assert(uniform(j, EditOp::Insert).skip(1) =~= uniform((j - 1) as nat, EditOp::Insert));
        }
    } else {
        assert(b.subrange(b.len() as int, b.len() as int) =~= Seq::<u8>::empty());
        assert(a.subrange(a.len() as int, a.len() as int) =~= Seq::<u8>::empty());
    }
}

proof fn lemma_all_matches_valid(a: Seq<u8>, b: Seq<u8>, i: int)
    requires
        positionally_equal(a, b),
        0 <= i <= a.len(),
    ensures
        script_valid(
            a.subrange(i, a.len() as int),
            b.subrange(i, b.len() as int),
            all_matches((a.len() - i) as nat),
        ),
    decreases a.len() - i,
{
    let sa = a.subrange(i, a.len() as int);
    let sb = b.subrange(i, b.len() as int);
    let ops = all_matches((a.len() - i) as nat);
    if i < a.len() {
        lemma_all_matches_valid(a, b, i + 1);
        assert(sa.skip(1) =~= a.subrange(i + 1, a.len() as int));
        assert(sb.skip(1) =~= b.subrange(i + 1, b.len() as int));
        assert(ops.skip(1) =~= all_matches((a.len() - (i + 1)) as nat));
        assert(base_match(a, i, b, i));
        assert(sa[0] == a[i] && sb[0] == b[i]);
    }
}

proof fn lemma_all_matches_counts(len: nat)
    ensures
        count_op(all_matches(len), EditOp::Match) == len,
        count_op(all_matches(len), EditOp::Insert) == 0,
        count_op(all_matches(len), EditOp::Delete) == 0,
    decreases len,
{
    if len > 0 {
        lemma_all_matches_counts((len - 1) as nat);
        assert(all_matches(len).drop_last() =~= all_matches((len - 1) as nat));
    }
}

/// Whether the sequences have equal length and match at every position.
fn equal_at_every_position(a: &[u8], b: &[u8]) -> (r: bool)
    ensures
        r == positionally_equal(a@, b@),
{
    if a.len() != b.len() {
        return false;
    }
    let mut i: usize = 0;
    while i < a.len()
        invariant
            a@.len() == b@.len(),
            i <= a@.len(),
            forall|q: int| 0 <= q < i ==> #[trigger] base_match(a@, q, b@, q),
        decreases a@.len() - i,
    {
        if !bases_equal(a[i], b[i]) {
            proof {
                assert(!base_match(a@, i as int, b@, i as int));
            }
            return false;
        }
        i = i + 1;
    }
    true
}

/// The result of a finished diff: masks and counts derived from the script.
fn complete_result(script: Vec<EditOp>) -> (r: DiffResult)
    ensures
        r.script@ == script@,
        !r.truncated,
        r.error is None,
        r.mask_a@ == mask_a_of(script@),
        r.mask_b@ == mask_b_of(script@),
        r.matches == count_op(script@, EditOp::Match),
        r.insertions == count_op(script@, EditOp::Insert),
        r.deletions == count_op(script@, EditOp::Delete),
        r.edit_distance == script_cost(script@),
        r.mismatches == 0,
{
    let mut mask_a: Vec<DiffTag> = Vec::new();
    let mut mask_b: Vec<DiffTag> = Vec::new();
    let mut matches: usize = 0;
    let mut insertions: usize = 0;
    let mut deletions: usize = 0;
    let mut q: usize = 0;
    while q < script.len()
        invariant
            q <= script@.len(),
            mask_a@ == mask_a_of(script@.subrange(0, q as int)),
            mask_b@ == mask_b_of(script@.subrange(0, q as int)),
            matches == count_op(script@.subrange(0, q as int), EditOp::Match),
            insertions == count_op(script@.subrange(0, q as int), EditOp::Insert),
            deletions == count_op(script@.subrange(0, q as int), EditOp::Delete),
            matches + insertions + deletions == q,
        decreases script@.len() - q,
    {
        proof {
            assert(script@.subrange(0, q + 1).drop_last() =~= script@.subrange(0, q as int));
            assert(script@.subrange(0, q + 1).last() == script@[q as int]);
        }
        match script[q] {
            EditOp::Match => {
                mask_a.push(DiffTag::Match);
                mask_b.push(DiffTag::Match);
                matches = matches + 1;
            },
            EditOp::Delete => {
                mask_a.push(DiffTag::Delete);
                deletions = deletions + 1;
            },
            EditOp::Insert => {
                mask_b.push(DiffTag::Insert);
                insertions = insertions + 1;
            },
        }
        q = q + 1;
    }
    proof {
        assert(script@.subrange(0, script@.len() as int) =~= script@);
    }
    DiffResult {
        mask_a,
        mask_b,
        script,
        edit_distance: insertions + deletions,
        matches,
        mismatches: 0,
        insertions,
        deletions,
        truncated: false,
        error: None,
    }
}

/// The result of a diff that a guardrail stopped.
fn stopped_result(reason: String) -> (r: DiffResult)
    ensures
        diff_stopped(r),
{
    DiffResult {
        mask_a: Vec::new(),
        mask_b: Vec::new(),
        script: Vec::new(),
        edit_distance: 0,
        matches: 0,
        mismatches: 0,
        insertions: 0,
        deletions: 0,
        truncated: true,
        error: Some(reason),
    }
}

/// Shortest edit script between two sequences, within a budget of
/// `max_distance` edits.
///
/// Sequences that match at every position take a fast path and never stop.
/// Otherwise the diff stops, with `truncated` set and a reason, when the
/// distance table would exceed its ceiling or the edit distance exceeds the
/// budget. A diff that finishes returns a script of least cost, the masks
/// it gives and its counts.
pub fn diff(a: &[u8], b: &[u8], max_distance: usize) -> (r: DiffResult)
    ensures
        r.truncated == diff_truncated(a@, b@, max_distance as nat),
        r.truncated ==> diff_stopped(r),
        !r.truncated ==> diff_complete(a@, b@, r),
{
    let n = a.len();
    let m = b.len();
    if equal_at_every_position(a, b) {
        let mut script: Vec<EditOp> = Vec::new();
        let mut q: usize = 0;
        while q < n
            invariant
                q <= n,
                script@ =~= all_matches(q as nat),
            decreases n - q,
        {
            script.push(EditOp::Match);
            q = q + 1;
        }
        proof {
            lemma_all_matches_valid(a@, b@, 0);
            assert(a@.subrange(0, n as int) =~= a@);
            assert(b@.subrange(0, m as int) =~= b@);
            lemma_all_matches_counts(n as nat);
            lemma_equal_prefix_dist(a@, b@, n as nat);
            lemma_trace_equal(a@, b@, n as nat);
        }
        return complete_result(script);
    }
    if n == 0 || m == 0 {
        let total = n + m;
        if total > max_distance {
            return stopped_result("edit distance exceeds the budget".to_string());
        }
        let op = if n == 0 { EditOp::Insert } else { EditOp::Delete };
        let mut script: Vec<EditOp> = Vec::new();
        let mut q: usize = 0;
        while q < total
            invariant
                q <= total,
                script@ =~= uniform(q as nat, op),
            decreases total - q,
        {
            script.push(op);
            q = q + 1;
        }
        proof {
            lemma_trace_one_empty(a@, b@, n as nat, m as nat);
            lemma_uniform_counts(total as nat, op, EditOp::Match);
            lemma_uniform_counts(total as nat, op, EditOp::Insert);
            lemma_uniform_counts(total as nat, op, EditOp::Delete);
            assert(a@.subrange(0, n as int) =~= a@);
            assert(b@.subrange(0, m as int) =~= b@);
            if n == 0 {
                assert(a@ =~= Seq::<u8>::empty());
            }
            if m == 0 {
                assert(b@ =~= Seq::<u8>::empty());
            }
        }
        return complete_result(script);
    }
    let gap = if n >= m { n - m } else { m - n };
    if gap > max_distance {
        proof {
            lemma_dist_lower(a@, b@, n as nat, m as nat);
        }
        return stopped_result("edit distance exceeds the budget".to_string());
    }
    let too_large = if n as u64 >= MAX_DIFF_CELLS || m as u64 >= MAX_DIFF_CELLS {
        true
    } else {
        proof {
            assert((n + 1) * (m + 1) <= MAX_DIFF_CELLS * MAX_DIFF_CELLS) by (nonlinear_arith)
                requires
                    n < MAX_DIFF_CELLS,
                    m < MAX_DIFF_CELLS,
            ;
        }
        (n as u64 + 1) * (m as u64 + 1) > MAX_DIFF_CELLS
    };
    if too_large {
        proof {
            if n >= MAX_DIFF_CELLS {
                assert((n + 1) * (m + 1) >= n + 1) by (nonlinear_arith);
            }
            if m >= MAX_DIFF_CELLS {
                assert((n + 1) * (m + 1) >= m + 1) by (nonlinear_arith);
            }
        }
        return stopped_result("sequences too long for a bounded diff".to_string());
    }
    let t = distance_table(a, b);
    let d = t[n][m];
    if d as usize > max_distance {
        return stopped_result("edit distance exceeds the budget".to_string());
    }
    let script = trace_script(a, b, &t);
    complete_result(script)
}

/// The mask of a position-by-position comparison.
pub open spec fn positional_mask(a: Seq<u8>, b: Seq<u8>) -> Seq<DiffTag> {
    Seq::new(a.len(), |i: int| if base_match(a, i, b, i) { DiffTag::Match } else { DiffTag::Mismatch })
}

/// Number of positions below `upto` where the bases match.
pub open spec fn positional_matches(a: Seq<u8>, b: Seq<u8>, upto: nat) -> nat
    decreases upto,
{
    if upto == 0 {
        0
    } else {
        positional_matches(a, b, (upto - 1) as nat) + if base_match(a, upto - 1, b, upto - 1) {
            1nat
        } else {
            0nat
        }
    }
}

/// Compares two sequences of equal length position by position, with no
/// insertions or deletions. Sequences of different lengths are refused
/// with `truncated` set and a reason.
pub fn equal_length_diff(a: &[u8], b: &[u8]) -> (r: DiffResult)
    ensures
        a@.len() != b@.len() ==> diff_stopped(r),
        a@.len() == b@.len() ==> {
            &&& !r.truncated
            &&& r.error is None
            &&& r.script@.len() == 0
            &&& r.mask_a@ == positional_mask(a@, b@)
            &&& r.mask_b@ == positional_mask(a@, b@)
            &&& r.matches == positional_matches(a@, b@, a@.len())
            &&& r.mismatches == a@.len() - positional_matches(a@, b@, a@.len())
            &&& r.edit_distance == r.mismatches
            &&& r.insertions == 0
            &&& r.deletions == 0
        },
{
    if a.len() != b.len() {
        return stopped_result("sequences differ in length".to_string());
    }
    let mut mask: Vec<DiffTag> = Vec::new();
    let mut matches: usize = 0;
    let mut i: usize = 0;
    while i < a.len()
        invariant
            a@.len() == b@.len(),
            i <= a@.len(),
            mask@ =~= positional_mask(a@, b@).subrange(0, i as int),
            matches == positional_matches(a@, b@, i as nat),
            matches <= i,
        decreases a@.len() - i,
    {
        if bases_equal(a[i], b[i]) {
            mask.push(DiffTag::Match);
            matches = matches + 1;
        } else {
            mask.push(DiffTag::Mismatch);
        }
        i = i + 1;
    }
    proof {
        assert(positional_mask(a@, b@).subrange(0, a@.len() as int) =~= positional_mask(a@, b@));
    }
    let mismatches = a.len() - matches;
    let mask_b = mask.clone();
    DiffResult {
        mask_a: mask,
        mask_b,
        script: Vec::new(),
        edit_distance: mismatches,
        matches,
        mismatches,
        insertions: 0,
        deletions: 0,
        truncated: false,
        error: None,
    }
}

/// Every byte of `s` is a nucleotide letter.
pub open spec fn unambiguous(s: Seq<u8>) -> bool {
    forall|i: int| 0 <= i < s.len() ==> #[trigger] code_of(s[i]) < 4
}

/// What `diff` promises of its result.
pub open spec fn diff_result(a: Seq<u8>, b: Seq<u8>, max_distance: nat, r: DiffResult) -> bool {
    &&& r.truncated == diff_truncated(a, b, max_distance)
    &&& r.truncated ==> diff_stopped(r)
    &&& !r.truncated ==> diff_complete(a, b, r)
}

proof fn lemma_zero_cost_script(a: Seq<u8>, b: Seq<u8>, ops: Seq<EditOp>)
    requires
        script_valid(a, b, ops),
        count_op(ops, EditOp::Insert) == 0,
        count_op(ops, EditOp::Delete) == 0,
    ensures
        ops =~= all_matches(ops.len()),
        a.len() == ops.len(),
        b.len() == ops.len(),
    decreases ops.len(),
{
    if ops.len() > 0 {
        lemma_count_op_prepend(ops[0], ops.skip(1), EditOp::Insert);
        lemma_count_op_prepend(ops[0], ops.skip(1), EditOp::Delete);
        assert(seq![ops[0]] + ops.skip(1) =~= ops);
        lemma_zero_cost_script(a.skip(1), b.skip(1), ops.skip(1));
        assert(ops[0] == EditOp::Match);
    }
}

proof fn lemma_masks_of_matches(len: nat)
    ensures
        mask_a_of(all_matches(len)) =~= Seq::new(len, |q: int| DiffTag::Match),
        mask_b_of(all_matches(len)) =~= Seq::new(len, |q: int| DiffTag::Match),
    decreases len,
{
    if len > 0 {
        lemma_masks_of_matches((len - 1) as nat);
        assert(all_matches(len).drop_last() =~= all_matches((len - 1) as nat));
    }
}

/// A sequence of nucleotide letters diffed against itself, under any
/// budget, is never truncated, has distance 0, and both masks are all
/// `Match`, one per base.
pub proof fn lemma_self_diff(s: Seq<u8>, max_distance: nat, r: DiffResult)
    requires
        unambiguous(s),
        diff_result(s, s, max_distance, r),
    ensures
        !r.truncated,
        r.edit_distance == 0,
        r.mask_a@ == Seq::new(s.len(), |q: int| DiffTag::Match),
        r.mask_b@ == Seq::new(s.len(), |q: int| DiffTag::Match),
{
    assert forall|i: int| 0 <= i < s.len() implies #[trigger] base_match(s, i, s, i) by {
        assert(code_of(s[i]) < 4);
    }
    assert(positionally_equal(s, s));
    lemma_equal_prefix_dist(s, s, s.len());
    lemma_zero_cost_script(s, s, r.script@);
    lemma_masks_of_matches(r.script@.len());
}

proof fn lemma_dist_drop_first_a(a: Seq<u8>, b: Seq<u8>, i: nat, j: nat)
    requires
        1 <= i <= a.len(),
        j <= b.len(),
    ensures
        dist(a, b, i, j) <= dist(a.skip(1), b, (i - 1) as nat, j) + 1,
    decreases i + j,
{
    let aa = a.skip(1);
    if i == 1 {
        lemma_dist_bound(a, b, i, j);
    } else if j > 0 {
        lemma_dist_drop_first_a(a, b, (i - 1) as nat, j);
        lemma_dist_drop_first_a(a, b, i, (j - 1) as nat);
        lemma_dist_drop_first_a(a, b, (i - 1) as nat, (j - 1) as nat);
        assert(aa[i - 2] == a[i - 1]);
        assert(base_match(aa, i - 2, b, j - 1) == base_match(a, i - 1, b, j - 1));
    }
}

proof fn lemma_dist_drop_first_b(a: Seq<u8>, b: Seq<u8>, i: nat, j: nat)
    requires
        i <= a.len(),
        1 <= j <= b.len(),
    ensures
        dist(a, b, i, j) <= dist(a, b.skip(1), i, (j - 1) as nat) + 1,
    decreases i + j,
{
    let bb = b.skip(1);
    if j == 1 {
        lemma_dist_bound(a, b, i, j);
        if i > 0 {
            lemma_dist_lower(a, bb, i, 0);
        }
    } else if i > 0 {
        lemma_dist_drop_first_b(a, b, (i - 1) as nat, j);
        lemma_dist_drop_first_b(a, b, i, (j - 1) as nat);
        lemma_dist_drop_first_b(a, b, (i - 1) as nat, (j - 1) as nat);
        assert(bb[j - 2] == b[j - 1]);
        assert(base_match(a, i - 1, bb, j - 2) == base_match(a, i - 1, b, j - 1));
    }
}

proof fn lemma_dist_first_row(a: Seq<u8>, b: Seq<u8>, j: nat)
    requires
        1 <= j <= b.len(),
        a.len() >= 1,
        base_match(a, 0, b, 0),
    ensures
        dist(a, b, 1, j) <= j - 1,
    decreases j,
{
    if j > 1 {
        lemma_dist_first_row(a, b, (j - 1) as nat);
    } else {
        assert(dist(a, b, 0, 0) == 0);
    }
}

proof fn lemma_dist_first_column(a: Seq<u8>, b: Seq<u8>, i: nat)
    requires
        1 <= i <= a.len(),
        b.len() >= 1,
        base_match(a, 0, b, 0),
    ensures
        dist(a, b, i, 1) <= i - 1,
    decreases i,
{
    if i > 1 {
        lemma_dist_first_column(a, b, (i - 1) as nat);
    } else {
        assert(dist(a, b, 0, 0) == 0);
    }
}

proof fn lemma_dist_drop_first_match(a: Seq<u8>, b: Seq<u8>, i: nat, j: nat)
    requires
        1 <= i <= a.len(),
        1 <= j <= b.len(),
        base_match(a, 0, b, 0),
    ensures
        dist(a, b, i, j) <= dist(a.skip(1), b.skip(1), (i - 1) as nat, (j - 1) as nat),
    decreases i + j,
{
    let aa = a.skip(1);
    let bb = b.skip(1);
    if i == 1 {
        lemma_dist_first_row(a, b, j);
    } else if j == 1 {
        lemma_dist_first_column(a, b, i);
    } else {
        lemma_dist_drop_first_match(a, b, (i - 1) as nat, j);
        lemma_dist_drop_first_match(a, b, i, (j - 1) as nat);
        lemma_dist_drop_first_match(a, b, (i - 1) as nat, (j - 1) as nat);
        assert(aa[i - 2] == a[i - 1]);
        assert(bb[j - 2] == b[j - 1]);
        assert(base_match(aa, i - 2, bb, j - 2) == base_match(a, i - 1, b, j - 1));
    }
}

/// No script turns `a` into `b` with fewer insertions and deletions than
/// the edit distance, so the script that `diff` returns has least cost.
pub proof fn lemma_diff_minimal(a: Seq<u8>, b: Seq<u8>, ops: Seq<EditOp>)
    requires
        script_valid(a, b, ops),
    ensures
        script_cost(ops) >= edit_distance(a, b),
    decreases ops.len(),
{
    if ops.len() > 0 {
        let rest = ops.skip(1);
        assert(seq![ops[0]] + rest =~= ops);
        lemma_count_op_prepend(ops[0], rest, EditOp::Insert);
        lemma_count_op_prepend(ops[0], rest, EditOp::Delete);
        match ops[0] {
            EditOp::Match => {
                lemma_diff_minimal(a.skip(1), b.skip(1), rest);
                lemma_dist_drop_first_match(a, b, a.len(), b.len());
            },
            EditOp::Delete => {
                lemma_diff_minimal(a.skip(1), b, rest);
                lemma_dist_drop_first_a(a, b, a.len(), b.len());
            },
            EditOp::Insert => {
                lemma_diff_minimal(a, b.skip(1), rest);
                lemma_dist_drop_first_b(a, b, a.len(), b.len());
            },
        }
    }
}

/// Two diffs of the same sequences under the same budget agree on
/// whether they stopped, and on the script, the masks, the distance and the
/// counts.
pub proof fn lemma_diff_deterministic(
    a: Seq<u8>,
    b: Seq<u8>,
    max_distance: nat,
    r1: DiffResult,
    r2: DiffResult,
)
    requires
        diff_result(a, b, max_distance, r1),
        diff_result(a, b, max_distance, r2),
    ensures
        r1.truncated == r2.truncated,
        r1.script@ == r2.script@,
        r1.mask_a@ == r2.mask_a@,
        r1.mask_b@ == r2.mask_b@,
        r1.edit_distance == r2.edit_distance,
        r1.matches == r2.matches,
        r1.mismatches == r2.mismatches,
        r1.insertions == r2.insertions,
        r1.deletions == r2.deletions,
{
    if r1.truncated {
        assert(r1.script@ =~= r2.script@);
        assert(r1.mask_a@ =~= r2.mask_a@);
        assert(r1.mask_b@ =~= r2.mask_b@);
    }
}

} // verus!
