//! Inverted repeats (reverse-complement palindromes, with an optional gap)
//! and tandem repeats.
use vstd::prelude::*;

verus! {

/// The byte in upper case, for ASCII letters.
pub open spec fn upper(b: u8) -> u8 {
    if 0x61 <= b <= 0x7a { (b - 32) as u8 } else { b }
}

/// The byte in lower case, for ASCII letters.
pub open spec fn lower(b: u8) -> u8 {
    if 0x41 <= b <= 0x5a { (b + 32) as u8 } else { b }
}

/// The two bytes pair as Watson-Crick partners (A-T, G-C, A-U), any case.
pub open spec fn pairs(a: u8, b: u8) -> bool {
    let (x, y) = (upper(a), upper(b));
    (x == 0x41 && y == 0x54) || (x == 0x54 && y == 0x41) || (x == 0x47 && y == 0x43) || (x == 0x43
        && y == 0x47) || (x == 0x41 && y == 0x55) || (x == 0x55 && y == 0x41)
}

/// Whether two bytes pair as Watson-Crick partners.
pub fn is_complement(a: u8, b: u8) -> (r: bool)
    ensures
        r == pairs(a, b),
{
    let x = if 0x61 <= a && a <= 0x7a { a - 32 } else { a };
    let y = if 0x61 <= b && b <= 0x7a { b - 32 } else { b };
    (x == 0x41 && y == 0x54) || (x == 0x54 && y == 0x41) || (x == 0x47 && y == 0x43) || (x == 0x43
        && y == 0x47) || (x == 0x41 && y == 0x55) || (x == 0x55 && y == 0x41)
}

/// Length of the arms that pair outward from the gap `[l, r)`, at most
/// `limit`: pair `o` joins `s[l - 1 - o]` and `s[r + o]`.
pub open spec fn arm_upto(s: Seq<u8>, l: int, r: int, limit: nat) -> nat
    decreases limit,
{
    if limit == 0 {
        0
    } else {
        let a = arm_upto(s, l, r, (limit - 1) as nat);
        if a == limit - 1 && pairs(s[l - limit], s[r + limit - 1]) {
            limit
        } else {
            a
        }
    }
}

proof fn lemma_arm_stable(s: Seq<u8>, l: int, r: int, t: nat, u: nat)
    requires
        t <= u,
        arm_upto(s, l, r, t) < t,
    ensures
        arm_upto(s, l, r, u) == arm_upto(s, l, r, t),
    decreases u - t,
{
    if u > t {
        lemma_arm_stable(s, l, r, t, (u - 1) as nat);
    }
}

proof fn lemma_arm_bound(s: Seq<u8>, l: int, r: int, t: nat)
    ensures
        arm_upto(s, l, r, t) <= t,
    decreases t,
{
    if t > 0 {
        lemma_arm_bound(s, l, r, (t - 1) as nat);
    }
}

/// An inverted repeat: arms of `arm_length` bases pair across a gap of
/// `gap` bases (rounded down to even), covering `[start, end)`.
#[derive(Clone, Copy, PartialEq, Eq, Structural, Debug)]
pub struct Palindrome {
    pub start: usize,
    pub end: usize,
    pub arm_length: usize,
    pub gap: usize,
}

/// The repeat found at `center` with gap `gap`, if its arms reach `min_len`.
pub open spec fn palindrome_at(s: Seq<u8>, min_len: nat, center: nat, gap: nat) -> Option<
    Palindrome,
> {
    let n = s.len();
    let h = gap / 2;
    if center < min_len + h || center + h + min_len > n {
        None
    } else {
        let outer = (n - center - h) as nat;
        let inner = (center - h) as nat;
        let room = if outer <= inner { outer } else { inner };
        let bound = if min_len >= room { min_len } else { room };
        let a = arm_upto(s, center - h, (center + h) as int, bound);
        if a >= min_len {
            Some(
                Palindrome {
                    start: (center - h - a) as usize,
                    end: (center + h + a) as usize,
                    arm_length: a as usize,
                    gap: gap as usize,
                },
            )
        } else {
            None
        }
    }
}

/// The repeat as a sequence of zero or one record.
pub open spec fn opt_seq<T>(o: Option<T>) -> Seq<T> {
    match o {
        Some(x) => seq![x],
        None => Seq::empty(),
    }
}

/// Repeats at `center` for the gaps below `gaps`, in order of gap.
pub open spec fn palindromes_at_center(s: Seq<u8>, min_len: nat, center: nat, gaps: nat) -> Seq<
    Palindrome,
>
    decreases gaps,
{
    if gaps == 0 {
        Seq::empty()
    } else {
        palindromes_at_center(s, min_len, center, (gaps - 1) as nat) + opt_seq(
            palindrome_at(s, min_len, center, (gaps - 1) as nat),
        )
    }
}

/// Repeats at the centers from `min_len` to below `centers`, in order of
/// center and then of gap.
pub open spec fn palindromes_upto(s: Seq<u8>, min_len: nat, max_gap: nat, centers: nat) -> Seq<
    Palindrome,
>
    decreases centers,
{
    if centers <= min_len {
        Seq::empty()
    } else {
        palindromes_upto(s, min_len, max_gap, (centers - 1) as nat) + palindromes_at_center(
            s,
            min_len,
            (centers - 1) as nat,
            max_gap + 1,
        )
    }
}

/// Every inverted repeat with arms of at least `min_len` and a gap of at
/// most `max_gap`, by center and then by gap.
pub open spec fn palindromes(s: Seq<u8>, min_len: nat, max_gap: nat) -> Seq<Palindrome> {
    if s.len() < 2 * min_len {
        Seq::empty()
    } else {
        palindromes_upto(s, min_len, max_gap, (s.len() - min_len + 1) as nat)
    }
}

proof fn lemma_no_palindrome_past_cap(s: Seq<u8>, min_len: nat, center: nat, cap: nat, gaps: nat)
    requires
        cap <= gaps,
        forall|g: nat| cap <= g ==> #[trigger] palindrome_at(s, min_len, center, g) is None,
    ensures
        palindromes_at_center(s, min_len, center, gaps) == palindromes_at_center(
            s,
            min_len,
            center,
            cap,
        ),
    decreases gaps,
{
    if gaps > cap {
        lemma_no_palindrome_past_cap(s, min_len, center, cap, (gaps - 1) as nat);
        assert(palindrome_at(s, min_len, center, (gaps - 1) as nat) is None);
        assert(palindromes_at_center(s, min_len, center, gaps) =~= palindromes_at_center(
            s,
            min_len,
            center,
            (gaps - 1) as nat,
        ));
    }
}

/// The arm length at one center and gap.
fn arm_length(s: &[u8], l: usize, r: usize, bound: usize) -> (a: usize)
    requires
        bound <= l <= s@.len(),
        r + bound <= s@.len(),
    ensures
        a == arm_upto(s@, l as int, r as int, bound as nat),
{
    let mut a: usize = 0;
    while a < bound
        invariant
            bound <= l <= s@.len(),
            r + bound <= s@.len(),
            a <= bound,
            a == arm_upto(s@, l as int, r as int, a as nat),
        decreases bound - a,
    {
        if is_complement(s[l - a - 1], s[r + a]) {
            a = a + 1;
        } else {
            proof {
                lemma_arm_bound(s@, l as int, r as int, a as nat);
                assert(arm_upto(s@, l as int, r as int, (a + 1) as nat) == a);
                lemma_arm_stable(s@, l as int, r as int, (a + 1) as nat, bound as nat);
            }
            return a;
        }
    }
    a
}

/// The repeat at one center and gap, if any.
fn palindrome_at_exec(seq: &[u8], min_len: usize, center: usize, gap: usize) -> (r: Option<
    Palindrome,
>)
    requires
        center <= seq@.len(),
    ensures
        r == palindrome_at(seq@, min_len as nat, center as nat, gap as nat),
{
    let n = seq.len();
    let h = gap / 2;
    if center < min_len || center - min_len < h || n - center < min_len || n - center - min_len < h {
        return None;
    }
    let outer = n - center - h;
    let inner = center - h;
    let room = if outer <= inner { outer } else { inner };
    let bound = if min_len >= room { min_len } else { room };
    let a = arm_length(seq, center - h, center + h, bound);
    if a >= min_len {
        proof {
            lemma_arm_bound(seq@, center - h, (center + h) as int, bound as nat);
        }
        Some(Palindrome { start: center - h - a, end: center + h + a, arm_length: a, gap })
    } else {
        None
    }
}

/// Appends the repeats at one center, for every gap up to `max_gap`.
fn push_palindromes_at_center(
    seq: &[u8],
    min_len: usize,
    max_gap: usize,
    center: usize,
    out: &mut Vec<Palindrome>,
)
    requires
        min_len <= center,
        center + min_len <= seq@.len(),
    ensures
        final(out)@ == old(out)@ + palindromes_at_center(
            seq@,
            min_len as nat,
            center as nat,
            (max_gap + 1) as nat,
        ),
{
    let n = seq.len();
    // Gaps beyond twice the length leave no room for arms.
    let last_gap: usize = if max_gap / 2 <= n { max_gap } else { 2 * n + 1 };
    proof {
        if last_gap < max_gap {
            assert forall|g: nat| last_gap + 1 <= g implies #[trigger] palindrome_at(
                seq@,
                min_len as nat,
                center as nat,
                g,
            ) is None by {}
            lemma_no_palindrome_past_cap(
                seq@,
                min_len as nat,
                center as nat,
                (last_gap + 1) as nat,
                (max_gap + 1) as nat,
            );
        }
    }
    let ghost before = out@;
    let mut gap: usize = 0;
    while gap < last_gap
        invariant
            n == seq@.len(),
            center <= n,
            gap <= last_gap,
            out@ == before + palindromes_at_center(seq@, min_len as nat, center as nat, gap as nat),
        decreases last_gap - gap,
    {
        match palindrome_at_exec(seq, min_len, center, gap) {
            Some(p) => out.push(p),
            None => {},
        }
        proof {
            assert(out@ =~= before + palindromes_at_center(
                seq@,
                min_len as nat,
                center as nat,
                (gap + 1) as nat,
            ));
        }
        gap = gap + 1;
    }
    match palindrome_at_exec(seq, min_len, center, last_gap) {
        Some(p) => out.push(p),
        None => {},
    }
    proof {
        assert(out@ =~= before + palindromes_at_center(
            seq@,
            min_len as nat,
            center as nat,
            (last_gap + 1) as nat,
        ));
    }
}

/// Finds inverted repeats: for each center and each gap up to `max_gap`,
/// arms that pair outward from the gap for at least `min_len` bases.
pub fn detect_palindromes(seq: &[u8], min_len: usize, max_gap: usize) -> (r: Vec<Palindrome>)
    ensures
        r@ == palindromes(seq@, min_len as nat, max_gap as nat),
{
    let n = seq.len();
    let mut out: Vec<Palindrome> = Vec::new();
    if min_len > n / 2 {
        return out;
    }
    let last = n - min_len;
    let mut center: usize = min_len;
    while center < last
        invariant
            n == seq@.len(),
            min_len <= n / 2,
            last == n - min_len,
            min_len <= center <= last,
            out@ == palindromes_upto(seq@, min_len as nat, max_gap as nat, center as nat),
        decreases last - center,
    {
        push_palindromes_at_center(seq, min_len, max_gap, center, &mut out);
        center = center + 1;
    }
    push_palindromes_at_center(seq, min_len, max_gap, last, &mut out);
    proof {
        assert(out@ =~= palindromes_upto(seq@, min_len as nat, max_gap as nat, (last + 1) as nat));
    }
    out
}

/// The blocks of `u` bytes at `a` and `b` are equal, ASCII case ignored.
pub open spec fn blocks_equal(s: Seq<u8>, a: int, b: int, u: nat) -> bool {
    forall|t: int| 0 <= t < u ==> #[trigger] lower(s[a + t]) == lower(s[b + t])
}

/// Number of consecutive blocks from `pos` on that repeat the unit at `st`.
pub open spec fn repeats_from(s: Seq<u8>, st: int, u: nat, pos: int) -> nat
    decreases s.len() - pos,
{
    if u == 0 || pos < 0 || pos + u > s.len() || !blocks_equal(s, st, pos, u) {
        0
    } else {
        1 + repeats_from(s, st, u, pos + u)
    }
}

/// Copies of the unit of `u` bytes at `st`, the unit itself included.
pub open spec fn copies_of(s: Seq<u8>, st: int, u: nat) -> nat {
    1 + repeats_from(s, st, u, st + u)
}

/// A tandem repeat: `copies` adjacent copies of a unit of `unit_length`
/// bytes, covering `[start, end)`.
#[derive(Clone, Copy, PartialEq, Eq, Structural, Debug)]
pub struct TandemRepeat {
    pub start: usize,
    pub end: usize,
    pub unit_length: usize,
    pub copies: usize,
}

/// The repeat of the unit of `u` bytes at `st`, if it has enough copies.
pub open spec fn tandem_at(s: Seq<u8>, min_copies: nat, st: nat, u: nat) -> Option<TandemRepeat> {
    let c = copies_of(s, st as int, u);
    if c >= min_copies {
        Some(
            TandemRepeat {
                start: st as usize,
                end: (st + c * u) as usize,
                unit_length: u as usize,
                copies: c as usize,
            },
        )
    } else {
        None
    }
}

/// The smallest unit length tried: `min_unit`, and at least 1.
pub open spec fn first_unit(min_unit: nat) -> nat {
    if min_unit >= 1 { min_unit } else { 1 }
}

/// The largest unit length tried at `st`.
pub open spec fn last_unit(n: nat, max_unit: nat, st: nat) -> nat {
    let room = (n - st) as nat;
    if max_unit <= room { max_unit } else { room }
}

/// Repeats at `st` for the unit lengths from `first_unit(min_unit)` to
/// below `upto`, by unit length.
pub open spec fn tandems_at_start(
    s: Seq<u8>,
    min_unit: nat,
    min_copies: nat,
    st: nat,
    upto: nat,
) -> Seq<TandemRepeat>
    decreases upto,
{
    if upto <= first_unit(min_unit) {
        Seq::empty()
    } else {
        tandems_at_start(s, min_unit, min_copies, st, (upto - 1) as nat) + opt_seq(
            tandem_at(s, min_copies, st, (upto - 1) as nat),
        )
    }
}

/// Repeats at the starts below `starts`, by start and then unit length.
pub open spec fn tandems_upto(
    s: Seq<u8>,
    min_unit: nat,
    max_unit: nat,
    min_copies: nat,
    starts: nat,
) -> Seq<TandemRepeat>
    decreases starts,
{
    if starts == 0 {
        Seq::empty()
    } else {
        let st = (starts - 1) as nat;
        tandems_upto(s, min_unit, max_unit, min_copies, st) + tandems_at_start(
            s,
            min_unit,
            min_copies,
            st,
            last_unit(s.len(), max_unit, st) + 1,
        )
    }
}

/// Every tandem repeat with a unit of `min_unit` to `max_unit` bytes (at
/// least 1) and at least `min_copies` copies, by start and then unit length.
pub open spec fn tandem_repeats(s: Seq<u8>, min_unit: nat, max_unit: nat, min_copies: nat) -> Seq<
    TandemRepeat,
> {
    if s.len() < min_unit * min_copies {
        Seq::empty()
    } else {
        tandems_upto(s, min_unit, max_unit, min_copies, s.len())
    }
}

fn blocks_equal_exec(s: &[u8], a: usize, b: usize, u: usize) -> (r: bool)
    requires
        a + u <= s@.len(),
        b + u <= s@.len(),
    ensures
        r == blocks_equal(s@, a as int, b as int, u as nat),
{
    let n = s.len();
    let mut t: usize = 0;
    while t < u
        invariant
            n == s@.len(),
            a + u <= s@.len(),
            b + u <= s@.len(),
            t <= u,
            forall|q: int| 0 <= q < t ==> #[trigger] lower(s@[a + q]) == lower(s@[b + q]),
        decreases u - t,
    {
        let x = s[a + t];
        let y = s[b + t];
        let lx = if 0x41 <= x && x <= 0x5a { x + 32 } else { x };
        let ly = if 0x41 <= y && y <= 0x5a { y + 32 } else { y };
        if lx != ly {
            proof {
                assert(lower(s@[a + t]) != lower(s@[b + t]));
            }
            return false;
        }
        t = t + 1;
    }
    true
}

proof fn lemma_repeats_fit(s: Seq<u8>, st: int, u: nat, pos: int)
    requires
        u >= 1,
        0 <= pos <= s.len(),
    ensures
        pos + repeats_from(s, st, u, pos) * u <= s.len(),
    decreases s.len() - pos,
{
    if !(pos + u > s.len() || !blocks_equal(s, st, pos, u)) {
        lemma_repeats_fit(s, st, u, pos + u);
        let r = repeats_from(s, st, u, pos + u);
        assert(repeats_from(s, st, u, pos) == 1 + r);
        assert(pos + (1 + r) * u == pos + u + r * u) by (nonlinear_arith);
    } else {
        assert(repeats_from(s, st, u, pos) == 0);
        assert(0 * u == 0);
    }
}

/// Copies of the unit of `u` bytes at `st`.
fn count_copies(s: &[u8], st: usize, u: usize) -> (c: usize)
    requires
        u >= 1,
        st + u <= s@.len(),
    ensures
        c == copies_of(s@, st as int, u as nat),
        st + c * u <= s@.len(),
{
    let n = s.len();
    let mut copies: usize = 1;
    let mut pos: usize = st + u;
    proof {
        lemma_repeats_fit(s@, st as int, u as nat, pos as int);
    }
    while u <= n - pos && blocks_equal_exec(s, st, pos, u)
        invariant
            n == s@.len(),
            u >= 1,
            st + u <= pos <= n,
            copies >= 1,
            pos == st + copies * u,
            copies + repeats_from(s@, st as int, u as nat, pos as int) == copies_of(
                s@,
                st as int,
                u as nat,
            ),
        decreases n - pos,
    {
        proof {
            assert(pos + u == st + (copies + 1) * u) by (nonlinear_arith)
                requires
                    pos == st + copies * u,
            ;
            assert(copies <= copies * u) by (nonlinear_arith)
                requires
                    u >= 1,
            ;
        }
        copies = copies + 1;
        pos = pos + u;
    }
    copies
}

/// The repeat of the unit of `u` bytes at `st`, if any.
fn tandem_at_exec(s: &[u8], min_copies: usize, st: usize, u: usize) -> (r: Option<TandemRepeat>)
    requires
        u >= 1,
        st + u <= s@.len(),
    ensures
        r == tandem_at(s@, min_copies as nat, st as nat, u as nat),
{
    let n = s.len();
    let c = count_copies(s, st, u);
    proof {
        assert(c * u <= n);
    }
    if c >= min_copies {
        Some(TandemRepeat { start: st, end: st + c * u, unit_length: u, copies: c })
    } else {
        None
    }
}

/// Appends the repeats that start at `st`, by unit length.
fn push_tandems_at_start(
    s: &[u8],
    min_unit: usize,
    max_unit: usize,
    min_copies: usize,
    st: usize,
    out: &mut Vec<TandemRepeat>,
)
    requires
        st < s@.len(),
    ensures
        final(out)@ == old(out)@ + tandems_at_start(
            s@,
            min_unit as nat,
            min_copies as nat,
            st as nat,
            last_unit(s@.len(), max_unit as nat, st as nat) + 1,
        ),
{
    let n = s.len();
    let first: usize = if min_unit >= 1 { min_unit } else { 1 };
    let last: usize = if max_unit <= n - st { max_unit } else { n - st };
    let ghost before = out@;
    if first > last {
        proof {
            assert(tandems_at_start(s@, min_unit as nat, min_copies as nat, st as nat, (last + 1) as nat)
                =~= Seq::<TandemRepeat>::empty());
            assert(out@ =~= before + Seq::<TandemRepeat>::empty());
        }
        return;
    }
    let mut u: usize = first;
    proof {
        assert(tandems_at_start(s@, min_unit as nat, min_copies as nat, st as nat, first as nat)
            =~= Seq::<TandemRepeat>::empty());
        assert(out@ =~= before + Seq::<TandemRepeat>::empty());
    }
    while u < last
        invariant
            n == s@.len(),
            st < n,
            first == first_unit(min_unit as nat),
            last == last_unit(n as nat, max_unit as nat, st as nat),
            first <= u <= last,
            last <= n - st,
            out@ == before + tandems_at_start(s@, min_unit as nat, min_copies as nat, st as nat, u as nat),
        decreases last - u,
    {
        match tandem_at_exec(s, min_copies, st, u) {
            Some(t) => out.push(t),
            None => {},
        }
        proof {
            assert(out@ =~= before + tandems_at_start(
                s@,
                min_unit as nat,
                min_copies as nat,
                st as nat,
                (u + 1) as nat,
            ));
        }
        u = u + 1;
    }
    match tandem_at_exec(s, min_copies, st, last) {
        Some(t) => out.push(t),
        None => {},
    }
    proof {
        assert(out@ =~= before + tandems_at_start(
            s@,
            min_unit as nat,
            min_copies as nat,
            st as nat,
            (last + 1) as nat,
        ));
    }
}

/// Finds tandem repeats: at each start and for each unit length from
/// `min_unit` (at least 1) to `max_unit`, the unit followed by as many
/// equal copies as there are (ASCII case ignored), kept when there are at
/// least `min_copies` copies in all.
pub fn detect_tandem_repeats(seq: &[u8], min_unit: usize, max_unit: usize, min_copies: usize) -> (r:
    Vec<TandemRepeat>)
    ensures
        r@ == tandem_repeats(seq@, min_unit as nat, max_unit as nat, min_copies as nat),
{
    let n = seq.len();
    let mut out: Vec<TandemRepeat> = Vec::new();
    proof {
        assert((min_unit as int) * (min_copies as int) <= 0xffff_ffff_ffff_ffff
            * 0xffff_ffff_ffff_ffff) by (nonlinear_arith)
            requires
                0 <= min_unit <= 0xffff_ffff_ffff_ffff,
                0 <= min_copies <= 0xffff_ffff_ffff_ffff,
        ;
    }
    if (n as u128) < (min_unit as u128) * (min_copies as u128) {
        return out;
    }
    let mut st: usize = 0;
    while st < n
        invariant
            n == seq@.len(),
            st <= n,
            out@ == tandems_upto(seq@, min_unit as nat, max_unit as nat, min_copies as nat, st as nat),
        decreases n - st,
    {
        push_tandems_at_start(seq, min_unit, max_unit, min_copies, st, &mut out);
        st = st + 1;
    }
    out
}

} // verus!
