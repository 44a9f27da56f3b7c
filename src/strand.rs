//! Strand symmetry of canonical k-mer counts.
use vstd::prelude::*;
use crate::nucleotide::{
    complement_code, lemma_complement_code, reverse_complement_of,
};
use crate::kmer::{
    kmer_value, lemma_kmer_value_front, rc_digit, rc_kmer_value, window_count, window_key,
    window_valid,
};
use crate::encoding::{codes_of, count_table, occurrences, valid_windows};

verus! {

/// The codes of the reverse complement strand.
pub open spec fn reverse_complement_codes(c: Seq<u8>) -> Seq<u8> {
    Seq::new(c.len(), |i: int| complement_code(c[c.len() - 1 - i]))
}

proof fn lemma_codes_of_reverse_complement(s: Seq<u8>)
    ensures
        codes_of(reverse_complement_of(s)) =~= reverse_complement_codes(codes_of(s)),
{
    assert forall|i: int| 0 <= i < s.len() implies #[trigger] codes_of(reverse_complement_of(s))[i]
        == reverse_complement_codes(codes_of(s))[i] by {
        lemma_complement_code(s[s.len() - 1 - i]);
    }
}

/// The window of the reverse strand that starts at `j` holds the reverse
/// complement of the window of the forward strand that ends where `j` begins
/// counting from the far end.
proof fn lemma_mirrored_values(c: Seq<u8>, j: int, len: nat)
    requires
        0 <= j,
        j + len <= c.len(),
        window_valid(c, c.len() - j - len, len),
    ensures
        kmer_value(reverse_complement_codes(c), j, len) == rc_kmer_value(c, c.len() - j - len, len),
        rc_kmer_value(reverse_complement_codes(c), j, len) == kmer_value(c, c.len() - j - len, len),
    decreases len,
{
    let r = reverse_complement_codes(c);
    let n = c.len() as int;
    if len > 0 {
        let l1 = (len - 1) as nat;
        let a = n - j - len;
        assert(window_valid(c, a + 1, l1));
        lemma_mirrored_values(c, j, l1);
        assert(n - j - l1 == a + 1);
        lemma_kmer_value_front(c, a, l1);
        assert(l1 + 1 == len);
        assert(c[a] < 4);
        assert(r[j + len - 1] == complement_code(c[a]));
        assert(r[j + len - 1] as nat == rc_digit(c[a]));
        assert(rc_digit(r[j + len - 1]) == c[a] as nat);
    }
}

proof fn lemma_mirrored_valid(c: Seq<u8>, j: int, len: nat)
    requires
        0 <= j,
        j + len <= c.len(),
    ensures
        window_valid(reverse_complement_codes(c), j, len) <==> window_valid(c, c.len() - j - len, len),
{
    let r = reverse_complement_codes(c);
    let n = c.len() as int;
    let a = n - j - len;
    if window_valid(c, a, len) {
        assert forall|t: int| j <= t < j + len implies #[trigger] r[t] < 4 by {
            assert(c[n - 1 - t] < 4);
        }
    }
    if window_valid(r, j, len) {
        assert forall|t: int| a <= t < a + len implies #[trigger] c[t] < 4 by {
            assert(r[n - 1 - t] < 4);
        }
    }
}

proof fn lemma_mirrored_key(c: Seq<u8>, j: int, k: nat, canonical: bool)
    requires
        0 <= j,
        j + k <= c.len(),
    ensures
        window_key(reverse_complement_codes(c), j, k, true) == window_key(c, c.len() - j - k, k, true),
        window_key(reverse_complement_codes(c), j, k, false) is Some <==> window_key(
            c,
            c.len() - j - k,
            k,
            false,
        ) is Some,
{
    lemma_mirrored_valid(c, j, k);
    if window_valid(c, c.len() - j - k, k) {
        lemma_mirrored_values(c, j, k);
    }
}

proof fn lemma_mirrored_counts(c: Seq<u8>, k: nat, x: nat, u: nat)
    requires
        u <= window_count(c.len(), k),
    ensures
        occurrences(reverse_complement_codes(c), k, true, x, u) + occurrences(
            c,
            k,
            true,
            x,
            (window_count(c.len(), k) - u) as nat,
        ) == occurrences(c, k, true, x, window_count(c.len(), k)),
        valid_windows(reverse_complement_codes(c), k, u) + valid_windows(
            c,
            k,
            (window_count(c.len(), k) - u) as nat,
        ) == valid_windows(c, k, window_count(c.len(), k)),
    decreases u,
{
    if u > 0 {
        let w = window_count(c.len(), k) as int;
        lemma_mirrored_counts(c, k, x, (u - 1) as nat);
        lemma_mirrored_key(c, u - 1, k, true);
        assert(c.len() - (u - 1) - k == w - u);
    }
}

/// Canonical k-mer counting cannot tell a sequence from its reverse
/// complement: the count tables and the totals of valid windows are equal.
pub proof fn lemma_strand_symmetry(s: Seq<u8>, k: nat)
    ensures
        count_table(codes_of(s), k, true) == count_table(
            codes_of(reverse_complement_of(s)),
            k,
            true,
        ),
        valid_windows(codes_of(s), k, window_count(s.len(), k)) == valid_windows(
            codes_of(reverse_complement_of(s)),
            k,
            window_count(s.len(), k),
        ),
{
    let c = codes_of(s);
    let r = codes_of(reverse_complement_of(s));
    lemma_codes_of_reverse_complement(s);
    let w = window_count(c.len(), k);
    assert forall|x: int| 0 <= x < count_table(c, k, true).len() implies #[trigger] count_table(
        c,
        k,
        true,
    )[x] == count_table(r, k, true)[x] by {
        lemma_mirrored_counts(c, k, x as nat, w);
    }
    lemma_mirrored_counts(c, k, 0, w);
    assert(count_table(c, k, true) =~= count_table(r, k, true));
}

} // verus!
