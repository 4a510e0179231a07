//! Counting bit errors between a sent and a received stream.

use vstd::prelude::*;

verus! {

/// How many of the first `m` positions differ between `a` and `b`.
pub open spec fn mismatches(a: Seq<u8>, b: Seq<u8>, m: int) -> nat
    decreases m,
{
    if m <= 0 {
        0
    } else if a[m - 1] != b[m - 1] {
        mismatches(a, b, m - 1) + 1
    } else {
        mismatches(a, b, m - 1)
    }
}

/// The number of positions that two streams have in common.
pub open spec fn common_len(a: Seq<u8>, b: Seq<u8>) -> nat {
    if a.len() <= b.len() {
        a.len()
    } else {
        b.len()
    }
}

/// Compares `a` and `b` over their common length: returns the number of
/// positions where they differ and that common length. The bit error rate is
/// the first divided by the second.
pub fn count_bit_errors(a: &[u8], b: &[u8]) -> (res: (usize, usize))
    ensures
        res.1 == common_len(a@, b@),
        res.0 == mismatches(a@, b@, res.1 as int),
        res.0 <= res.1,
{
    let n: usize = if a.len() <= b.len() {
        a.len()
    } else {
        b.len()
    };
    let mut e: usize = 0;
    let mut i: usize = 0;
    while i < n
        invariant
            n == common_len(a@, b@),
            i <= n,
            e == mismatches(a@, b@, i as int),
            e <= i,
        decreases n - i,
    {
        if a[i] != b[i] {
            e = e + 1;
        }
        i = i + 1;
    }
    (e, n)
}

/// Only differing positions are counted: at most `m` of the first `m`.
pub proof fn lemma_mismatches_bounded(a: Seq<u8>, b: Seq<u8>, m: int)
    requires
        0 <= m,
    ensures
        mismatches(a, b, m) <= m,
    decreases m,
{
    if m > 0 {
        lemma_mismatches_bounded(a, b, m - 1);
    }
}

/// Streams that agree on their first `m` positions have no bit errors there.
pub proof fn lemma_no_mismatch_when_equal(a: Seq<u8>, b: Seq<u8>, m: int)
    requires
        m <= a.len(),
        m <= b.len(),
        forall|i: int| 0 <= i < m ==> a[i] == b[i],
    ensures
        mismatches(a, b, m) == 0,
    decreases m,
{
    if m > 0 {
        lemma_no_mismatch_when_equal(a, b, m - 1);
    }
}

/// Counting bit errors does not depend on which stream comes first.
pub proof fn lemma_mismatches_symmetric(a: Seq<u8>, b: Seq<u8>, m: int)
    ensures
        mismatches(a, b, m) == mismatches(b, a, m),
    decreases m,
{
    if m > 0 {
        lemma_mismatches_symmetric(a, b, m - 1);
    }
}

/// Counting over two concatenations splits at the seam of the first parts.
pub proof fn lemma_mismatches_concat(x1: Seq<u8>, x2: Seq<u8>, y1: Seq<u8>, y2: Seq<u8>, m: int)
    requires
        x1.len() == y1.len(),
        x2.len() == y2.len(),
        0 <= m <= x1.len() + x2.len(),
    ensures
        m <= x1.len() ==> mismatches(x1 + x2, y1 + y2, m) == mismatches(x1, y1, m),
        m > x1.len() ==> mismatches(x1 + x2, y1 + y2, m) == mismatches(x1, y1, x1.len() as int)
            + mismatches(x2, y2, m - x1.len()),
    decreases m,
{
    if m > 0 {
        lemma_mismatches_concat(x1, x2, y1, y2, m - 1);
        if m > x1.len() {
            let j = m - 1 - x1.len();
            assert((x1 + x2)[m - 1] == x2[j] && (y1 + y2)[m - 1] == y2[j]);
            assert(mismatches(x2, y2, 0) == 0);
        } else {
            assert((x1 + x2)[m - 1] == x1[m - 1] && (y1 + y2)[m - 1] == y1[m - 1]);
        }
    }
}

/// No differing position among the first `m`: the streams agree there.
pub proof fn lemma_no_mismatch_means_equal(a: Seq<u8>, b: Seq<u8>, m: int)
    requires
        0 <= m,
        mismatches(a, b, m) == 0,
    ensures
        forall|i: int| 0 <= i < m ==> a[i] == b[i],
    decreases m,
{
    if m > 0 {
        lemma_no_mismatch_means_equal(a, b, m - 1);
    }
}

/// Exactly one differing position among the first `m`: it is returned, and
/// the streams agree everywhere else there.
pub proof fn lemma_single_mismatch(a: Seq<u8>, b: Seq<u8>, m: int) -> (e: int)
    requires
        0 <= m,
        mismatches(a, b, m) == 1,
    ensures
        0 <= e < m,
        a[e] != b[e],
        forall|i: int| 0 <= i < m && i != e ==> a[i] == b[i],
    decreases m,
{
    if a[m - 1] != b[m - 1] {
        lemma_no_mismatch_means_equal(a, b, m - 1);
        m - 1
    } else {
        lemma_single_mismatch(a, b, m - 1)
    }
}

/// The error count over the first `m` positions is the number of indices
/// `i < m` at which the two streams differ, whatever their lengths.
pub proof fn lemma_mismatches_counts_differing_indices(a: Seq<u8>, b: Seq<u8>, m: int)
    requires
        0 <= m <= a.len(),
        m <= b.len(),
    ensures
        mismatches(a, b, m) == Seq::new(m as nat, |i: int| i).filter(|i: int| a[i] != b[i]).len(),
    decreases m,
{
    let pred = |i: int| a[i] != b[i];
    if m == 0 {
        reveal(Seq::filter);
        assert(Seq::new(0nat, |i: int| i).filter(pred).len() == 0);
    } else {
        lemma_mismatches_counts_differing_indices(a, b, m - 1);
        let front = Seq::new((m - 1) as nat, |i: int| i);
        assert(Seq::new(m as nat, |i: int| i) =~= front.push(m - 1));
        front.lemma_filter_push(m - 1, pred);
    }
}

/// Streams that differ at every one of their first `m` positions have `m`
/// bit errors there.
pub proof fn lemma_mismatches_all_differ(a: Seq<u8>, b: Seq<u8>, m: int)
    requires
        0 <= m,
        forall|i: int| 0 <= i < m ==> a[i] != b[i],
    ensures
        mismatches(a, b, m) == m,
    decreases m,
{
    if m > 0 {
        lemma_mismatches_all_differ(a, b, m - 1);
    }
}

} // verus!
