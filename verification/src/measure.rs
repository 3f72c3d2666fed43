//! The integer parts of the two quality measures: the count of differing
//! bits behind the bit error rate, and the sum of squared pixel
//! differences behind the PSNR.

use vstd::prelude::*;

verus! {

/// Number of positions below `n` where `a` and `b` differ.
pub open spec fn count_diffs(a: Seq<u8>, b: Seq<u8>, n: int) -> nat
    decreases n,
{
    if n <= 0 {
        0
    } else {
        count_diffs(a, b, n - 1) + (if a[n - 1] != b[n - 1] { 1nat } else { 0nat })
    }
}

/// Sum over positions below `n` of the squared difference of `a` and `b`.
pub open spec fn sum_sq_diffs(a: Seq<u8>, b: Seq<u8>, n: int) -> int
    decreases n,
{
    if n <= 0 {
        0
    } else {
        sum_sq_diffs(a, b, n - 1) + (a[n - 1] - b[n - 1]) * (a[n - 1] - b[n - 1])
    }
}

/// Compares `a` and `b` over their common length `n` and returns the number
/// of differing positions and `n`; the bit error rate is their ratio (0
/// when `n` is 0).
pub fn bit_error_count(a: &[u8], b: &[u8]) -> (r: (usize, usize))
    ensures
        r.1 == (if a.len() <= b.len() { a.len() } else { b.len() }),
        r.0 == count_diffs(a@, b@, r.1 as int),
        r.0 <= r.1,
{
    let n = if a.len() <= b.len() { a.len() } else { b.len() };
    let mut errors: usize = 0;
    let mut i: usize = 0;
    while i < n
        invariant
            n <= a.len(),
            n <= b.len(),
            i <= n,
            errors == count_diffs(a@, b@, i as int),
            errors <= i,
        decreases n - i,
    {
        if a[i] != b[i] {
            errors = errors + 1;
        }
        i = i + 1;
    }
    (errors, n)
}

/// Sum of the squared differences of two images of the same size; the
/// mean squared error is this sum over the number of pixels.
pub fn squared_error_sum(original: &[u8], modified: &[u8]) -> (r: u128)
    requires
        original.len() == modified.len(),
    ensures
        r == sum_sq_diffs(original@, modified@, original.len() as int),
{
    let mut sum: u128 = 0;
    let mut i: usize = 0;
    while i < original.len()
        invariant
            original.len() == modified.len(),
            i <= original.len(),
            sum == sum_sq_diffs(original@, modified@, i as int),
            sum <= i * 65025,
        decreases original.len() - i,
    {
        let d: i32 = original[i] as i32 - modified[i] as i32;
        assert(d * d <= 65025) by (nonlinear_arith)
            requires
                -255 <= d <= 255,
        ;
        assert(d * d >= 0) by (nonlinear_arith);
        assert((i + 1) * 65025 <= u128::MAX) by (nonlinear_arith)
            requires
                i < original.len(),
                original.len() <= usize::MAX,
                usize::MAX <= u64::MAX,
        ;
        sum = sum + (d * d) as u128;
        i = i + 1;
    }
    sum
}

/// Two identical sequences differ nowhere and their squared differences
/// sum to 0: identical bits have a bit error rate of 0, identical images
/// a mean squared error of 0.
pub proof fn lemma_identical_no_error(a: Seq<u8>, n: int)
    ensures
        count_diffs(a, a, n) == 0,
        sum_sq_diffs(a, a, n) == 0,
    decreases n,
{
    if n > 0 {
        lemma_identical_no_error(a, n - 1);
    }
}

/// One position contributes 1 to the error count exactly when its two
/// values differ.
pub proof fn lemma_count_diffs_single(x: u8, y: u8)
    ensures
        count_diffs(seq![x], seq![y], 1) == (if x != y { 1nat } else { 0nat }),
{
    assert(count_diffs(seq![x], seq![y], 0) == 0);
}

/// The error count of two concatenations is the sum of the error counts of
/// the parts.
pub proof fn lemma_count_diffs_concat(a1: Seq<u8>, b1: Seq<u8>, a2: Seq<u8>, b2: Seq<u8>)
    requires
        a1.len() == b1.len(),
        a2.len() == b2.len(),
    ensures
        count_diffs(a1 + a2, b1 + b2, (a1.len() + a2.len()) as int) == count_diffs(a1, b1, a1.len() as int)
            + count_diffs(a2, b2, a2.len() as int),
{
    lemma_count_diffs_concat_upto(a1, b1, a2, b2, (a1.len() + a2.len()) as int);
}

proof fn lemma_count_diffs_concat_upto(a1: Seq<u8>, b1: Seq<u8>, a2: Seq<u8>, b2: Seq<u8>, k: int)
    requires
        a1.len() == b1.len(),
        a2.len() == b2.len(),
        0 <= k <= a1.len() + a2.len(),
    ensures
        k <= a1.len() ==> count_diffs(a1 + a2, b1 + b2, k) == count_diffs(a1, b1, k),
        k > a1.len() ==> count_diffs(a1 + a2, b1 + b2, k) == count_diffs(a1, b1, a1.len() as int)
            + count_diffs(a2, b2, k - a1.len()),
    decreases k,
{
    if k > 0 {
        lemma_count_diffs_concat_upto(a1, b1, a2, b2, k - 1);
        if k > a1.len() {
            let j = k - a1.len();
            assert((a1 + a2)[k - 1] == a2[j - 1]);
            assert((b1 + b2)[k - 1] == b2[j - 1]);
            assert(count_diffs(a2, b2, 0) == 0);
        }
    }
}

/// Comparing `a` with `b` counts the same errors as comparing `b` with `a`.
pub proof fn lemma_count_diffs_symmetric(a: Seq<u8>, b: Seq<u8>, n: int)
    ensures
        count_diffs(a, b, n) == count_diffs(b, a, n),
    decreases n,
{
    if n > 0 {
        lemma_count_diffs_symmetric(a, b, n - 1);
    }
}

/// The error count is 0 exactly when the sequences agree on every compared
/// position, and it never exceeds the number of positions.
pub proof fn lemma_count_diffs_zero_iff_equal(a: Seq<u8>, b: Seq<u8>, n: int)
    requires
        0 <= n <= a.len(),
        n <= b.len(),
    ensures
        count_diffs(a, b, n) == 0 <==> (forall|i: int| 0 <= i < n ==> a[i] == b[i]),
        count_diffs(a, b, n) <= n,
    decreases n,
{
    if n > 0 {
        lemma_count_diffs_zero_iff_equal(a, b, n - 1);
    }
}

/// One position contributes the square of its difference to the sum.
pub proof fn lemma_sum_sq_single(x: u8, y: u8)
    ensures
        sum_sq_diffs(seq![x], seq![y], 1) == (x - y) * (x - y),
{
    assert(sum_sq_diffs(seq![x], seq![y], 0) == 0);
}

/// The squared error sum of two concatenations is the sum of the squared
/// error sums of the parts.
pub proof fn lemma_sum_sq_concat(a1: Seq<u8>, b1: Seq<u8>, a2: Seq<u8>, b2: Seq<u8>)
    requires
        a1.len() == b1.len(),
        a2.len() == b2.len(),
    ensures
        sum_sq_diffs(a1 + a2, b1 + b2, (a1.len() + a2.len()) as int) == sum_sq_diffs(a1, b1, a1.len() as int)
            + sum_sq_diffs(a2, b2, a2.len() as int),
{
    lemma_sum_sq_concat_upto(a1, b1, a2, b2, (a1.len() + a2.len()) as int);
}

proof fn lemma_sum_sq_concat_upto(a1: Seq<u8>, b1: Seq<u8>, a2: Seq<u8>, b2: Seq<u8>, k: int)
    requires
        a1.len() == b1.len(),
        a2.len() == b2.len(),
        0 <= k <= a1.len() + a2.len(),
    ensures
        k <= a1.len() ==> sum_sq_diffs(a1 + a2, b1 + b2, k) == sum_sq_diffs(a1, b1, k),
        k > a1.len() ==> sum_sq_diffs(a1 + a2, b1 + b2, k) == sum_sq_diffs(a1, b1, a1.len() as int)
            + sum_sq_diffs(a2, b2, k - a1.len()),
    decreases k,
{
    if k > 0 {
        lemma_sum_sq_concat_upto(a1, b1, a2, b2, k - 1);
        if k > a1.len() {
            let j = k - a1.len();
            assert((a1 + a2)[k - 1] == a2[j - 1]);
            assert((b1 + b2)[k - 1] == b2[j - 1]);
            assert(sum_sq_diffs(a2, b2, 0) == 0);
        }
    }
}

/// The squared error sum does not depend on which image comes first.
pub proof fn lemma_sum_sq_symmetric(a: Seq<u8>, b: Seq<u8>, n: int)
    ensures
        sum_sq_diffs(a, b, n) == sum_sq_diffs(b, a, n),
    decreases n,
{
    if n > 0 {
        lemma_sum_sq_symmetric(a, b, n - 1);
        assert((a[n - 1] - b[n - 1]) * (a[n - 1] - b[n - 1]) == (b[n - 1] - a[n - 1]) * (b[n - 1] - a[n - 1]))
            by (nonlinear_arith);
    }
}

/// Every pixel's squared difference is part of the sum, the sum is at
/// least the number of differing pixels and at most 255² per differing
/// pixel, and it is 0 exactly when the images agree on every pixel.
pub proof fn lemma_sum_sq_bounds(a: Seq<u8>, b: Seq<u8>, n: int)
    requires
        0 <= n <= a.len(),
        n <= b.len(),
    ensures
        forall|i: int| #![trigger a[i], b[i]] 0 <= i < n ==> (a[i] - b[i]) * (a[i] - b[i]) <= sum_sq_diffs(a, b, n),
        count_diffs(a, b, n) <= sum_sq_diffs(a, b, n) <= 65025 * count_diffs(a, b, n),
        sum_sq_diffs(a, b, n) == 0 <==> (forall|i: int| 0 <= i < n ==> a[i] == b[i]),
    decreases n,
{
    lemma_count_diffs_zero_iff_equal(a, b, n);
    if n > 0 {
        lemma_sum_sq_bounds(a, b, n - 1);
        let d = a[n - 1] - b[n - 1];
        assert(d * d >= 0) by (nonlinear_arith);
        assert(d != 0 ==> 1 <= d * d <= 65025) by (nonlinear_arith)
            requires
                -255 <= d <= 255,
        ;
        assert(d == 0 ==> d * d == 0) by (nonlinear_arith);
        assert forall|i: int| #![trigger a[i], b[i]] 0 <= i < n implies (a[i] - b[i]) * (a[i] - b[i])
            <= sum_sq_diffs(a, b, n) by {
            if i < n - 1 {
                assert((a[i] - b[i]) * (a[i] - b[i]) <= sum_sq_diffs(a, b, n - 1));
            }
        }
    }
}

} // verus!
