//! Square-grid array transforms and the weighted random draw.

use vstd::prelude::*;

verus! {

/// Sum of the first `k` weights.
pub open spec fn prefix_sum(weights: Seq<u32>, k: int) -> int
    decreases k,
{
    if k <= 0 {
        0
    } else {
        prefix_sum(weights, k - 1) + weights[k - 1]
    }
}

/// Prefix sums never decrease.
pub proof fn lemma_prefix_sum_monotone(weights: Seq<u32>, j: int, k: int)
    requires
        0 <= j <= k <= weights.len(),
    ensures
        prefix_sum(weights, j) <= prefix_sum(weights, k),
    decreases k,
{
    if j < k {
        lemma_prefix_sum_monotone(weights, j, k - 1);
    }
}

/// The index the weighted draw picks: the first index with positive weight
/// whose running weight total reaches or exceeds the threshold; if the
/// threshold is beyond the total, the last index with positive weight; and 0
/// if every weight is zero.
pub open spec fn spec_weighted_random(weights: Seq<u32>, threshold: int) -> int {
    if exists|i: int|
        0 <= i < weights.len() && weights[i] > 0 && prefix_sum(weights, i + 1) >= threshold {
        choose|i: int|
            0 <= i < weights.len() && weights[i] > 0 && prefix_sum(weights, i + 1) >= threshold
                && forall|j: int|
                0 <= j < i ==> !(weights[j] > 0 && prefix_sum(weights, j + 1) >= threshold)
    } else if exists|i: int| 0 <= i < weights.len() && weights[i] > 0 {
        choose|i: int|
            0 <= i < weights.len() && weights[i] > 0 && forall|j: int|
                i < j < weights.len() ==> weights[j] == 0
    } else {
        0
    }
}

/// Weighted random choice by cumulative-weight thresholding: scan the weights
/// in index order, accumulate, and return the first index with positive
/// weight whose running sum reaches or exceeds `threshold` (reaching it
/// exactly counts as a hit). If no index reaches the threshold, the last
/// index with positive weight is returned; if all weights are zero, 0.
pub fn weighted_random(weights: &Vec<u32>, threshold: u64) -> (r: usize)
    requires
        prefix_sum(weights@, weights@.len() as int) <= u64::MAX,
    ensures
        r as int == spec_weighted_random(weights@, threshold as int),
        r < weights@.len() || (r == 0 && weights@.len() == 0),
{
    let mut partial: u64 = 0;
    let mut last_positive: usize = 0;
    let mut seen_positive: bool = false;
    let n: usize = weights.len();
    for i in 0..n
        invariant
            n == weights@.len(),
            prefix_sum(weights@, weights@.len() as int) <= u64::MAX,
            partial as int == prefix_sum(weights@, i as int),
            forall|j: int|
                0 <= j < i ==> !(weights@[j] > 0 && prefix_sum(weights@, j + 1) >= threshold),
            seen_positive <==> exists|j: int| 0 <= j < i && weights@[j] > 0,
            seen_positive ==> 0 <= last_positive < i && weights@[last_positive as int] > 0
                && forall|j: int| last_positive < j < i ==> weights@[j] == 0,
    {
        proof {
            lemma_prefix_sum_monotone(weights@, i + 1, weights@.len() as int);
        }
        let w: u32 = weights[i];
        partial = partial + w as u64;
        if w > 0 {
            if partial >= threshold {
                proof {
                    let k = choose|k: int|
                        0 <= k < weights@.len() && weights@[k] > 0 && prefix_sum(weights@, k + 1)
                            >= threshold && forall|j: int|
                            0 <= j < k ==> !(weights@[j] > 0 && prefix_sum(weights@, j + 1)
                                >= threshold);
                    assert(k == i as int);
                }
                return i;
            }
            last_positive = i;
            seen_positive = true;
        }
    }
    if seen_positive {
        proof {
            let k = choose|k: int|
                0 <= k < weights@.len() && weights@[k] > 0 && forall|j: int|
                    k < j < weights@.len() ==> weights@[j] == 0;
            assert(k == last_positive as int);
        }
        last_positive
    } else {
        0
    }
}

/// A threshold of zero picks the first index with positive weight.
pub proof fn lemma_weighted_random_zero_threshold(weights: Seq<u32>, first: int)
    requires
        0 <= first < weights.len(),
        weights[first] > 0,
        forall|j: int| 0 <= j < first ==> weights[j] == 0,
    ensures
        spec_weighted_random(weights, 0) == first,
{
    lemma_prefix_sum_monotone(weights, 0, first + 1);
    assert(prefix_sum(weights, first + 1) >= 0);
    let k = choose|k: int|
        0 <= k < weights.len() && weights[k] > 0 && prefix_sum(weights, k + 1) >= 0 && forall|
            j: int,
        |
            0 <= j < k ==> !(weights[j] > 0 && prefix_sum(weights, j + 1) >= 0);
    assert(k == first);
}

/// A threshold above the total picks the last index with positive weight.
pub proof fn lemma_weighted_random_high_threshold(weights: Seq<u32>, threshold: int, last: int)
    requires
        threshold > prefix_sum(weights, weights.len() as int),
        0 <= last < weights.len(),
        weights[last] > 0,
        forall|j: int| last < j < weights.len() ==> weights[j] == 0,
    ensures
        spec_weighted_random(weights, threshold) == last,
{
    assert forall|i: int|
        0 <= i < weights.len() implies !(weights[i] > 0 && prefix_sum(weights, i + 1)
        >= threshold) by {
        lemma_prefix_sum_monotone(weights, i + 1, weights.len() as int);
    }
    let k = choose|k: int|
        0 <= k < weights.len() && weights[k] > 0 && forall|j: int|
            k < j < weights.len() ==> weights[j] == 0;
    assert(k == last);
}

/// With a single positive weight, every threshold at or below the total picks
/// that index.
pub proof fn lemma_weighted_random_single(weights: Seq<u32>, threshold: int, only: int)
    requires
        0 <= only < weights.len(),
        weights[only] > 0,
        forall|j: int| 0 <= j < weights.len() && j != only ==> weights[j] == 0,
        threshold <= prefix_sum(weights, weights.len() as int),
    ensures
        spec_weighted_random(weights, threshold) == only,
{
    lemma_prefix_sum_monotone(weights, only + 1, weights.len() as int);
    assert forall|j: int| 0 <= j < only implies #[trigger] prefix_sum(weights, j + 1) == 0 by {
        lemma_prefix_sum_zero_range(weights, j + 1);
    }
    lemma_prefix_sum_monotone(weights, 0, weights.len() as int);
    if threshold <= 0 {
        lemma_weighted_random_zero_range(weights, threshold, only);
    } else {
        assert(prefix_sum(weights, only + 1) >= threshold) by {
            lemma_prefix_sum_suffix(weights, only + 1, weights.len() as int);
        }
        let k = choose|k: int|
            0 <= k < weights.len() && weights[k] > 0 && prefix_sum(weights, k + 1) >= threshold
                && forall|j: int|
                0 <= j < k ==> !(weights[j] > 0 && prefix_sum(weights, j + 1) >= threshold);
        assert(k == only);
    }
}

proof fn lemma_prefix_sum_zero_range(weights: Seq<u32>, k: int)
    requires
        0 <= k <= weights.len(),
        forall|j: int| 0 <= j < k ==> weights[j] == 0,
    ensures
        prefix_sum(weights, k) == 0,
    decreases k,
{
    if k > 0 {
        lemma_prefix_sum_zero_range(weights, k - 1);
    }
}

proof fn lemma_prefix_sum_suffix(weights: Seq<u32>, j: int, k: int)
    requires
        0 <= j <= k <= weights.len(),
        forall|i: int| j <= i < k ==> weights[i] == 0,
    ensures
        prefix_sum(weights, k) == prefix_sum(weights, j),
    decreases k,
{
    if j < k {
        lemma_prefix_sum_suffix(weights, j, k - 1);
    }
}

proof fn lemma_weighted_random_zero_range(weights: Seq<u32>, threshold: int, only: int)
    requires
        threshold <= 0,
        0 <= only < weights.len(),
        weights[only] > 0,
        forall|j: int| 0 <= j < only ==> weights[j] == 0,
    ensures
        spec_weighted_random(weights, threshold) == only,
{
    assert(prefix_sum(weights, only + 1) >= threshold) by {
        lemma_prefix_sum_monotone(weights, 0, only + 1);
    }
    let k = choose|k: int|
        0 <= k < weights.len() && weights[k] > 0 && prefix_sum(weights, k + 1) >= threshold
            && forall|j: int|
            0 <= j < k ==> !(weights[j] > 0 && prefix_sum(weights, j + 1) >= threshold);
    assert(k == only);
}

/// The draw lands on an index with positive weight whenever any index has
/// one, whatever the threshold.
pub proof fn lemma_weighted_random_positive(weights: Seq<u32>, threshold: int, witness: int)
    requires
        0 <= witness < weights.len(),
        weights[witness] > 0,
    ensures
        ({
            let r = spec_weighted_random(weights, threshold);
            0 <= r < weights.len() && weights[r] > 0
        }),
{
    if exists|i: int|
        0 <= i < weights.len() && weights[i] > 0 && prefix_sum(weights, i + 1) >= threshold {
        let i = choose|i: int|
            0 <= i < weights.len() && weights[i] > 0 && prefix_sum(weights, i + 1) >= threshold;
        lemma_first_hit(weights, threshold, i);
    } else {
        lemma_last_pos(weights, witness);
    }
}

proof fn lemma_first_hit(weights: Seq<u32>, threshold: int, i: int)
    requires
        0 <= i < weights.len(),
        weights[i] > 0,
        prefix_sum(weights, i + 1) >= threshold,
    ensures
        exists|k: int|
            0 <= k < weights.len() && weights[k] > 0 && prefix_sum(weights, k + 1) >= threshold
                && forall|j: int|
                0 <= j < k ==> !(weights[j] > 0 && prefix_sum(weights, j + 1) >= threshold),
    decreases i,
{
    if exists|j: int| 0 <= j < i && weights[j] > 0 && prefix_sum(weights, j + 1) >= threshold {
        let j = choose|j: int|
            0 <= j < i && weights[j] > 0 && prefix_sum(weights, j + 1) >= threshold;
        lemma_first_hit(weights, threshold, j);
    }
}

proof fn lemma_last_pos(weights: Seq<u32>, i: int)
    requires
        0 <= i < weights.len(),
        weights[i] > 0,
    ensures
        exists|k: int|
            0 <= k < weights.len() && weights[k] > 0 && forall|j: int|
                k < j < weights.len() ==> weights[j] == 0,
    decreases weights.len() - i,
{
    if exists|j: int| i < j < weights.len() && weights[j] > 0 {
        let j = choose|j: int| i < j < weights.len() && weights[j] > 0;
        lemma_last_pos(weights, j);
    }
}

/// Fill a square grid, stored row-major, from a function of the cell's
/// (x, y) coordinates.
pub fn tile<F: Fn(usize, usize) -> u32>(f: F, size: usize) -> (r: Vec<u32>)
    requires
        size * size <= usize::MAX,
        forall|x: usize, y: usize| x < size && y < size ==> f.requires((x, y)),
    ensures
        r@.len() == size * size,
        forall|x: usize, y: usize|
            x < size && y < size ==> f.ensures((x, y), #[trigger] r@[x + y * size]),
{
    let mut result: Vec<u32> = Vec::new();
    let mut y: usize = 0;
    while y < size
        invariant
            size * size <= usize::MAX,
            forall|xx: usize, yy: usize| xx < size && yy < size ==> f.requires((xx, yy)),
            y <= size,
            result@.len() == y * size,
            forall|xx: usize, yy: usize|
                xx < size && yy < y ==> f.ensures((xx, yy), #[trigger] result@[xx + yy * size]),
        decreases size - y,
    {
        let mut x: usize = 0;
        while x < size
            invariant
                size * size <= usize::MAX,
                forall|xx: usize, yy: usize| xx < size && yy < size ==> f.requires((xx, yy)),
                y < size,
                x <= size,
                result@.len() == y * size + x,
                forall|xx: usize, yy: usize|
                    xx < size && yy < y ==> f.ensures((xx, yy), #[trigger] result@[xx + yy * size]),
                forall|xx: usize|
                    xx < x ==> f.ensures((xx, y), #[trigger] result@[xx + y * size]),
            decreases size - x,
        {
            proof {
                assert(y * size + x < size * size && (y + 1) * size == y * size + size)
                    by (nonlinear_arith)
                    requires
                        0 <= x < size,
                        0 <= y < size,
                ;
            }
            let value: u32 = f(x, y);
            result.push(value);
            proof {
                assert forall|xx: usize, yy: usize|
                    xx < size && yy < y implies #[trigger] (xx + yy * size) < y * size by {
                    assert(xx + yy * size < y * size) by (nonlinear_arith)
                        requires
                            xx < size,
                            yy < y,
                    ;
                }
            }
            x = x + 1;
        }
        proof {
            assert((y + 1) * size == y * size + size) by (nonlinear_arith);
        }
        y = y + 1;
    }
    proof {
        assert(size * size == size * size);
    }
    result
}

/// The element at position (x, y) of the 90-degree rotation of a square grid
/// stored row-major with side `size`.
pub open spec fn spec_rotate(grid: Seq<u32>, size: int) -> Seq<u32> {
    Seq::new((size * size) as nat, |k: int| grid[size - 1 - (k / size) + (k % size) * size])
}

/// The element at position (x, y) of the mirror image of a square grid
/// stored row-major with side `size`.
pub open spec fn spec_reflect(grid: Seq<u32>, size: int) -> Seq<u32> {
    Seq::new((size * size) as nat, |k: int| grid[size - 1 - (k % size) + (k / size) * size])
}

/// Side length of a square grid: the integer whose square is the length.
pub fn grid_side(len: usize) -> (size: usize)
    requires
        exists|s: int| 0 <= s && #[trigger] (s * s) == len,
    ensures
        size * size == len,
{
    let ghost s = choose|s: int| 0 <= s && #[trigger] (s * s) == len;
    let mut i: usize = 0;
    let mut sq: usize = 0;
    while sq < len
        invariant
            0 <= i <= s,
            s * s == len,
            sq as int == i * i,
        decreases s - i,
    {
        proof {
            assert(i < s && s <= s * s && (i + 1) * (i + 1) <= s * s) by (nonlinear_arith)
                requires
                    0 <= i <= s,
                    i * i < s * s,
            ;
        }
        i = i + 1;
        sq = i * i;
    }
    proof {
        assert(i == s) by (nonlinear_arith)
            requires
                0 <= i <= s,
                s * s <= i * i,
        ;
    }
    i
}

/// Rotate a square grid, stored row-major, by 90 degrees.
pub fn rotate(array: &[u32]) -> (r: Vec<u32>)
    requires
        exists|s: int| 0 <= s && #[trigger] (s * s) == array@.len(),
    ensures
        ({
            let size = choose|s: int| 0 <= s && #[trigger] (s * s) == array@.len();
            r@ == spec_rotate(array@, size)
        }),
{
    let size: usize = grid_side(array.len());
    proof {
        let s = choose|s: int| 0 <= s && #[trigger] (s * s) == array@.len();
        assert(s == size) by (nonlinear_arith)
            requires
                0 <= s,
                0 <= size,
                s * s == size * size,
        ;
    }
    let total: usize = size * size;
    let mut result: Vec<u32> = Vec::new();
    let mut k: usize = 0;
    while k < total
        invariant
            size * size == array@.len(),
            total == size * size,
            k <= size * size,
            result@.len() == k,
            forall|j: int| 0 <= j < k ==> result@[j] == spec_rotate(array@, size as int)[j],
        decreases size * size - k,
    {
        let x: usize = k % size;
        let y: usize = k / size;
        proof {
            assert(size > 0 && y < size && x + y * size == k) by (nonlinear_arith)
                requires
                    size * size == array@.len(),
                    0 <= k < size * size,
                    x as int == (k as int) % (size as int),
                    y as int == (k as int) / (size as int),
            ;
            assert((size - 1 - y) + x * size < size * size) by (nonlinear_arith)
                requires
                    size > 0,
                    0 <= x < size,
                    0 <= y < size,
            ;
        }
        result.push(array[size - 1 - y + x * size]);
        k = k + 1;
    }
    proof {
        assert(result@ =~= spec_rotate(array@, size as int));
    }
    result
}

/// Mirror a square grid, stored row-major, along its vertical axis.
pub fn reflect(array: &[u32]) -> (r: Vec<u32>)
    requires
        exists|s: int| 0 <= s && #[trigger] (s * s) == array@.len(),
    ensures
        ({
            let size = choose|s: int| 0 <= s && #[trigger] (s * s) == array@.len();
            r@ == spec_reflect(array@, size)
        }),
{
    let size: usize = grid_side(array.len());
    proof {
        let s = choose|s: int| 0 <= s && #[trigger] (s * s) == array@.len();
        assert(s == size) by (nonlinear_arith)
            requires
                0 <= s,
                0 <= size,
                s * s == size * size,
        ;
    }
    let total: usize = size * size;
    let mut result: Vec<u32> = Vec::new();
    let mut k: usize = 0;
    while k < total
        invariant
            size * size == array@.len(),
            total == size * size,
            k <= size * size,
            result@.len() == k,
            forall|j: int| 0 <= j < k ==> result@[j] == spec_reflect(array@, size as int)[j],
        decreases size * size - k,
    {
        let x: usize = k % size;
        let y: usize = k / size;
        proof {
            assert(size > 0 && y < size && x + y * size == k) by (nonlinear_arith)
                requires
                    size * size == array@.len(),
                    0 <= k < size * size,
                    x as int == (k as int) % (size as int),
                    y as int == (k as int) / (size as int),
            ;
            assert((size - 1 - x) + y * size < size * size) by (nonlinear_arith)
                requires
                    size > 0,
                    0 <= x < size,
                    0 <= y < size,
            ;
        }
        result.push(array[size - 1 - x + y * size]);
        k = k + 1;
    }
    proof {
        assert(result@ =~= spec_reflect(array@, size as int));
    }
    result
}

} // verus!
