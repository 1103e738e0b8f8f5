//! Sums over coordinate sequences and the integer square root.

use vstd::prelude::*;
use crate::types::{VectorElementType, MAX_DIMENSION};

verus! {

/// Sum of the coordinate-wise products of `a` and `b`.
pub open spec fn dot_product(a: Seq<VectorElementType>, b: Seq<VectorElementType>) -> int
    decreases a.len(),
{
    if a.len() == 0 {
        0
    } else {
        dot_product(a.drop_last(), b.drop_last()) + a.last() * b.last()
    }
}

/// Sum of the squared coordinate-wise differences of `a` and `b`.
pub open spec fn squared_distance(a: Seq<VectorElementType>, b: Seq<VectorElementType>) -> int
    decreases a.len(),
{
    if a.len() == 0 {
        0
    } else {
        squared_distance(a.drop_last(), b.drop_last()) + (a.last() - b.last()) * (a.last()
            - b.last())
    }
}

/// `r` is the square root of `n`, rounded down.
pub open spec fn is_floor_sqrt(n: int, r: int) -> bool {
    0 <= r && r * r <= n && n < (r + 1) * (r + 1)
}

/// The square root of `n`, rounded down (for `n >= 0`).
pub open spec fn floor_sqrt(n: int) -> int {
    choose|r: int| is_floor_sqrt(n, r)
}

/// Rounded-down square roots are unique, so any root that fits is the root.
pub proof fn lemma_floor_sqrt_unique(n: int, r: int)
    requires
        is_floor_sqrt(n, r),
    ensures
        floor_sqrt(n) == r,
{
    let c = floor_sqrt(n);
    assert(is_floor_sqrt(n, c));
    assert(c == r) by (nonlinear_arith)
        requires
            0 <= r && r * r <= n && n < (r + 1) * (r + 1),
            0 <= c && c * c <= n && n < (c + 1) * (c + 1),
    {
        if c < r {
            assert((c + 1) * (c + 1) <= r * r);
        } else if r < c {
            assert((r + 1) * (r + 1) <= c * c);
        }
    }
}

/// The square root is monotone: a larger number never has a smaller root.
pub proof fn lemma_floor_sqrt_monotone(a: int, b: int)
    requires
        0 <= a <= b,
    ensures
        0 <= floor_sqrt(a) <= floor_sqrt(b),
{
    lemma_floor_sqrt_exists(a);
    lemma_floor_sqrt_exists(b);
    let x = floor_sqrt(a);
    let y = floor_sqrt(b);
    assert(x <= y) by (nonlinear_arith)
        requires
            0 <= x && x * x <= a && a < (x + 1) * (x + 1),
            0 <= y && y * y <= b && b < (y + 1) * (y + 1),
            a <= b,
    {
        if y < x {
            assert((y + 1) * (y + 1) <= x * x);
        }
    }
}

/// Every non-negative number has a rounded-down square root.
pub proof fn lemma_floor_sqrt_exists(n: int)
    requires
        0 <= n,
    ensures
        is_floor_sqrt(n, floor_sqrt(n)),
    decreases n,
{
    if n == 0 {
        assert(is_floor_sqrt(0, 0));
    } else {
        lemma_floor_sqrt_exists(n - 1);
        let r = floor_sqrt(n - 1);
        if (r + 1) * (r + 1) <= n {
            assert(is_floor_sqrt(n, r + 1)) by (nonlinear_arith)
                requires
                    0 <= r && r * r <= n - 1 && n - 1 < (r + 1) * (r + 1),
                    (r + 1) * (r + 1) <= n,
            {
            }
        } else {
            assert(is_floor_sqrt(n, r));
        }
    }
}

/// Computes the square root of `n`, rounded down.
pub fn integer_sqrt(n: u64) -> (root: u64)
    ensures
        root == floor_sqrt(n as int),
        root < 0x1_0000_0000,
{
    let mut low: u64 = 0;
    let mut high: u64 = 0x1_0000_0000;
    while high - low > 1
        invariant
            low < high <= 0x1_0000_0000,
            low * low <= n,
            n < high * high,
        decreases high - low,
    {
        let mid: u64 = low + (high - low) / 2;
        assert(mid * mid <= 0xffff_ffff * 0xffff_ffff) by (nonlinear_arith)
            requires
                0 <= mid <= 0xffff_ffff,
        {
        }
        if mid * mid <= n {
            low = mid;
        } else {
            high = mid;
        }
    }
    proof {
        lemma_floor_sqrt_unique(n as int, low as int);
    }
    low
}

/// Every product of two coordinates lies within `2^30` of zero.
pub proof fn lemma_product_bound(x: int, y: int)
    requires
        -32768 <= x <= 32767,
        -32768 <= y <= 32767,
    ensures
        -0x4000_0000 <= x * y <= 0x4000_0000,
{
    assert(-0x4000_0000 <= x * y <= 0x4000_0000) by (nonlinear_arith)
        requires
            -32768 <= x <= 32767,
            -32768 <= y <= 32767,
    {
        assert((x + 32768) * (32768 - y) >= 0);
        assert((x + 32768) * (y + 32768) >= 0);
        assert((32768 - x) * (32768 - y) >= 0);
        assert((32768 - x) * (y + 32768) >= 0);
    }
}

/// A dot product grows by at most `2^30` per coordinate.
pub proof fn lemma_dot_product_bound(a: Seq<VectorElementType>, b: Seq<VectorElementType>)
    requires
        a.len() == b.len(),
    ensures
        -0x4000_0000 * a.len() <= dot_product(a, b) <= 0x4000_0000 * a.len(),
    decreases a.len(),
{
    if a.len() > 0 {
        lemma_dot_product_bound(a.drop_last(), b.drop_last());
        lemma_product_bound(a.last() as int, b.last() as int);
    }
}

/// A squared distance is never negative and grows by less than `2^32` per
/// coordinate.
pub proof fn lemma_squared_distance_bound(a: Seq<VectorElementType>, b: Seq<VectorElementType>)
    requires
        a.len() == b.len(),
    ensures
        0 <= squared_distance(a, b) <= 0xffff_ffff * a.len(),
    decreases a.len(),
{
    if a.len() > 0 {
        lemma_squared_distance_bound(a.drop_last(), b.drop_last());
        let d = a.last() - b.last();
        assert(0 <= d * d <= 0xffff_ffff) by (nonlinear_arith)
            requires
                -65535 <= d <= 65535,
        {
            assert((65535 - d) * (65535 + d) >= 0);
        }
    }
}

/// Computes the dot product of two vectors of the same dimension.
pub fn dot_of(v1: &[VectorElementType], v2: &[VectorElementType]) -> (sum: i64)
    requires
        v1@.len() == v2@.len(),
        v1@.len() <= MAX_DIMENSION,
    ensures
        sum == dot_product(v1@, v2@),
{
    let mut sum: i64 = 0;
    let mut i: usize = 0;
    while i < v1.len()
        invariant
            i <= v1@.len(),
            v1@.len() == v2@.len(),
            v1@.len() <= MAX_DIMENSION,
            sum == dot_product(v1@.take(i as int), v2@.take(i as int)),
        decreases v1@.len() - i,
    {
        proof {
            lemma_dot_product_bound(v1@.take(i as int), v2@.take(i as int));
            lemma_product_bound(v1@[i as int] as int, v2@[i as int] as int);
            assert(v1@.take(i + 1).drop_last() =~= v1@.take(i as int));
            assert(v2@.take(i + 1).drop_last() =~= v2@.take(i as int));
        }
        let x: i64 = v1[i] as i64;
        let y: i64 = v2[i] as i64;
        sum = sum + x * y;
        i = i + 1;
    }
    proof {
        assert(v1@.take(i as int) =~= v1@);
        assert(v2@.take(i as int) =~= v2@);
    }
    sum
}

/// Computes the sum of squared differences of two vectors of the same
/// dimension.
pub fn squared_distance_of(v1: &[VectorElementType], v2: &[VectorElementType]) -> (sum: u64)
    requires
        v1@.len() == v2@.len(),
        v1@.len() <= MAX_DIMENSION,
    ensures
        sum == squared_distance(v1@, v2@),
{
    let mut sum: u64 = 0;
    let mut i: usize = 0;
    while i < v1.len()
        invariant
            i <= v1@.len(),
            v1@.len() == v2@.len(),
            v1@.len() <= MAX_DIMENSION,
            sum == squared_distance(v1@.take(i as int), v2@.take(i as int)),
        decreases v1@.len() - i,
    {
        proof {
            lemma_squared_distance_bound(v1@.take(i as int), v2@.take(i as int));
            assert(v1@.take(i + 1).drop_last() =~= v1@.take(i as int));
            assert(v2@.take(i + 1).drop_last() =~= v2@.take(i as int));
        }
        let x: i64 = v1[i] as i64;
        let y: i64 = v2[i] as i64;
        let d: i64 = x - y;
        assert(0 <= d * d <= 0xffff_ffff) by (nonlinear_arith)
            requires
                -65535 <= d <= 65535,
        {
            assert((65535 - d) * (65535 + d) >= 0);
        }
        let square: i64 = d * d;
        sum = sum + square as u64;
        i = i + 1;
    }
    proof {
        assert(v1@.take(i as int) =~= v1@);
        assert(v2@.take(i as int) =~= v2@);
    }
    sum
}

} // verus!
