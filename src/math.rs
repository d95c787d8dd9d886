use vstd::prelude::*;

verus! {

/// Largest value a reserve, a share supply or an input amount may take
/// (2^55 - 1). Products of two such values times a basis-point factor stay
/// within `i128`.
pub const MAX_AMOUNT: i128 = 36_028_797_018_963_967;

/// `r` is the integer square root of `n`.
pub open spec fn is_isqrt(n: int, r: int) -> bool {
    0 <= r && r * r <= n < (r + 1) * (r + 1)
}

/// The integer square root of `n` (floor of the real one).
pub open spec fn isqrt_of(n: int) -> int {
    choose|r: int| is_isqrt(n, r)
}

/// A number has at most one integer square root.
pub proof fn lemma_isqrt_unique(n: int, r: int, t: int)
    requires
        is_isqrt(n, r),
        is_isqrt(n, t),
    ensures
        r == t,
{
    if r < t {
        assert((r + 1) * (r + 1) <= t * t) by (nonlinear_arith)
            requires 0 <= r, r + 1 <= t;
    } else if t < r {
        assert((t + 1) * (t + 1) <= r * r) by (nonlinear_arith)
            requires 0 <= t, t + 1 <= r;
    }
}

/// Bounds on products of amounts and of quotients of them.
pub proof fn lemma_mul_bound(x: int, y: int)
    requires
        0 <= x <= MAX_AMOUNT,
        0 <= y <= MAX_AMOUNT,
    ensures
        0 <= x * y <= MAX_AMOUNT * MAX_AMOUNT,
        MAX_AMOUNT * MAX_AMOUNT * 65536 < i128::MAX,
{
    assert(0 <= x * y <= MAX_AMOUNT * MAX_AMOUNT) by (nonlinear_arith)
        requires 0 <= x <= MAX_AMOUNT, 0 <= y <= MAX_AMOUNT;
    assert(MAX_AMOUNT == 36_028_797_018_963_967int);
    assert(36_028_797_018_963_967int * 36_028_797_018_963_967int * 65536 < i128::MAX);
}

pub proof fn lemma_div_bound(n: int, d: int)
    requires
        0 <= n,
        0 < d,
    ensures
        0 <= n / d <= n,
{
    assert(0 <= n / d <= n) by (nonlinear_arith)
        requires 0 <= n, 0 < d;
}

/// A pro-rata part `r * s / t` of `r` for `0 < s <= t`: all of it when
/// `s == t`, strictly less than a positive `r` otherwise.
pub proof fn lemma_pro_rata(r: int, s: int, t: int)
    requires
        0 <= r,
        0 < s <= t,
    ensures
        0 <= r * s / t <= r,
        s == t ==> r * s / t == r,
        s < t && r > 0 ==> r * s / t < r,
{
    assert(0 <= r * s <= r * t) by (nonlinear_arith)
        requires 0 <= r, 0 < s <= t;
    assert(0 <= r * s / t <= r) by (nonlinear_arith)
        requires 0 <= r * s <= r * t, 0 < t;
    if s == t {
        assert(r * s / t == r) by (nonlinear_arith)
            requires s == t, 0 < t;
    }
    if s < t && r > 0 {
        assert(r * s < r * t) by (nonlinear_arith)
            requires 0 < r, s < t;
        assert(r * s / t < r) by (nonlinear_arith)
            requires 0 <= r * s < r * t, 0 < t;
    }
}

/// Integer square root (floor) by bisection.
pub fn isqrt(n: i128) -> (r: i128)
    requires
        0 <= n <= MAX_AMOUNT * MAX_AMOUNT,
    ensures
        is_isqrt(n as int, r as int),
        r == isqrt_of(n as int),
{
    let mut lo: i128 = 0;
    let mut hi: i128 = MAX_AMOUNT + 1;
    proof {
        assert(n < (MAX_AMOUNT + 1) * (MAX_AMOUNT + 1)) by (nonlinear_arith)
            requires n <= MAX_AMOUNT * MAX_AMOUNT;
    }
    while hi - lo > 1
        invariant
            0 <= lo < hi <= MAX_AMOUNT + 1,
            lo * lo <= n,
            n < hi * hi,
        decreases hi - lo,
    {
        let mid: i128 = lo + (hi - lo) / 2;
        proof {
            assert(mid * mid <= (MAX_AMOUNT + 1) * (MAX_AMOUNT + 1)) by (nonlinear_arith)
                requires 0 <= mid <= MAX_AMOUNT + 1;
            assert(MAX_AMOUNT + 1 == 36_028_797_018_963_968int);
            assert(36_028_797_018_963_968int * 36_028_797_018_963_968int < i128::MAX);
        }
        if mid * mid <= n {
            lo = mid;
        } else {
            hi = mid;
        }
    }
    proof {
        assert(is_isqrt(n as int, lo as int));
        lemma_isqrt_unique(n as int, lo as int, isqrt_of(n as int));
    }
    lo
}

} // verus!
