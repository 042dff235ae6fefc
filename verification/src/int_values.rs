//! The `i64` instance of the aggregation engine's numeric capability:
//! saturating ring operations, division toward zero, and a verified
//! integer floor square root.

use vstd::prelude::*;
use vstd::arithmetic::div_mod::{lemma_div_nonincreasing, lemma_div_pos_is_pos};
use vstd::arithmetic::mul::{lemma_mul_nonnegative, lemma_mul_unary_negation, lemma_mul_upper_bound};
use crate::aggregates::StatValue;

verus! {

/// Saturates an unbounded value into the `i64` range.
pub open spec fn clip_i64(x: int) -> i64 {
    if x > i64::MAX as int {
        i64::MAX
    } else if x < i64::MIN as int {
        i64::MIN
    } else {
        x as i64
    }
}

/// Division rounding toward zero, as machine division does.
pub open spec fn div_toward_zero(a: int, n: int) -> int {
    if a >= 0 {
        a / n
    } else {
        -((-a) / n)
    }
}

/// `r` is the floor of the square root of `n`.
pub open spec fn is_floor_sqrt(n: int, r: int) -> bool {
    0 <= r && r * r <= n && n < (r + 1) * (r + 1)
}

/// The floor of the square root of a non-negative value: the unique `r`
/// with `r * r <= n < (r + 1) * (r + 1)`.
pub open spec fn floor_sqrt(n: int) -> int {
    choose|r: int| #[trigger] is_floor_sqrt(n, r)
}

pub proof fn lemma_floor_sqrt_exists(n: int)
    requires
        n >= 0,
    ensures
        exists|r: int| #[trigger] is_floor_sqrt(n, r),
    decreases n,
{
    if n == 0 {
        assert(is_floor_sqrt(0, 0));
    } else {
        lemma_floor_sqrt_exists(n - 1);
        let r = choose|r: int| #[trigger] is_floor_sqrt(n - 1, r);
        if (r + 1) * (r + 1) <= n {
            assert(n < (r + 2) * (r + 2)) by (nonlinear_arith)
                requires
                    n - 1 < (r + 1) * (r + 1),
                    (r + 1) * (r + 1) <= n,
                    r >= 0,
            ;
            assert(is_floor_sqrt(n, r + 1));
        } else {
            assert(is_floor_sqrt(n, r));
        }
    }
}

pub proof fn lemma_floor_sqrt_unique(n: int, a: int, b: int)
    requires
        is_floor_sqrt(n, a),
        is_floor_sqrt(n, b),
    ensures
        a == b,
{
    if a < b {
        assert((a + 1) * (a + 1) <= b * b) by (nonlinear_arith)
            requires
                0 <= a,
                0 <= b,
                a < b,
        ;
        assert(false);
    }
    if b < a {
        assert((b + 1) * (b + 1) <= a * a) by (nonlinear_arith)
            requires
                0 <= a,
                0 <= b,
                b < a,
        ;
        assert(false);
    }
}

/// Any witness of `is_floor_sqrt` is the `floor_sqrt`.
pub proof fn lemma_floor_sqrt_is(n: int, r: int)
    requires
        n >= 0,
        is_floor_sqrt(n, r),
    ensures
        floor_sqrt(n) == r,
{
    lemma_floor_sqrt_exists(n);
    let c = choose|c: int| #[trigger] is_floor_sqrt(n, c);
    lemma_floor_sqrt_unique(n, c, r);
}

/// The product of two values whose magnitudes are bounded by `m` has
/// magnitude at most `m * m`.
proof fn lemma_abs_mul_bound(a: int, b: int, m: int)
    requires
        0 <= m,
        -m <= a <= m,
        -m <= b <= m,
    ensures
        a * b <= m * m,
        -(m * m) <= a * b,
{
    let aa = if a >= 0 { a } else { -a };
    let bb = if b >= 0 { b } else { -b };
    lemma_mul_upper_bound(aa, m, bb, m);
    lemma_mul_nonnegative(aa, bb);
    lemma_mul_unary_negation(aa, bb);
    lemma_mul_unary_negation(bb, aa);
    lemma_mul_unary_negation(aa, -bb);
    lemma_mul_unary_negation(bb, -aa);
    vstd::arithmetic::mul::lemma_mul_is_commutative(aa, bb);
    vstd::arithmetic::mul::lemma_mul_is_commutative(a, b);
    vstd::arithmetic::mul::lemma_mul_is_commutative(-aa, bb);
    vstd::arithmetic::mul::lemma_mul_is_commutative(aa, -bb);
}

/// Binary search for the floor square root of a non-negative value.
fn isqrt_nonneg(x: i64) -> (r: i64)
    requires
        x >= 0,
    ensures
        r as int == floor_sqrt(x as int),
        r >= 0,
{
    proof {
        assert((x as int) < 3037000500int * 3037000500int);
    }
    let mut lo: u64 = 0;
    let mut hi: u64 = 3037000499;
    while lo < hi
        invariant
            lo <= hi <= 3037000499,
            x >= 0,
            (lo as int) * (lo as int) <= x as int,
            (x as int) < (hi as int + 1) * (hi as int + 1),
        decreases hi - lo,
    {
        let mid: u64 = lo + (hi - lo + 1) / 2;
        proof {
            assert((mid as u128) * (mid as u128) < 0x1_0000_0000_0000_0000_0000u128)
                by (nonlinear_arith)
                requires
                    mid <= 3037000499u64,
            ;
        }
        let sq: u128 = (mid as u128) * (mid as u128);
        if sq <= x as u128 {
            lo = mid;
        } else {
            hi = mid - 1;
        }
    }
    proof {
        assert(is_floor_sqrt(x as int, lo as int));
        lemma_floor_sqrt_is(x as int, lo as int);
    }
    lo as i64
}

impl StatValue for i64 {
    open spec fn zero_spec() -> i64 {
        0
    }

    open spec fn plus_spec(self, o: i64) -> i64 {
        clip_i64(self as int + o as int)
    }

    open spec fn minus_spec(self, o: i64) -> i64 {
        clip_i64(self as int - o as int)
    }

    open spec fn times_spec(self, o: i64) -> i64 {
        clip_i64(self as int * o as int)
    }

    open spec fn div_count_spec(self, n: usize) -> i64 {
        div_toward_zero(self as int, n as int) as i64
    }

    open spec fn sqrt_spec(self) -> i64 {
        if self <= 0 {
            0
        } else {
            floor_sqrt(self as int) as i64
        }
    }

    proof fn lemma_zero_div(n: usize) {
    }

    fn zero() -> (r: i64) {
        0
    }

    fn plus(self, o: i64) -> (r: i64) {
        let s: i128 = self as i128 + o as i128;
        if s > i64::MAX as i128 {
            i64::MAX
        } else if s < i64::MIN as i128 {
            i64::MIN
        } else {
            s as i64
        }
    }

    fn minus(self, o: i64) -> (r: i64) {
        let s: i128 = self as i128 - o as i128;
        if s > i64::MAX as i128 {
            i64::MAX
        } else if s < i64::MIN as i128 {
            i64::MIN
        } else {
            s as i64
        }
    }

    fn times(self, o: i64) -> (r: i64) {
        proof {
            lemma_abs_mul_bound(self as int, o as int, 0x8000_0000_0000_0000);
            assert(0x8000_0000_0000_0000int * 0x8000_0000_0000_0000int
                == 0x4000_0000_0000_0000_0000_0000_0000_0000int);
        }
        let p: i128 = (self as i128) * (o as i128);
        if p > i64::MAX as i128 {
            i64::MAX
        } else if p < i64::MIN as i128 {
            i64::MIN
        } else {
            p as i64
        }
    }

    fn div_count(self, n: usize) -> (r: i64) {
        let nn: i128 = n as i128;
        if self >= 0 {
            proof {
                lemma_div_nonincreasing(self as int, n as int);
                lemma_div_pos_is_pos(self as int, n as int);
            }
            ((self as i128) / nn) as i64
        } else {
            proof {
                lemma_div_nonincreasing(-(self as int), n as int);
                lemma_div_pos_is_pos(-(self as int), n as int);
            }
            (-((-(self as i128)) / nn)) as i64
        }
    }

    fn sqrt(self) -> (r: i64) {
        if self <= 0 {
            0
        } else {
            proof {
                lemma_floor_sqrt_exists(self as int);
                let c = choose|c: int| #[trigger] is_floor_sqrt(self as int, c);
                assert(c * c <= self as int);
                assert(c <= self as int) by (nonlinear_arith)
                    requires
                        0 <= c,
                        c * c <= self as int,
                ;
            }
            isqrt_nonneg(self)
        }
    }
}

} // verus!
