//! Pool arithmetic on token amounts (`u128`, the representation of `Amount`):
//! the constant-product swap output with its 0.3% fee, proportional shares,
//! and the integer square root used for the first LP mint.

use vstd::arithmetic::div_mod::*;
use vstd::arithmetic::mul::*;
use vstd::prelude::*;

verus! {

/// Fee numerator: an input counts for 997/1000 of its amount.
pub const FEE_NUMERATOR: u128 = 997;

/// Fee denominator.
pub const FEE_DENOMINATOR: u128 = 1000;

/// The largest token amount.
pub open spec fn amount_max() -> int {
    u128::MAX as int
}

/// `r` is the integer square root of `n`: `r * r <= n < (r + 1) * (r + 1)`.
pub open spec fn is_isqrt(n: int, r: int) -> bool {
    &&& 0 <= r
    &&& r * r <= n
    &&& n < (r + 1) * (r + 1)
}

/// The constant-product output of a swap with the fee taken from the input:
/// `amount_in * 997 * reserve_out / (reserve_in * 1000 + amount_in * 997)`,
/// rounded down.
pub open spec fn swap_output(amount_in: int, reserve_in: int, reserve_out: int) -> int {
    (amount_in * 997 * reserve_out) / (reserve_in * 1000 + amount_in * 997)
}

/// Every intermediate of the swap formula fits in an amount, and the
/// denominator is not zero.
pub open spec fn swap_output_computable(amount_in: int, reserve_in: int, reserve_out: int) -> bool {
    &&& amount_in * 997 <= amount_max()
    &&& amount_in * 997 * reserve_out <= amount_max()
    &&& reserve_in * 1000 <= amount_max()
    &&& reserve_in * 1000 + amount_in * 997 <= amount_max()
    &&& reserve_in * 1000 + amount_in * 997 != 0
}

/// `a * b / denom` is computable on amounts: the product fits and the divisor
/// is not zero.
pub open spec fn mul_div_computable(a: int, b: int, denom: int) -> bool {
    &&& a * b <= amount_max()
    &&& denom != 0
}

/// Output of a swap:
/// `amount_out = (amount_in * 997 * reserve_out) / (reserve_in * 1000 + amount_in * 997)`.
/// `None` where an intermediate overflows or the denominator is zero.
pub fn compute_swap_output(amount_in: u128, reserve_in: u128, reserve_out: u128) -> (res: Option<
    u128,
>)
    ensures
        res is Some <==> swap_output_computable(
            amount_in as int,
            reserve_in as int,
            reserve_out as int,
        ),
        res matches Some(v) ==> v == swap_output(amount_in as int, reserve_in as int, reserve_out as int),
{
    let amount_in_with_fee = match amount_in.checked_mul(FEE_NUMERATOR) {
        Some(v) => v,
        None => return None,
    };
    let numerator = match amount_in_with_fee.checked_mul(reserve_out) {
        Some(v) => v,
        None => {
            proof {
                lemma_mul_is_commutative(amount_in as int, 997);
            }
            return None;
        },
    };
    let denom_term1 = match reserve_in.checked_mul(FEE_DENOMINATOR) {
        Some(v) => v,
        None => {
            return None;
        },
    };
    let denominator = match denom_term1.checked_add(amount_in_with_fee) {
        Some(v) => v,
        None => return None,
    };
    if denominator == 0 {
        return None;
    }
    Some(numerator / denominator)
}

/// `a * b / denom`, rounded down; `None` where the product overflows or the
/// divisor is zero.
pub fn mul_div(a: u128, b: u128, denom: u128) -> (res: Option<u128>)
    ensures
        res is Some <==> mul_div_computable(a as int, b as int, denom as int),
        res matches Some(v) ==> v == (a as int * b as int) / denom as int,
{
    let prod = match a.checked_mul(b) {
        Some(p) => p,
        None => return None,
    };
    if denom == 0 {
        return None;
    }
    Some(prod / denom)
}

/// One Newton step never falls below the square root: for `x > 0` and
/// `y = (x + n / x) / 2`, `n < (y + 1) * (y + 1)`.
proof fn lemma_newton_step_not_below(n: int, x: int)
    requires
        0 <= n,
        0 < x,
    ensures
        n < ((x + n / x) / 2 + 1) * ((x + n / x) / 2 + 1),
{
    let q = n / x;
    let y = (x + q) / 2;
    let t = y + 1;
    lemma_fundamental_div_mod(n, x);
    lemma_div_pos_is_pos(n, x);
    assert(n < (q + 1) * x) by (nonlinear_arith)
        requires
            n == x * q + n % x,
            n % x < x,
    ;
    assert(q + 1 <= 2 * t - x);
    assert((q + 1) * x <= (2 * t - x) * x) by (nonlinear_arith)
        requires
            q + 1 <= 2 * t - x,
            0 < x,
    ;
    assert((2 * t - x) * x <= t * t) by (nonlinear_arith);
}

/// Above the square root a Newton step strictly descends: if `x * x > n`
/// then `(x + n / x) / 2 < x`.
proof fn lemma_newton_step_descends(n: int, x: int)
    requires
        0 <= n,
        0 < x,
        n < x * x,
    ensures
        (x + n / x) / 2 < x,
{
    let q = n / x;
    lemma_fundamental_div_mod(n, x);
    lemma_mod_bound(n, x);
    assert(q < x) by (nonlinear_arith)
        requires
            n == x * q + n % x,
            0 <= n % x,
            n < x * x,
            0 < x,
    ;
}

/// From `x <= (n + 1) / 2` the next Newton iterate and its intermediate sum
/// stay within bounds.
proof fn lemma_newton_step_bounded(n: int, x: int)
    requires
        2 <= n,
        1 <= x <= (n + 1) / 2,
    ensures
        x + n / x <= n + 1,
        (x + n / x) / 2 <= (n + 1) / 2,
{
    if x == 1 {
        assert(n / 1 == n);
    } else {
        lemma_div_is_ordered_by_denominator(n, 2, x);
        assert(n / 2 + (n + 1) / 2 == n);
    }
}

/// The integer square root of `n` by Newton's iteration: the largest `r`
/// with `r * r <= n`.
pub fn isqrt_u128(n: u128) -> (r: u128)
    requires
        n < u128::MAX,
    ensures
        is_isqrt(n as int, r as int),
{
    if n < 2 {
        assert(n as int * n as int <= n as int) by (nonlinear_arith)
            requires
                n < 2,
        ;
        assert(n < (n as int + 1) * (n as int + 1)) by (nonlinear_arith);
        return n;
    }
    let mut x = n;
    let mut y = (x + 1) / 2;
    proof {
        assert(n as int / n as int == 1) by {
            lemma_div_by_self(n as int);
        }
        lemma_newton_step_not_below(n as int, n as int);
        assert(n < (n as int + 1) * (n as int + 1)) by (nonlinear_arith);
    }
    while y < x
        invariant
            2 <= n < u128::MAX,
            1 <= x <= n,
            y as int == (x as int + n as int / x as int) / 2,
            y as int <= (n as int + 1) / 2,
            n < (x as int + 1) * (x as int + 1),
            n < (y as int + 1) * (y as int + 1),
        decreases x,
    {
        assert(y > 0) by (nonlinear_arith)
            requires
                n < (y as int + 1) * (y as int + 1),
                2 <= n,
        ;
        x = y;
        proof {
            lemma_newton_step_bounded(n as int, x as int);
            lemma_newton_step_not_below(n as int, x as int);
        }
        y = (x + n / x) / 2;
    }
    proof {
        if n < x as int * x as int {
            lemma_newton_step_descends(n as int, x as int);
        }
    }
    x
}

/// A swap's output stays below the output reserve, and the pool's product of
/// reserves never shrinks: `(reserve_in + amount_in) * (reserve_out - out)
/// >= reserve_in * reserve_out`, the fee staying in the pool.
pub proof fn lemma_swap_keeps_product(amount_in: int, reserve_in: int, reserve_out: int)
    requires
        0 < amount_in,
        0 < reserve_in,
        0 < reserve_out,
    ensures
        0 <= swap_output(amount_in, reserve_in, reserve_out) < reserve_out,
        (reserve_in + amount_in) * (reserve_out - swap_output(amount_in, reserve_in, reserve_out))
            >= reserve_in * reserve_out,
{
    let num = amount_in * 997 * reserve_out;
    let d = reserve_in * 1000 + amount_in * 997;
    let out = num / d;
    assert(0 < d) by (nonlinear_arith)
        requires
            d == reserve_in * 1000 + amount_in * 997,
            0 < amount_in,
            0 < reserve_in,
    ;
    assert(0 <= num) by (nonlinear_arith)
        requires
            num == amount_in * 997 * reserve_out,
            0 < amount_in,
            0 < reserve_out,
    ;
    lemma_fundamental_div_mod(num, d);
    lemma_mod_bound(num, d);
    lemma_div_pos_is_pos(num, d);
    assert(out * d <= num) by (nonlinear_arith)
        requires
            num == d * out + num % d,
            0 <= num % d,
    ;
    assert(num < reserve_out * d) by (nonlinear_arith)
        requires
            num == amount_in * 997 * reserve_out,
            d == reserve_in * 1000 + amount_in * 997,
            0 < reserve_in,
            0 < reserve_out,
    ;
    assert(out < reserve_out) by (nonlinear_arith)
        requires
            out * d <= num,
            num < reserve_out * d,
            0 < d,
    ;
    assert((reserve_in + amount_in) * out <= amount_in * reserve_out) by (nonlinear_arith)
        requires
            out * d <= num,
            num == amount_in * 997 * reserve_out,
            d == reserve_in * 1000 + amount_in * 997,
            0 <= out < reserve_out,
            0 < amount_in,
    ;
    assert((reserve_in + amount_in) * (reserve_out - out) >= reserve_in * reserve_out)
        by (nonlinear_arith)
        requires
            (reserve_in + amount_in) * out <= amount_in * reserve_out,
    ;
}

/// A share `a * b / denom` with `a <= denom` is at most `b`, and
/// `share * denom <= a * b`.
pub proof fn lemma_share_bounds(a: int, b: int, denom: int)
    requires
        0 <= a <= denom,
        0 < denom,
        0 <= b,
    ensures
        0 <= (a * b) / denom <= b,
        ((a * b) / denom) * denom <= a * b,
        a < denom ==> (a * b) / denom < b || b == 0,
{
    let p = a * b;
    assert(0 <= p) by (nonlinear_arith)
        requires
            p == a * b,
            0 <= a,
            0 <= b,
    ;
    assert(p <= denom * b) by (nonlinear_arith)
        requires
            a <= denom,
            0 <= b,
            p == a * b,
    ;
    lemma_fundamental_div_mod(p, denom);
    lemma_mod_bound(p, denom);
    lemma_div_pos_is_pos(p, denom);
    let s = p / denom;
    assert(s * denom <= p) by (nonlinear_arith)
        requires
            p == denom * s + p % denom,
            0 <= p % denom,
    ;
    assert(s <= b) by (nonlinear_arith)
        requires
            s * denom <= p,
            p <= denom * b,
            0 < denom,
    ;
    if a < denom && b > 0 {
        assert(p < denom * b) by (nonlinear_arith)
            requires
                a < denom,
                0 < b,
                p == a * b,
        ;
        assert(s < b) by (nonlinear_arith)
            requires
                s * denom <= p,
                p < denom * b,
                0 < denom,
        ;
    }
}

} // verus!
