//! The constant-product pool for one pair of resources: its reserves, its LP
//! supply, and the decisions of `add_liquidity`, `remove_liquidity`, `swap`
//! and `quote_swap`.
//!
//! A `Pool` mirrors the pool component: `reserve_a` and `reserve_b` are the
//! balances of its two vaults and `lp_total_supply` the LP tokens it has
//! issued. Each operation either fails with a `PoolError` and changes nothing,
//! or updates the numbers and returns what the engine has to move.

use crate::address::ResourceId;
use crate::math::{
    amount_max, compute_swap_output, is_isqrt, isqrt_u128, lemma_share_bounds,
    lemma_swap_keeps_product, mul_div, swap_output, swap_output_computable,
};
use vstd::arithmetic::div_mod::lemma_div_multiples_vanish;
use vstd::arithmetic::mul::lemma_mul_is_commutative;
use vstd::prelude::*;

verus! {

/// LP tokens burned on the first deposit (Uniswap V2 minimum-liquidity lock):
/// 1000 micro-units, 0.001 tokens at divisibility 6.
pub const MINIMUM_LIQUIDITY: u128 = 1000;

/// A bucket as the pool sees it: which resource, and how much of it.
#[derive(Clone, Copy)]
pub struct Funds {
    pub resource: ResourceId,
    pub amount: u128,
}

/// Why a pool operation is refused. The transaction then fails and no state
/// changes.
#[derive(Clone, Copy, Debug, PartialEq, Eq, Structural)]
pub enum PoolError {
    /// The pool was asked for the same resource on both sides.
    SameResource,
    /// The two deposited buckets are not this pool's two resources.
    BucketsMismatch,
    /// Nothing of resource A was deposited.
    ZeroDepositA,
    /// Nothing of resource B was deposited.
    ZeroDepositB,
    /// The first deposit would mint no more than `MINIMUM_LIQUIDITY`.
    InsufficientInitialLiquidity,
    /// A later deposit would mint no LP tokens.
    InsufficientLiquidityMinted,
    /// The burned bucket does not hold this pool's LP token.
    NotLpToken,
    /// Zero LP tokens were burned.
    ZeroBurn,
    /// More LP tokens were burned than the pool has issued.
    BurnExceedsSupply,
    /// The burn is too small: one side would pay out nothing.
    WithdrawsNothing,
    /// Zero tokens were offered to a swap.
    ZeroInput,
    /// The offered resource is not one of the pool's two resources.
    UnknownResource,
    /// The pool holds nothing on one side yet.
    NotBootstrapped,
    /// The swap would pay out nothing.
    InsufficientOutput,
    /// The swap would pay out the whole output reserve.
    DrainsReserve,
    /// An amount would leave the range of `u128`.
    Overflow,
    /// A share was computed against an empty side.
    DivisionByZero,
}

/// What a successful `add_liquidity` asks the engine to do: put the buckets
/// in the vaults (`x_is_a` says whether the first bucket goes to vault A), mint
/// `lp_minted` LP tokens, burn `lp_locked` of them, hand out the rest.
#[derive(Clone, Copy, Debug, PartialEq, Eq, Structural)]
pub struct LiquidityMint {
    pub x_is_a: bool,
    pub lp_minted: u128,
    pub lp_locked: u128,
    pub lp_to_provider: u128,
}

/// The state of one pool.
pub struct Pool {
    pub resource_a: ResourceId,
    pub resource_b: ResourceId,
    pub lp_resource: ResourceId,
    pub reserve_a: u128,
    pub reserve_b: u128,
    pub lp_total_supply: u128,
}

/// `a * b / denom` as the pool computes it: the product is checked first,
/// then the divisor.
pub open spec fn share_result(a: int, b: int, denom: int) -> Result<int, PoolError> {
    if a * b > amount_max() {
        Err(PoolError::Overflow)
    } else if denom == 0 {
        Err(PoolError::DivisionByZero)
    } else {
        Ok((a * b) / denom)
    }
}

/// The integer square root (unique, see `lemma_isqrt_unique`).
pub open spec fn isqrt(n: int) -> int {
    choose|r: int| is_isqrt(n, r)
}

/// The LP tokens a deposit of `a` of A and `b` of B mints: `isqrt(a * b)` on
/// the first deposit, else `min(a * supply / reserve_a, b * supply / reserve_b)`.
pub open spec fn lp_to_mint(p: Pool, a: int, b: int) -> Result<int, PoolError> {
    if p.lp_total_supply == 0 {
        if a * b >= amount_max() {
            Err(PoolError::Overflow)
        } else if isqrt(a * b) <= MINIMUM_LIQUIDITY {
            Err(PoolError::InsufficientInitialLiquidity)
        } else {
            Ok(isqrt(a * b))
        }
    } else {
        match share_result(a, p.lp_total_supply as int, p.reserve_a as int) {
            Err(e) => Err(e),
            Ok(from_a) => match share_result(b, p.lp_total_supply as int, p.reserve_b as int) {
                Err(e) => Err(e),
                Ok(from_b) => {
                    let m = if from_a < from_b {
                        from_a
                    } else {
                        from_b
                    };
                    if m == 0 {
                        Err(PoolError::InsufficientLiquidityMinted)
                    } else {
                        Ok(m)
                    }
                },
            },
        }
    }
}

impl Pool {
    /// The pool's invariant: two different resources, and reserves that are
    /// empty exactly when no LP tokens are outstanding.
    pub open spec fn wf(self) -> bool {
        &&& self.resource_a != self.resource_b
        &&& (self.lp_total_supply == 0) == (self.reserve_a == 0)
        &&& (self.lp_total_supply == 0) == (self.reserve_b == 0)
    }

    /// The same pool with new reserves and LP supply.
    pub open spec fn with_amounts(self, reserve_a: int, reserve_b: int, supply: int) -> Pool {
        Pool {
            resource_a: self.resource_a,
            resource_b: self.resource_b,
            lp_resource: self.lp_resource,
            reserve_a: reserve_a as u128,
            reserve_b: reserve_b as u128,
            lp_total_supply: supply as u128,
        }
    }

    /// `r` is one of the pool's two resources.
    pub open spec fn holds(self, r: ResourceId) -> bool {
        r == self.resource_a || r == self.resource_b
    }

    /// Reserves facing an input of `r`: `(reserve_in, reserve_out)`; resource
    /// A is matched first.
    pub open spec fn reserves_for(self, r: ResourceId) -> (int, int) {
        if r == self.resource_a {
            (self.reserve_a as int, self.reserve_b as int)
        } else {
            (self.reserve_b as int, self.reserve_a as int)
        }
    }

    /// The outcome of `add_liquidity(x, y)`: the buckets are sorted by resource,
    /// both must be non-empty, the LP tokens are minted (on the first deposit
    /// `MINIMUM_LIQUIDITY` of them are burned), and the reserves grow by the
    /// deposits.
    pub open spec fn add_liquidity_result(self, x: Funds, y: Funds) -> Result<
        (Pool, LiquidityMint),
        PoolError,
    > {
        let x_is_a = x.resource == self.resource_a && y.resource == self.resource_b;
        let x_is_b = x.resource == self.resource_b && y.resource == self.resource_a;
        if !x_is_a && !x_is_b {
            Err(PoolError::BucketsMismatch)
        } else {
            let a = if x_is_a {
                x.amount as int
            } else {
                y.amount as int
            };
            let b = if x_is_a {
                y.amount as int
            } else {
                x.amount as int
            };
            if a == 0 {
                Err(PoolError::ZeroDepositA)
            } else if b == 0 {
                Err(PoolError::ZeroDepositB)
            } else {
                match lp_to_mint(self, a, b) {
                    Err(e) => Err(e),
                    Ok(minted) => {
                        if self.reserve_a + a > amount_max() || self.reserve_b + b > amount_max()
                            || self.lp_total_supply + minted > amount_max() {
                            Err(PoolError::Overflow)
                        } else {
                            let locked: int = if self.lp_total_supply == 0 {
                                MINIMUM_LIQUIDITY as int
                            } else {
                                0
                            };
                            Ok(
                                (
                                    self.with_amounts(
                                        self.reserve_a + a,
                                        self.reserve_b + b,
                                        self.lp_total_supply + minted - locked,
                                    ),
                                    LiquidityMint {
                                        x_is_a,
                                        lp_minted: minted as u128,
                                        lp_locked: locked as u128,
                                        lp_to_provider: (minted - locked) as u128,
                                    },
                                ),
                            )
                        }
                    },
                }
            }
        }
    }

    /// The outcome of `remove_liquidity(lp_in)`: burning `lp` of `supply` LP
    /// tokens pays out `lp * reserve / supply` of each side, rounded down.
    pub open spec fn remove_liquidity_result(self, lp_in: Funds) -> Result<
        (Pool, (u128, u128)),
        PoolError,
    > {
        let lp = lp_in.amount as int;
        let supply = self.lp_total_supply as int;
        if lp_in.resource != self.lp_resource {
            Err(PoolError::NotLpToken)
        } else if lp == 0 {
            Err(PoolError::ZeroBurn)
        } else if lp > supply {
            Err(PoolError::BurnExceedsSupply)
        } else {
            match share_result(lp, self.reserve_a as int, supply) {
                Err(e) => Err(e),
                Ok(out_a) => match share_result(lp, self.reserve_b as int, supply) {
                    Err(e) => Err(e),
                    Ok(out_b) => {
                        if out_a == 0 || out_b == 0 {
                            Err(PoolError::WithdrawsNothing)
                        } else {
                            Ok(
                                (
                                    self.with_amounts(
                                        self.reserve_a - out_a,
                                        self.reserve_b - out_b,
                                        supply - lp,
                                    ),
                                    (out_a as u128, out_b as u128),
                                ),
                            )
                        }
                    },
                },
            }
        }
    }

    /// The outcome of `swap(input)`: the input joins its side's reserve and
    /// `swap_output` of the other side is paid out.
    pub open spec fn swap_result(self, input: Funds) -> Result<(Pool, u128), PoolError> {
        let amount_in = input.amount as int;
        let (reserve_in, reserve_out) = self.reserves_for(input.resource);
        if amount_in == 0 {
            Err(PoolError::ZeroInput)
        } else if !self.holds(input.resource) {
            Err(PoolError::UnknownResource)
        } else if reserve_in == 0 || reserve_out == 0 {
            Err(PoolError::NotBootstrapped)
        } else if !swap_output_computable(amount_in, reserve_in, reserve_out) {
            Err(PoolError::Overflow)
        } else {
            let out = swap_output(amount_in, reserve_in, reserve_out);
            if out == 0 {
                Err(PoolError::InsufficientOutput)
            } else if out >= reserve_out {
                Err(PoolError::DrainsReserve)
            } else if reserve_in + amount_in > amount_max() {
                Err(PoolError::Overflow)
            } else if input.resource == self.resource_a {
                Ok(
                    (
                        self.with_amounts(
                            reserve_in + amount_in,
                            reserve_out - out,
                            self.lp_total_supply as int,
                        ),
                        out as u128,
                    ),
                )
            } else {
                Ok(
                    (
                        self.with_amounts(
                            reserve_out - out,
                            reserve_in + amount_in,
                            self.lp_total_supply as int,
                        ),
                        out as u128,
                    ),
                )
            }
        }
    }

    /// The outcome of `quote_swap(in_resource, amount_in)`: zero on a pool
    /// with an empty side, else `swap_output`.
    pub open spec fn quote_swap_result(self, in_resource: ResourceId, amount_in: u128) -> Result<
        u128,
        PoolError,
    > {
        let (reserve_in, reserve_out) = self.reserves_for(in_resource);
        if !self.holds(in_resource) {
            Err(PoolError::UnknownResource)
        } else if reserve_in == 0 || reserve_out == 0 {
            Ok(0)
        } else if !swap_output_computable(amount_in as int, reserve_in, reserve_out) {
            Err(PoolError::Overflow)
        } else {
            Ok(swap_output(amount_in as int, reserve_in, reserve_out) as u128)
        }
    }
}

/// There is one integer square root.
pub proof fn lemma_isqrt_unique(n: int, r: int)
    requires
        is_isqrt(n, r),
    ensures
        isqrt(n) == r,
{
    let c = isqrt(n);
    assert(is_isqrt(n, c));
    if c < r {
        assert((c + 1) * (c + 1) <= r * r) by (nonlinear_arith)
            requires
                0 <= c < r,
        ;
    } else if r < c {
        assert((r + 1) * (r + 1) <= c * c) by (nonlinear_arith)
            requires
                0 <= r < c,
        ;
    }
}

/// `a * b / denom` with the pool's errors: the product is checked first,
/// then the divisor.
fn share(a: u128, b: u128, denom: u128) -> (res: Result<u128, PoolError>)
    ensures
        match share_result(a as int, b as int, denom as int) {
            Ok(v) => res == Ok::<u128, PoolError>(v as u128),
            Err(e) => res == Err::<u128, PoolError>(e),
        },
{
    match mul_div(a, b, denom) {
        Some(v) => Ok(v),
        None => {
            if denom == 0 && a.checked_mul(b).is_some() {
                Err(PoolError::DivisionByZero)
            } else {
                Err(PoolError::Overflow)
            }
        },
    }
}

impl Pool {
    /// Creates an empty pool for the pair `(resource_a, resource_b)` whose LP
    /// token is `lp_resource`. The first `add_liquidity` bootstraps it.
    pub fn new(resource_a: ResourceId, resource_b: ResourceId, lp_resource: ResourceId) -> (res:
        Result<Pool, PoolError>)
        ensures
            res is Err <==> resource_a == resource_b,
            res matches Err(e) ==> e == PoolError::SameResource,
            res matches Ok(p) ==> {
                &&& p.resource_a == resource_a
                &&& p.resource_b == resource_b
                &&& p.lp_resource == lp_resource
                &&& p.reserve_a == 0
                &&& p.reserve_b == 0
                &&& p.lp_total_supply == 0
                &&& p.wf()
            },
    {
        if resource_a.same_as(&resource_b) {
            return Err(PoolError::SameResource);
        }
        Ok(
            Pool {
                resource_a,
                resource_b,
                lp_resource,
                reserve_a: 0,
                reserve_b: 0,
                lp_total_supply: 0,
            },
        )
    }

    /// `[reserve_a, reserve_b]`, in the order given to `new`.
    pub fn get_reserves(&self) -> (res: Vec<u128>)
        ensures
            res@ == seq![self.reserve_a, self.reserve_b],
    {
        vec![self.reserve_a, self.reserve_b]
    }

    /// The pool's LP token.
    pub fn get_lp_resource(&self) -> (res: ResourceId)
        ensures
            res == self.lp_resource,
    {
        self.lp_resource
    }

    /// The LP tokens outstanding.
    pub fn get_total_lp_supply(&self) -> (res: u128)
        ensures
            res == self.lp_total_supply,
    {
        self.lp_total_supply
    }

    /// The pool's first resource.
    pub fn get_resource_a(&self) -> (res: ResourceId)
        ensures
            res == self.resource_a,
    {
        self.resource_a
    }

    /// The pool's second resource.
    pub fn get_resource_b(&self) -> (res: ResourceId)
        ensures
            res == self.resource_b,
    {
        self.resource_b
    }

    /// Adds liquidity. The two buckets may come in either order: they are
    /// matched to the pool's resources by address.
    ///
    /// First deposit (bootstrap): mints `isqrt(amount_a * amount_b)` LP tokens
    /// and burns `MINIMUM_LIQUIDITY` of them for good. Later deposits mint
    /// `min(in_a * supply / reserve_a, in_b * supply / reserve_b)`; an excess
    /// on one side is kept by the pool, not refunded.
    pub fn add_liquidity(&mut self, bucket_x: Funds, bucket_y: Funds) -> (res: Result<
        LiquidityMint,
        PoolError,
    >)
        ensures
            match old(self).add_liquidity_result(bucket_x, bucket_y) {
                Ok((next, minted)) => res == Ok::<LiquidityMint, PoolError>(minted) && *final(self)
                    == next,
                Err(e) => res == Err::<LiquidityMint, PoolError>(e) && *final(self) == *old(self),
            },
            old(self).wf() ==> final(self).wf(),
            // Existing holders are not diluted: each side pays at least its share.
            res is Ok && old(self).lp_total_supply > 0 ==> {
                &&& res->Ok_0.lp_minted * old(self).reserve_a <= (final(self).reserve_a
                    - old(self).reserve_a) * old(self).lp_total_supply
                &&& res->Ok_0.lp_minted * old(self).reserve_b <= (final(self).reserve_b
                    - old(self).reserve_b) * old(self).lp_total_supply
            },
    {
        let x_is_a = bucket_x.resource.same_as(&self.resource_a) && bucket_y.resource.same_as(
            &self.resource_b,
        );
        let x_is_b = bucket_x.resource.same_as(&self.resource_b) && bucket_y.resource.same_as(
            &self.resource_a,
        );
        if !x_is_a && !x_is_b {
            return Err(PoolError::BucketsMismatch);
        }
        let (amount_a, amount_b) = if x_is_a {
            (bucket_x.amount, bucket_y.amount)
        } else {
            (bucket_y.amount, bucket_x.amount)
        };
        if amount_a == 0 {
            return Err(PoolError::ZeroDepositA);
        }
        if amount_b == 0 {
            return Err(PoolError::ZeroDepositB);
        }
        let bootstrap = self.lp_total_supply == 0;
        let lp_minted = if bootstrap {
            let prod = match amount_a.checked_mul(amount_b) {
                Some(p) => p,
                None => return Err(PoolError::Overflow),
            };
            if prod == u128::MAX {
                return Err(PoolError::Overflow);
            }
            let initial = isqrt_u128(prod);
            proof {
                lemma_isqrt_unique(prod as int, initial as int);
            }
            if initial <= MINIMUM_LIQUIDITY {
                return Err(PoolError::InsufficientInitialLiquidity);
            }
            initial
        } else {
            let from_a = match share(amount_a, self.lp_total_supply, self.reserve_a) {
                Ok(v) => v,
                Err(e) => return Err(e),
            };
            let from_b = match share(amount_b, self.lp_total_supply, self.reserve_b) {
                Ok(v) => v,
                Err(e) => return Err(e),
            };
            let m = if from_a < from_b {
                from_a
            } else {
                from_b
            };
            if m == 0 {
                return Err(PoolError::InsufficientLiquidityMinted);
            }
            proof {
                if self.reserve_a > 0 && self.reserve_b > 0 {
                    lemma_share_bounds_scaled(
                        amount_a as int,
                        self.lp_total_supply as int,
                        self.reserve_a as int,
                    );
                    lemma_share_bounds_scaled(
                        amount_b as int,
                        self.lp_total_supply as int,
                        self.reserve_b as int,
                    );
                    lemma_le_scale(m as int, from_a as int, self.reserve_a as int);
                    lemma_le_scale(m as int, from_b as int, self.reserve_b as int);
                }
            }
            m
        };
        let new_reserve_a = match self.reserve_a.checked_add(amount_a) {
            Some(v) => v,
            None => return Err(PoolError::Overflow),
        };
        let new_reserve_b = match self.reserve_b.checked_add(amount_b) {
            Some(v) => v,
            None => return Err(PoolError::Overflow),
        };
        let new_supply = match self.lp_total_supply.checked_add(lp_minted) {
            Some(v) => v,
            None => return Err(PoolError::Overflow),
        };
        let lp_locked = if bootstrap {
            MINIMUM_LIQUIDITY
        } else {
            0
        };
        self.reserve_a = new_reserve_a;
        self.reserve_b = new_reserve_b;
        self.lp_total_supply = new_supply - lp_locked;
        Ok(
            LiquidityMint {
                x_is_a,
                lp_minted,
                lp_locked,
                lp_to_provider: lp_minted - lp_locked,
            },
        )
    }
}

/// `(a * b / d) * d <= a * b` for a share of a positive divisor.
proof fn lemma_share_bounds_scaled(a: int, b: int, d: int)
    requires
        0 <= a,
        0 <= b,
        0 < d,
    ensures
        ((a * b) / d) * d <= a * b,
{
    vstd::arithmetic::div_mod::lemma_fundamental_div_mod(a * b, d);
    vstd::arithmetic::div_mod::lemma_mod_bound(a * b, d);
    assert(((a * b) / d) * d <= a * b) by (nonlinear_arith)
        requires
            a * b == d * ((a * b) / d) + (a * b) % d,
            0 <= (a * b) % d,
    ;
}

/// Multiplying both sides of `x <= y` by `c >= 0` keeps the order.
proof fn lemma_le_scale(x: int, y: int, c: int)
    requires
        x <= y,
        0 <= c,
    ensures
        x * c <= y * c,
{
    assert(x * c <= y * c) by (nonlinear_arith)
        requires
            x <= y,
            0 <= c,
    ;
}

impl Pool {
    /// Burns LP tokens and pays out the proportional shares of both reserves,
    /// `(amount_a, amount_b)` in the pool's resource order.
    pub fn remove_liquidity(&mut self, lp_in: Funds) -> (res: Result<(u128, u128), PoolError>)
        ensures
            match old(self).remove_liquidity_result(lp_in) {
                Ok((next, outs)) => res == Ok::<(u128, u128), PoolError>(outs) && *final(self)
                    == next,
                Err(e) => res == Err::<(u128, u128), PoolError>(e) && *final(self) == *old(self),
            },
            old(self).wf() ==> final(self).wf(),
            // No one takes more than the share of the tokens burned.
            res matches Ok((out_a, out_b)) ==> {
                &&& out_a * old(self).lp_total_supply <= lp_in.amount * old(self).reserve_a
                &&& out_b * old(self).lp_total_supply <= lp_in.amount * old(self).reserve_b
            },
    {
        if !lp_in.resource.same_as(&self.lp_resource) {
            return Err(PoolError::NotLpToken);
        }
        let lp_amount = lp_in.amount;
        if lp_amount == 0 {
            return Err(PoolError::ZeroBurn);
        }
        if lp_amount > self.lp_total_supply {
            return Err(PoolError::BurnExceedsSupply);
        }
        let total_lp = self.lp_total_supply;
        let amount_a_out = match share(lp_amount, self.reserve_a, total_lp) {
            Ok(v) => v,
            Err(e) => return Err(e),
        };
        let amount_b_out = match share(lp_amount, self.reserve_b, total_lp) {
            Ok(v) => v,
            Err(e) => return Err(e),
        };
        if amount_a_out == 0 || amount_b_out == 0 {
            return Err(PoolError::WithdrawsNothing);
        }
        proof {
            lemma_share_bounds(lp_amount as int, self.reserve_a as int, total_lp as int);
            lemma_share_bounds(lp_amount as int, self.reserve_b as int, total_lp as int);
            if lp_amount == total_lp {
                lemma_mul_is_commutative(total_lp as int, self.reserve_a as int);
                lemma_mul_is_commutative(total_lp as int, self.reserve_b as int);
                lemma_div_multiples_vanish(self.reserve_a as int, total_lp as int);
                lemma_div_multiples_vanish(self.reserve_b as int, total_lp as int);
            }
        }
        self.lp_total_supply = total_lp - lp_amount;
        self.reserve_a = self.reserve_a - amount_a_out;
        self.reserve_b = self.reserve_b - amount_b_out;
        Ok((amount_a_out, amount_b_out))
    }

    /// Swaps `input` for the other side of the pool; the direction follows
    /// the input's resource. Returns the amount paid out:
    /// `amount_in * 997 * reserve_out / (reserve_in * 1000 + amount_in * 997)`.
    pub fn swap(&mut self, input: Funds) -> (res: Result<u128, PoolError>)
        ensures
            match old(self).swap_result(input) {
                Ok((next, out)) => res == Ok::<u128, PoolError>(out) && *final(self) == next,
                Err(e) => res == Err::<u128, PoolError>(e) && *final(self) == *old(self),
            },
            old(self).wf() ==> final(self).wf(),
            // The product of the reserves never shrinks: the fee stays in the pool.
            res is Ok ==> final(self).reserve_a * final(self).reserve_b >= old(self).reserve_a
                * old(self).reserve_b,
    {
        let amount_in = input.amount;
        if amount_in == 0 {
            return Err(PoolError::ZeroInput);
        }
        let a_to_b = input.resource.same_as(&self.resource_a);
        let b_to_a = input.resource.same_as(&self.resource_b);
        if !a_to_b && !b_to_a {
            return Err(PoolError::UnknownResource);
        }
        let (reserve_in, reserve_out) = if a_to_b {
            (self.reserve_a, self.reserve_b)
        } else {
            (self.reserve_b, self.reserve_a)
        };
        if reserve_in == 0 || reserve_out == 0 {
            return Err(PoolError::NotBootstrapped);
        }
        let amount_out = match compute_swap_output(amount_in, reserve_in, reserve_out) {
            Some(v) => v,
            None => return Err(PoolError::Overflow),
        };
        if amount_out == 0 {
            return Err(PoolError::InsufficientOutput);
        }
        if amount_out >= reserve_out {
            return Err(PoolError::DrainsReserve);
        }
        let new_reserve_in = match reserve_in.checked_add(amount_in) {
            Some(v) => v,
            None => return Err(PoolError::Overflow),
        };
        proof {
            lemma_swap_keeps_product(amount_in as int, reserve_in as int, reserve_out as int);
            lemma_mul_is_commutative(new_reserve_in as int, (reserve_out - amount_out) as int);
            lemma_mul_is_commutative(reserve_in as int, reserve_out as int);
        }
        if a_to_b {
            self.reserve_a = new_reserve_in;
            self.reserve_b = reserve_out - amount_out;
        } else {
            self.reserve_b = new_reserve_in;
            self.reserve_a = reserve_out - amount_out;
        }
        Ok(amount_out)
    }

    /// Read-only swap quote: what `swap` would pay out for `amount_in` of
    /// `in_resource`; zero while the pool has an empty side.
    pub fn quote_swap(&self, in_resource: ResourceId, amount_in: u128) -> (res: Result<
        u128,
        PoolError,
    >)
        ensures
            res == self.quote_swap_result(in_resource, amount_in),
    {
        let (reserve_in, reserve_out) = if in_resource.same_as(&self.resource_a) {
            (self.reserve_a, self.reserve_b)
        } else if in_resource.same_as(&self.resource_b) {
            (self.reserve_b, self.reserve_a)
        } else {
            return Err(PoolError::UnknownResource);
        };
        if reserve_in == 0 || reserve_out == 0 {
            return Ok(0);
        }
        match compute_swap_output(amount_in, reserve_in, reserve_out) {
            Some(v) => Ok(v),
            None => Err(PoolError::Overflow),
        }
    }
}

/// A quote is what the swap pays: whenever `swap(input)` succeeds,
/// `quote_swap` on the same pool and input returns the same amount.
pub proof fn lemma_quote_matches_swap(p: Pool, input: Funds)
    requires
        p.swap_result(input) is Ok,
    ensures
        p.quote_swap_result(input.resource, input.amount) == Ok::<u128, PoolError>(
            p.swap_result(input)->Ok_0.1,
        ),
{
}

/// A swap moves exactly the input into its side's reserve and strictly less
/// than the other reserve out of it.
pub proof fn lemma_swap_moves_reserves(p: Pool, input: Funds)
    requires
        p.swap_result(input) is Ok,
    ensures
        ({
            let (next, out) = p.swap_result(input)->Ok_0;
            let (reserve_in, reserve_out) = p.reserves_for(input.resource);
            let (next_in, next_out) = next.reserves_for(input.resource);
            &&& next_in == reserve_in + input.amount
            &&& next_out == reserve_out - out
            &&& 0 < out < reserve_out
            &&& next.lp_total_supply == p.lp_total_supply
        }),
{
}

/// `x <= q * d` with `d > 0` gives `x / d <= q`.
proof fn lemma_div_le_from_mul(x: int, q: int, d: int)
    requires
        0 <= x <= q * d,
        0 < d,
    ensures
        x / d <= q,
{
    vstd::arithmetic::div_mod::lemma_div_is_ordered(x, q * d, d);
    lemma_mul_is_commutative(q, d);
    lemma_div_multiples_vanish(q, d);
}

/// A round trip does not pay: burning right away the LP tokens that a deposit
/// handed out returns, on each side, at most what was deposited.
pub proof fn lemma_add_then_remove_no_profit(p: Pool, x: Funds, y: Funds)
    requires
        p.wf(),
        p.add_liquidity_result(x, y) is Ok,
    ensures
        ({
            let (q, minted) = p.add_liquidity_result(x, y)->Ok_0;
            let burn = Funds { resource: p.lp_resource, amount: minted.lp_to_provider };
            q.remove_liquidity_result(burn) matches Ok((_, (out_a, out_b))) ==> {
                &&& out_a <= q.reserve_a - p.reserve_a
                &&& out_b <= q.reserve_b - p.reserve_b
            }
        }),
{
    let (q, minted) = p.add_liquidity_result(x, y)->Ok_0;
    let t = p.lp_total_supply as int;
    let m = minted.lp_to_provider as int;
    let a = q.reserve_a - p.reserve_a;
    let b = q.reserve_b - p.reserve_b;
    let burn = Funds { resource: p.lp_resource, amount: minted.lp_to_provider };
    if q.remove_liquidity_result(burn) is Ok {
        if t == 0 {
            // Bootstrap: the provider holds the whole supply and the reserves
            // are the deposits.
            assert(q.lp_total_supply == m);
            lemma_mul_is_commutative(m, a);
            lemma_mul_is_commutative(m, b);
            lemma_div_multiples_vanish(a, m);
            lemma_div_multiples_vanish(b, m);
        } else {
            let ra = p.reserve_a as int;
            let rb = p.reserve_b as int;
            assert(ra > 0 && rb > 0);
            let from_a = (a * t) / ra;
            let from_b = (b * t) / rb;
            assert(m <= from_a && m <= from_b);
            lemma_share_bounds_scaled(a, t, ra);
            lemma_share_bounds_scaled(b, t, rb);
            lemma_le_scale(m, from_a, ra);
            lemma_le_scale(m, from_b, rb);
            assert(m * (ra + a) <= a * (t + m)) by (nonlinear_arith)
                requires
                    m * ra <= a * t,
                    0 <= m,
                    0 <= a,
            ;
            assert(m * (rb + b) <= b * (t + m)) by (nonlinear_arith)
                requires
                    m * rb <= b * t,
                    0 <= m,
                    0 <= b,
            ;
            assert(0 <= m * (ra + a)) by (nonlinear_arith)
                requires
                    0 <= m,
                    0 <= ra + a,
            ;
            assert(0 <= m * (rb + b)) by (nonlinear_arith)
                requires
                    0 <= m,
                    0 <= rb + b,
            ;
            lemma_div_le_from_mul(m * (ra + a), a, t + m);
            lemma_div_le_from_mul(m * (rb + b), b, t + m);
        }
    }
}

/// The drain guard of `swap` never fires: on a pool with both sides non-empty
/// the constant-product output is always below the output reserve.
pub proof fn lemma_swap_never_drains(p: Pool, input: Funds)
    ensures
        p.swap_result(input) != Err::<(Pool, u128), PoolError>(PoolError::DrainsReserve),
{
    let (reserve_in, reserve_out) = p.reserves_for(input.resource);
    if input.amount > 0 && reserve_in > 0 && reserve_out > 0 {
        lemma_swap_keeps_product(input.amount as int, reserve_in, reserve_out);
    }
}

/// A later deposit (LP supply already outstanding) mints exactly
/// `min(a * supply / reserve_a, b * supply / reserve_b)` LP tokens, whenever
/// that is positive and nothing leaves the range of an amount; the deposits
/// join the reserves and nothing is locked.
pub proof fn lemma_add_liquidity_mints_proportionally(p: Pool, x: Funds, y: Funds)
    requires
        p.resource_a != p.resource_b,
        x.resource == p.resource_a,
        y.resource == p.resource_b,
        p.lp_total_supply > 0,
        p.reserve_a > 0,
        p.reserve_b > 0,
        x.amount > 0,
        y.amount > 0,
        x.amount * p.lp_total_supply <= amount_max(),
        y.amount * p.lp_total_supply <= amount_max(),
        vstd::math::min(
            (x.amount * p.lp_total_supply) / p.reserve_a as int,
            (y.amount * p.lp_total_supply) / p.reserve_b as int,
        ) > 0,
        p.reserve_a + x.amount <= amount_max(),
        p.reserve_b + y.amount <= amount_max(),
        p.lp_total_supply + vstd::math::min(
            (x.amount * p.lp_total_supply) / p.reserve_a as int,
            (y.amount * p.lp_total_supply) / p.reserve_b as int,
        ) <= amount_max(),
    ensures
        ({
            let m = vstd::math::min(
                (x.amount * p.lp_total_supply) / p.reserve_a as int,
                (y.amount * p.lp_total_supply) / p.reserve_b as int,
            );
            &&& p.add_liquidity_result(x, y) is Ok
            &&& p.add_liquidity_result(x, y)->Ok_0.1 == LiquidityMint {
                x_is_a: true,
                lp_minted: m as u128,
                lp_locked: 0,
                lp_to_provider: m as u128,
            }
            &&& p.add_liquidity_result(x, y)->Ok_0.0.reserve_a == p.reserve_a + x.amount
            &&& p.add_liquidity_result(x, y)->Ok_0.0.reserve_b == p.reserve_b + y.amount
            &&& p.add_liquidity_result(x, y)->Ok_0.0.lp_total_supply == p.lp_total_supply + m
            &&& p.add_liquidity_result(x, y)->Ok_0.0.resource_a == p.resource_a
            &&& p.add_liquidity_result(x, y)->Ok_0.0.resource_b == p.resource_b
            &&& p.add_liquidity_result(x, y)->Ok_0.0.lp_resource == p.lp_resource
        }),
{
}

/// The first deposit mints the integer square root of the product of the
/// deposits, whenever that exceeds `MINIMUM_LIQUIDITY` and the product stays
/// below the largest amount; `MINIMUM_LIQUIDITY` of it is locked and the
/// remaining supply is what the provider receives.
pub proof fn lemma_add_liquidity_bootstraps_with_root(p: Pool, x: Funds, y: Funds, r: int)
    requires
        p.resource_a != p.resource_b,
        x.resource == p.resource_a,
        y.resource == p.resource_b,
        p.lp_total_supply == 0,
        p.reserve_a == 0,
        p.reserve_b == 0,
        x.amount > 0,
        y.amount > 0,
        x.amount * y.amount < amount_max(),
        is_isqrt(x.amount * y.amount, r),
        r > MINIMUM_LIQUIDITY,
    ensures
        p.add_liquidity_result(x, y) is Ok,
        p.add_liquidity_result(x, y)->Ok_0.1 == (LiquidityMint {
            x_is_a: true,
            lp_minted: r as u128,
            lp_locked: MINIMUM_LIQUIDITY,
            lp_to_provider: (r - MINIMUM_LIQUIDITY) as u128,
        }),
        p.add_liquidity_result(x, y)->Ok_0.0.reserve_a == x.amount,
        p.add_liquidity_result(x, y)->Ok_0.0.reserve_b == y.amount,
        p.add_liquidity_result(x, y)->Ok_0.0.lp_total_supply == r - MINIMUM_LIQUIDITY,
{
    lemma_isqrt_unique(x.amount * y.amount, r);
    assert(r <= x.amount * y.amount) by (nonlinear_arith)
        requires
            0 <= r,
            r * r <= x.amount * y.amount,
            r > 1000,
    ;
}

/// The order of the two buckets does not matter: giving them the other way
/// round has the same outcome, with `x_is_a` flipped.
pub proof fn lemma_add_liquidity_order_agnostic(p: Pool, x: Funds, y: Funds)
    requires
        p.resource_a != p.resource_b,
    ensures
        match (p.add_liquidity_result(x, y), p.add_liquidity_result(y, x)) {
            (Ok((q1, m1)), Ok((q2, m2))) => q1 == q2 && m1.x_is_a != m2.x_is_a && m1.lp_minted
                == m2.lp_minted && m1.lp_locked == m2.lp_locked && m1.lp_to_provider
                == m2.lp_to_provider,
            (Err(e1), Err(e2)) => e1 == e2,
            _ => false,
        },
{
}

/// Burning `lp` of `supply` LP tokens pays exactly `lp * reserve / supply`
/// (rounded down) of each side, whenever both products fit in an amount and
/// both shares are positive; the reserves and the supply shrink by exactly
/// what is paid and burned.
pub proof fn lemma_remove_liquidity_pays_shares(p: Pool, lp_in: Funds)
    requires
        lp_in.resource == p.lp_resource,
        0 < lp_in.amount <= p.lp_total_supply,
        lp_in.amount * p.reserve_a <= amount_max(),
        lp_in.amount * p.reserve_b <= amount_max(),
        (lp_in.amount * p.reserve_a) / p.lp_total_supply as int > 0,
        (lp_in.amount * p.reserve_b) / p.lp_total_supply as int > 0,
    ensures
        ({
            let out_a = (lp_in.amount * p.reserve_a) / p.lp_total_supply as int;
            let out_b = (lp_in.amount * p.reserve_b) / p.lp_total_supply as int;
            &&& p.remove_liquidity_result(lp_in) is Ok
            &&& p.remove_liquidity_result(lp_in)->Ok_0.1 == (out_a as u128, out_b as u128)
            &&& p.remove_liquidity_result(lp_in)->Ok_0.0.reserve_a == p.reserve_a - out_a
            &&& p.remove_liquidity_result(lp_in)->Ok_0.0.reserve_b == p.reserve_b - out_b
            &&& p.remove_liquidity_result(lp_in)->Ok_0.0.lp_total_supply == p.lp_total_supply
                - lp_in.amount
            &&& p.remove_liquidity_result(lp_in)->Ok_0.0.resource_a == p.resource_a
            &&& p.remove_liquidity_result(lp_in)->Ok_0.0.resource_b == p.resource_b
            &&& p.remove_liquidity_result(lp_in)->Ok_0.0.lp_resource == p.lp_resource
        }),
{
    lemma_share_bounds(lp_in.amount as int, p.reserve_a as int, p.lp_total_supply as int);
    lemma_share_bounds(lp_in.amount as int, p.reserve_b as int, p.lp_total_supply as int);
}

/// A withdrawal is refused for overflow only when a product `lp * reserve`
/// leaves the range of an amount, and never for division by zero.
pub proof fn lemma_remove_liquidity_overflow_only_when_product_overflows(p: Pool, lp_in: Funds)
    ensures
        p.remove_liquidity_result(lp_in) == Err::<(Pool, (u128, u128)), PoolError>(
            PoolError::Overflow,
        ) ==> lp_in.amount * p.reserve_a > amount_max() || lp_in.amount * p.reserve_b
            > amount_max(),
        p.remove_liquidity_result(lp_in) != Err::<(Pool, (u128, u128)), PoolError>(
            PoolError::DivisionByZero,
        ),
{
}

/// A swap of `a` of resource A pays exactly
/// `a * 997 * reserve_b / (reserve_a * 1000 + a * 997)` of B whenever that is
/// positive and every intermediate fits in an amount; A's reserve grows by
/// `a`, B's shrinks by the payout. The quote for the same input is the same.
pub proof fn lemma_swap_pays_fee_formula(p: Pool, input: Funds)
    requires
        input.resource == p.resource_a,
        input.amount > 0,
        p.reserve_a > 0,
        p.reserve_b > 0,
        input.amount * 997 * p.reserve_b <= amount_max(),
        p.reserve_a * 1000 + input.amount * 997 <= amount_max(),
        (input.amount * 997 * p.reserve_b) / (p.reserve_a * 1000 + input.amount * 997) > 0,
        p.reserve_a + input.amount <= amount_max(),
    ensures
        ({
            let out = (input.amount * 997 * p.reserve_b) / (p.reserve_a * 1000 + input.amount
                * 997);
            &&& p.swap_result(input) is Ok
            &&& p.swap_result(input)->Ok_0.1 == out
            &&& p.swap_result(input)->Ok_0.0.reserve_a == p.reserve_a + input.amount
            &&& p.swap_result(input)->Ok_0.0.reserve_b == p.reserve_b - out
            &&& p.swap_result(input)->Ok_0.0.lp_total_supply == p.lp_total_supply
            &&& p.quote_swap_result(input.resource, input.amount) == Ok::<u128, PoolError>(
                out as u128,
            )
        }),
{
    lemma_swap_keeps_product(input.amount as int, p.reserve_a as int, p.reserve_b as int);
    assert(input.amount * 997 <= input.amount * 997 * p.reserve_b) by (nonlinear_arith)
        requires
            input.amount > 0,
            p.reserve_b > 0,
    ;
}

/// The same for the other direction: a swap of `b` of resource B pays exactly
/// `b * 997 * reserve_a / (reserve_b * 1000 + b * 997)` of A.
pub proof fn lemma_swap_pays_fee_formula_b_to_a(p: Pool, input: Funds)
    requires
        p.resource_a != p.resource_b,
        input.resource == p.resource_b,
        input.amount > 0,
        p.reserve_a > 0,
        p.reserve_b > 0,
        input.amount * 997 * p.reserve_a <= amount_max(),
        p.reserve_b * 1000 + input.amount * 997 <= amount_max(),
        (input.amount * 997 * p.reserve_a) / (p.reserve_b * 1000 + input.amount * 997) > 0,
        p.reserve_b + input.amount <= amount_max(),
    ensures
        ({
            let out = (input.amount * 997 * p.reserve_a) / (p.reserve_b * 1000 + input.amount
                * 997);
            &&& p.swap_result(input) is Ok
            &&& p.swap_result(input)->Ok_0.1 == out
            &&& p.swap_result(input)->Ok_0.0.reserve_b == p.reserve_b + input.amount
            &&& p.swap_result(input)->Ok_0.0.reserve_a == p.reserve_a - out
            &&& p.swap_result(input)->Ok_0.0.lp_total_supply == p.lp_total_supply
            &&& p.quote_swap_result(input.resource, input.amount) == Ok::<u128, PoolError>(
                out as u128,
            )
        }),
{
    lemma_swap_keeps_product(input.amount as int, p.reserve_b as int, p.reserve_a as int);
    assert(input.amount * 997 <= input.amount * 997 * p.reserve_a) by (nonlinear_arith)
        requires
            input.amount > 0,
            p.reserve_a > 0,
    ;
}

} // verus!
