use vstd::prelude::*;
use crate::error::ContractError;
use crate::math::{MAX_AMOUNT, isqrt, isqrt_of, lemma_div_bound, lemma_mul_bound, lemma_pro_rata};
use crate::shares::ShareLedger;

verus! {

/// Basis points in one whole.
pub const BPS: i128 = 10_000;

/// The mathematical state of a pool.
pub struct PoolState {
    pub asset_a: u64,
    pub asset_b: u64,
    pub share_token: u64,
    pub reserve_a: int,
    pub reserve_b: int,
    pub swap_fee_bps: int,
    pub max_allowed_slippage_bps: int,
    pub max_allowed_spread_bps: int,
    pub shares: ShareLedger,
}

impl PoolState {
    pub open spec fn total_shares(self) -> int {
        self.shares.total()
    }

    /// The pool is either fully empty or fully funded, and every quantity is in range.
    pub open spec fn wf(self) -> bool {
        &&& self.asset_a < self.asset_b
        &&& 0 <= self.swap_fee_bps <= BPS
        &&& 0 <= self.max_allowed_slippage_bps <= u16::MAX
        &&& 0 <= self.max_allowed_spread_bps <= u16::MAX
        &&& self.shares.wf()
        &&& 0 <= self.reserve_a <= MAX_AMOUNT
        &&& 0 <= self.reserve_b <= MAX_AMOUNT
        &&& (self.reserve_a == 0 <==> self.reserve_b == 0)
        &&& (self.reserve_b == 0 <==> self.total_shares() == 0)
    }

    pub open spec fn with_reserves(self, ra: int, rb: int) -> PoolState {
        PoolState { reserve_a: ra, reserve_b: rb, ..self }
    }

    /// Same assets, share token and bounds; reserves and shares may differ.
    pub open spec fn same_config(self, o: PoolState) -> bool {
        &&& self.asset_a == o.asset_a
        &&& self.asset_b == o.asset_b
        &&& self.share_token == o.share_token
        &&& self.swap_fee_bps == o.swap_fee_bps
        &&& self.max_allowed_slippage_bps == o.max_allowed_slippage_bps
        &&& self.max_allowed_spread_bps == o.max_allowed_spread_bps
    }

    /// `self` serves the unordered pair `{x, y}`.
    pub open spec fn serves(self, x: u64, y: u64) -> bool {
        (self.asset_a == x && self.asset_b == y) || (self.asset_a == y && self.asset_b == x)
    }
}

pub open spec fn abs(x: int) -> int {
    if x < 0 {
        -x
    } else {
        x
    }
}

/// The input amount that is left once the fee is taken.
pub open spec fn after_fee(amount: int, fee_bps: int) -> int {
    amount * (BPS - fee_bps) / (BPS as int)
}

/// Constant-product return for `x` offered against reserves `r_in`, `r_out`.
pub open spec fn swap_return(r_in: int, r_out: int, x: int) -> int {
    r_out - (r_in * r_out) / (r_in + x)
}

/// The price `got / given` deviates from the reference price `r_got / r_given`
/// by more than `bps` basis points.
pub open spec fn deviation_exceeds(given: int, got: int, r_given: int, r_got: int, bps: int) -> bool {
    abs(given * r_got - got * r_given) * BPS > bps * (given * r_got)
}

/// The offer-side and ask-side reserves for a trade offering `offer`.
pub open spec fn sides(p: PoolState, offer: u64) -> (int, int) {
    if offer == p.asset_a {
        (p.reserve_a, p.reserve_b)
    } else {
        (p.reserve_b, p.reserve_a)
    }
}

/// What a swap of `amount` of `offer` returns, or why it fails.
pub open spec fn swap_outcome(p: PoolState, offer: u64, amount: int) -> Result<int, ContractError> {
    if amount <= 0 || amount > MAX_AMOUNT {
        Err(ContractError::InvalidAmount)
    } else if offer != p.asset_a && offer != p.asset_b {
        Err(ContractError::AssetMismatch)
    } else if p.total_shares() == 0 {
        Err(ContractError::EmptyPool)
    } else {
        let (r_in, r_out) = sides(p, offer);
        let out = swap_return(r_in, r_out, after_fee(amount, p.swap_fee_bps));
        if out <= 0 || out >= r_out || r_in + amount > MAX_AMOUNT {
            Err(ContractError::InvalidAmount)
        } else if deviation_exceeds(amount, out, r_in, r_out, p.max_allowed_spread_bps) {
            Err(ContractError::SpreadExceeded)
        } else {
            Ok(out)
        }
    }
}

/// The pool after `amount` of `offer` came in and `out` of the other asset left.
pub open spec fn after_swap(p: PoolState, offer: u64, amount: int, out: int) -> PoolState {
    if offer == p.asset_a {
        p.with_reserves(p.reserve_a + amount, p.reserve_b - out)
    } else {
        p.with_reserves(p.reserve_a - out, p.reserve_b + amount)
    }
}

/// An executable result seen as a mathematical one.
pub open spec fn lift1(r: Result<i128, ContractError>) -> Result<int, ContractError> {
    match r {
        Ok(v) => Ok(v as int),
        Err(e) => Err(e),
    }
}

/// A desired amount, if given, is positive and in range.
pub open spec fn valid_desired(o: Option<i128>) -> bool {
    match o {
        Some(v) => 0 < v <= MAX_AMOUNT,
        None => true,
    }
}

/// A missing minimum is no bound.
pub open spec fn min_or_zero(o: Option<i128>) -> int {
    match o {
        Some(v) => v as int,
        None => 0,
    }
}

/// The deposit into a funded pool that keeps its price: the given side as
/// asked and the other side matched to the reserves; with both given, the
/// larger pair that fits within both.
pub open spec fn matched_amounts(p: PoolState, da: Option<i128>, db: Option<i128>) -> (int, int) {
    match (da, db) {
        (Some(a), Some(b)) => {
            let b_opt = a * p.reserve_b / p.reserve_a;
            if b_opt <= b {
                (a as int, b_opt)
            } else {
                (b * p.reserve_a / p.reserve_b, b as int)
            }
        },
        (Some(a), None) => (a as int, a * p.reserve_b / p.reserve_a),
        (None, Some(b)) => (b * p.reserve_a / p.reserve_b, b as int),
        (None, None) => (0, 0),
    }
}

/// The deposit: both sides as given into an empty pool, matched otherwise.
pub open spec fn deposit_amounts(p: PoolState, da: Option<i128>, db: Option<i128>) -> (int, int) {
    if p.total_shares() == 0 {
        (da.unwrap() as int, db.unwrap() as int)
    } else {
        matched_amounts(p, da, db)
    }
}

pub open spec fn min(x: int, y: int) -> int {
    if x <= y {
        x
    } else {
        y
    }
}

/// Shares issued for a deposit of `(a, b)`: the geometric mean into an empty
/// pool, else the smaller of the two proportional claims.
pub open spec fn minted_shares(p: PoolState, a: int, b: int) -> int {
    if p.total_shares() == 0 {
        isqrt_of(a * b)
    } else {
        min(p.total_shares() * a / p.reserve_a, p.total_shares() * b / p.reserve_b)
    }
}

/// What `provide_liquidity` deposits and mints, or why it fails.
pub open spec fn provide_outcome(
    p: PoolState,
    desired_a: Option<i128>,
    min_a: Option<i128>,
    desired_b: Option<i128>,
    min_b: Option<i128>,
    expiration: Option<u64>,
    now: u64,
) -> Result<(int, int, int), ContractError> {
    if expiration is Some && now > expiration.unwrap() {
        Err(ContractError::Expired)
    } else if (desired_a is None && desired_b is None) || !valid_desired(desired_a)
        || !valid_desired(desired_b) {
        Err(ContractError::InvalidAmount)
    } else if p.total_shares() == 0 && (desired_a is None || desired_b is None) {
        Err(ContractError::EmptyPool)
    } else {
        let (a, b) = deposit_amounts(p, desired_a, desired_b);
        if a <= 0 || b <= 0 || p.reserve_a + a > MAX_AMOUNT || p.reserve_b + b > MAX_AMOUNT {
            Err(ContractError::InvalidAmount)
        } else {
            let s = minted_shares(p, a, b);
            if s <= 0 || p.total_shares() + s > MAX_AMOUNT {
                Err(ContractError::InvalidAmount)
            } else if a < min_or_zero(min_a) || b < min_or_zero(min_b) {
                Err(ContractError::SlippageExceeded)
            } else if p.total_shares() > 0 && deviation_exceeds(
                a,
                b,
                p.reserve_a,
                p.reserve_b,
                p.max_allowed_slippage_bps,
            ) {
                Err(ContractError::SlippageExceeded)
            } else {
                Ok((a, b, s))
            }
        }
    }
}

/// The pool after `provider` deposited `(a, b)` and received `s` shares.
pub open spec fn provided(old: PoolState, new: PoolState, provider: u64, a: int, b: int, s: int) -> bool {
    &&& new.same_config(old)
    &&& new.reserve_a == old.reserve_a + a
    &&& new.reserve_b == old.reserve_b + b
    &&& new.total_shares() == old.total_shares() + s
    &&& forall|x: u64|
        #[trigger] new.shares.balance(x) == old.shares.balance(x) + if x == provider {
            s
        } else {
            0
        }
}

/// What `withdraw_liquidity` pays out, or why it fails.
pub open spec fn withdraw_outcome(
    p: PoolState,
    provider: u64,
    share_amount: int,
    min_a: int,
    min_b: int,
) -> Result<(int, int), ContractError> {
    if share_amount <= 0 {
        Err(ContractError::InvalidAmount)
    } else if p.shares.balance(provider) < share_amount {
        Err(ContractError::InsufficientBalance)
    } else {
        let wa = p.reserve_a * share_amount / p.total_shares();
        let wb = p.reserve_b * share_amount / p.total_shares();
        if wa < min_a || wb < min_b {
            Err(ContractError::SlippageExceeded)
        } else {
            Ok((wa, wb))
        }
    }
}

/// The pool after `provider` redeemed `s` shares for `(a, b)`.
pub open spec fn withdrawn(old: PoolState, new: PoolState, provider: u64, s: int, a: int, b: int) -> bool {
    &&& new.same_config(old)
    &&& new.reserve_a == old.reserve_a - a
    &&& new.reserve_b == old.reserve_b - b
    &&& new.total_shares() == old.total_shares() - s
    &&& forall|x: u64|
        #[trigger] new.shares.balance(x) == old.shares.balance(x) - if x == provider {
            s
        } else {
            0
        }
}

/// An executable pair result seen as a mathematical one.
pub open spec fn lift2(r: Result<(i128, i128), ContractError>) -> Result<(int, int), ContractError> {
    match r {
        Ok((a, b)) => Ok((a as int, b as int)),
        Err(e) => Err(e),
    }
}

/// An executable triple result seen as a mathematical one.
pub open spec fn lift3(r: Result<(i128, i128, i128), ContractError>) -> Result<
    (int, int, int),
    ContractError,
> {
    match r {
        Ok((a, b, s)) => Ok((a as int, b as int, s as int)),
        Err(e) => Err(e),
    }
}

/// A pool's asset and the amount of it that the pool holds.
#[derive(Clone, Copy, Debug, PartialEq, Eq, Structural)]
pub struct Asset {
    pub address: u64,
    pub amount: i128,
}

/// Snapshot of a pool: its two reserves and its share supply.
#[derive(Clone, Copy, Debug, PartialEq, Eq, Structural)]
pub struct PoolResponse {
    pub asset_a: Asset,
    pub asset_b: Asset,
    pub asset_lp_share: Asset,
}

/// A constant-product pool of two assets.
pub struct Pool {
    asset_a: u64,
    asset_b: u64,
    share_token: u64,
    reserve_a: i128,
    reserve_b: i128,
    swap_fee_bps: u16,
    max_allowed_slippage_bps: u16,
    max_allowed_spread_bps: u16,
    shares: ShareLedger,
}

impl View for Pool {
    type V = PoolState;

    closed spec fn view(&self) -> PoolState {
        PoolState {
            asset_a: self.asset_a,
            asset_b: self.asset_b,
            share_token: self.share_token,
            reserve_a: self.reserve_a as int,
            reserve_b: self.reserve_b as int,
            swap_fee_bps: self.swap_fee_bps as int,
            max_allowed_slippage_bps: self.max_allowed_slippage_bps as int,
            max_allowed_spread_bps: self.max_allowed_spread_bps as int,
            shares: self.shares,
        }
    }
}

/// The outcome of a swap against reserves `(ra, rb)` with the given fee and
/// spread bound; `offer_is_a` says which reserve receives the input.
fn quote_swap(
    ra: i128,
    rb: i128,
    fee_bps: u16,
    spread_bps: u16,
    offer_is_a: bool,
    amount: i128,
) -> (r: Result<i128, ContractError>)
    requires
        0 <= ra <= MAX_AMOUNT,
        0 <= rb <= MAX_AMOUNT,
        ra > 0 && rb > 0,
        fee_bps <= BPS,
        0 < amount <= MAX_AMOUNT,
    ensures
        ({
            let (r_in, r_out) = if offer_is_a {
                (ra as int, rb as int)
            } else {
                (rb as int, ra as int)
            };
            let out = swap_return(r_in, r_out, after_fee(amount as int, fee_bps as int));
            lift1(r) == if out <= 0 || out >= r_out || r_in + amount > MAX_AMOUNT {
                Err(ContractError::InvalidAmount)
            } else if deviation_exceeds(amount as int, out, r_in, r_out, spread_bps as int) {
                Err(ContractError::SpreadExceeded)
            } else {
                Ok(out)
            }
        }),
{
    let (r_in, r_out) = if offer_is_a {
        (ra, rb)
    } else {
        (rb, ra)
    };
    proof {
        lemma_mul_bound(amount as int, BPS as int);
        lemma_mul_bound(r_in as int, r_out as int);
        assert(0 <= amount * (BPS - fee_bps) <= amount * BPS) by (nonlinear_arith)
            requires 0 < amount, 0 <= fee_bps <= BPS;
    }
    let x = amount * (BPS - fee_bps as i128) / BPS;
    proof {
        lemma_div_bound(amount * (BPS - fee_bps), BPS as int);
        assert(x <= amount) by (nonlinear_arith)
            requires
                x == amount * (BPS - fee_bps) / (BPS as int),
                0 <= amount * (BPS - fee_bps) <= amount * BPS,
                BPS == 10000;
        lemma_div_bound(r_in * r_out, r_in + x);
    }
    let k = r_in * r_out;
    let out = r_out - k / (r_in + x);
    if out <= 0 || out >= r_out || r_in > MAX_AMOUNT - amount {
        return Err(ContractError::InvalidAmount);
    }
    proof {
        lemma_mul_bound(amount as int, r_out as int);
        lemma_mul_bound(out as int, r_in as int);
        assert(spread_bps * (amount * r_out) <= 65536 * (MAX_AMOUNT * MAX_AMOUNT)) by (nonlinear_arith)
            requires 0 <= spread_bps <= 65535, 0 <= amount * r_out <= MAX_AMOUNT * MAX_AMOUNT;
    }
    let given = amount * r_out;
    let got = out * r_in;
    let dev = if given >= got {
        given - got
    } else {
        got - given
    };
    if dev * BPS > spread_bps as i128 * given {
        return Err(ContractError::SpreadExceeded);
    }
    Ok(out)
}

impl Pool {
    pub open spec fn wf(&self) -> bool {
        self@.wf()
    }

    /// A new, empty pool for the two distinct assets, stored in canonical order.
    pub fn new(
        asset_x: u64,
        asset_y: u64,
        share_token: u64,
        swap_fee_bps: u16,
        max_allowed_slippage_bps: u16,
        max_allowed_spread_bps: u16,
    ) -> (r: Result<Pool, ContractError>)
        ensures
            r is Err <==> asset_x == asset_y || swap_fee_bps > BPS,
            r is Err ==> r == Err::<Pool, ContractError>(if asset_x == asset_y {
                ContractError::AssetMismatch
            } else {
                ContractError::InvalidAmount
            }),
            r matches Ok(p) ==> {
                &&& p.wf()
                &&& p@.serves(asset_x, asset_y)
                &&& p@.share_token == share_token
                &&& p@.reserve_a == 0 && p@.reserve_b == 0
                &&& p@.total_shares() == 0
                &&& forall|a: u64| #[trigger] p@.shares.balance(a) == 0
                &&& p@.swap_fee_bps == swap_fee_bps
                &&& p@.max_allowed_slippage_bps == max_allowed_slippage_bps
                &&& p@.max_allowed_spread_bps == max_allowed_spread_bps
            },
    {
        if asset_x == asset_y {
            return Err(ContractError::AssetMismatch);
        }
        if swap_fee_bps as i128 > BPS {
            return Err(ContractError::InvalidAmount);
        }
        let (asset_a, asset_b) = if asset_x < asset_y {
            (asset_x, asset_y)
        } else {
            (asset_y, asset_x)
        };
        Ok(
            Pool {
                asset_a,
                asset_b,
                share_token,
                reserve_a: 0,
                reserve_b: 0,
                swap_fee_bps,
                max_allowed_slippage_bps,
                max_allowed_spread_bps,
                shares: ShareLedger::new(),
            },
        )
    }

    pub fn asset_a(&self) -> (r: u64)
        ensures
            r == self@.asset_a,
    {
        self.asset_a
    }

    pub fn asset_b(&self) -> (r: u64)
        ensures
            r == self@.asset_b,
    {
        self.asset_b
    }

    pub fn reserve_a(&self) -> (r: i128)
        ensures
            r == self@.reserve_a,
    {
        self.reserve_a
    }

    pub fn reserve_b(&self) -> (r: i128)
        ensures
            r == self@.reserve_b,
    {
        self.reserve_b
    }

    pub fn total_shares(&self) -> (r: i128)
        ensures
            r == self@.total_shares(),
    {
        self.shares.total_shares()
    }

    /// Shares held by `account`.
    pub fn share_balance(&self, account: u64) -> (r: i128)
        requires
            self.wf(),
        ensures
            r == self@.shares.balance(account),
    {
        self.shares.balance_of(account)
    }

    /// The reserves and the share supply.
    pub fn query_pool_info(&self) -> (r: PoolResponse)
        ensures
            r.asset_a == (Asset { address: self@.asset_a, amount: self@.reserve_a as i128 }),
            r.asset_b == (Asset { address: self@.asset_b, amount: self@.reserve_b as i128 }),
            r.asset_lp_share == (Asset {
                address: self@.share_token,
                amount: self@.total_shares() as i128,
            }),
    {
        PoolResponse {
            asset_a: Asset { address: self.asset_a, amount: self.reserve_a },
            asset_b: Asset { address: self.asset_b, amount: self.reserve_b },
            asset_lp_share: Asset { address: self.share_token, amount: self.shares.total_shares() },
        }
    }

    /// The outcome of a swap against these parameters and the reserves `(ra, rb)`,
    /// without changing anything.
    pub(crate) fn quote_with(&self, ra: i128, rb: i128, offer_asset: u64, amount: i128) -> (r: Result<
        i128,
        ContractError,
    >)
        requires
            self@.with_reserves(ra as int, rb as int).wf(),
        ensures
            lift1(r) == swap_outcome(self@.with_reserves(ra as int, rb as int), offer_asset, amount as int),
    {
        if amount <= 0 || amount > MAX_AMOUNT {
            return Err(ContractError::InvalidAmount);
        }
        if offer_asset != self.asset_a && offer_asset != self.asset_b {
            return Err(ContractError::AssetMismatch);
        }
        if self.shares.total_shares() == 0 {
            return Err(ContractError::EmptyPool);
        }
        quote_swap(
            ra,
            rb,
            self.swap_fee_bps,
            self.max_allowed_spread_bps,
            offer_asset == self.asset_a,
            amount,
        )
    }

    /// Replaces the reserves.
    pub(crate) fn set_reserves(&mut self, ra: i128, rb: i128)
        requires
            old(self)@.with_reserves(ra as int, rb as int).wf(),
        ensures
            final(self)@ == old(self)@.with_reserves(ra as int, rb as int),
    {
        self.reserve_a = ra;
        self.reserve_b = rb;
    }

    /// The deposit and the shares that `provide_liquidity` would make, without
    /// changing anything.
    pub fn quote_provide(
        &self,
        desired_a: Option<i128>,
        min_a: Option<i128>,
        desired_b: Option<i128>,
        min_b: Option<i128>,
        expiration: Option<u64>,
        now: u64,
    ) -> (r: Result<(i128, i128, i128), ContractError>)
        requires
            self.wf(),
        ensures
            lift3(r) == provide_outcome(self@, desired_a, min_a, desired_b, min_b, expiration, now),
    {
        if let Some(deadline) = expiration {
            if now > deadline {
                return Err(ContractError::Expired);
            }
        }
        let a_valid = match desired_a {
            Some(v) => 0 < v && v <= MAX_AMOUNT,
            None => true,
        };
        let b_valid = match desired_b {
            Some(v) => 0 < v && v <= MAX_AMOUNT,
            None => true,
        };
        let neither = match (desired_a, desired_b) {
            (None, None) => true,
            _ => false,
        };
        if neither || !a_valid || !b_valid {
            return Err(ContractError::InvalidAmount);
        }
        let total = self.shares.total_shares();
        let ra = self.reserve_a;
        let rb = self.reserve_b;
        let (a, b) = match (desired_a, desired_b) {
            (Some(da), Some(db)) => {
                if total == 0 {
                    (da, db)
                } else {
                    proof {
                        lemma_mul_bound(da as int, rb as int);
                        lemma_mul_bound(db as int, ra as int);
                    }
                    let b_opt = da * rb / ra;
                    if b_opt <= db {
                        (da, b_opt)
                    } else {
                        (db * ra / rb, db)
                    }
                }
            },
            (Some(da), None) => {
                if total == 0 {
                    return Err(ContractError::EmptyPool);
                }
                proof {
                    lemma_mul_bound(da as int, rb as int);
                }
                (da, da * rb / ra)
            },
            (None, Some(db)) => {
                if total == 0 {
                    return Err(ContractError::EmptyPool);
                }
                proof {
                    lemma_mul_bound(db as int, ra as int);
                }
                (db * ra / rb, db)
            },
            (None, None) => {
                return Err(ContractError::InvalidAmount);
            },
        };
        if a <= 0 || b <= 0 || a > MAX_AMOUNT - ra || b > MAX_AMOUNT - rb {
            return Err(ContractError::InvalidAmount);
        }
        proof {
            lemma_mul_bound(a as int, b as int);
            lemma_mul_bound(total as int, a as int);
            lemma_mul_bound(total as int, b as int);
        }
        let s = if total == 0 {
            isqrt(a * b)
        } else {
            proof {
                lemma_div_bound(total * a, ra as int);
                lemma_div_bound(total * b, rb as int);
            }
            let sa = total * a / ra;
            let sb = total * b / rb;
            if sa <= sb {
                sa
            } else {
                sb
            }
        };
        if s <= 0 || s > MAX_AMOUNT - total {
            return Err(ContractError::InvalidAmount);
        }
        let lo_a = match min_a {
            Some(m) => m,
            None => 0,
        };
        let lo_b = match min_b {
            Some(m) => m,
            None => 0,
        };
        if a < lo_a || b < lo_b {
            return Err(ContractError::SlippageExceeded);
        }
        if total > 0 {
            proof {
                lemma_mul_bound(a as int, rb as int);
                lemma_mul_bound(b as int, ra as int);
                assert(self.max_allowed_slippage_bps * (a * rb) <= 65536 * (MAX_AMOUNT
                    * MAX_AMOUNT)) by (nonlinear_arith)
                    requires
                        0 <= self.max_allowed_slippage_bps <= 65535,
                        0 <= a * rb <= MAX_AMOUNT * MAX_AMOUNT,
                ;
            }
            let given = a * rb;
            let got = b * ra;
            let dev = if given >= got {
                given - got
            } else {
                got - given
            };
            if dev * BPS > self.max_allowed_slippage_bps as i128 * given {
                return Err(ContractError::SlippageExceeded);
            }
        }
        Ok((a, b, s))
    }

    /// Deposits both assets in the pool's current proportion (or, into an
    /// empty pool, as given) and mints shares to `provider`; returns the
    /// amounts deposited and the shares minted. Fails without any change.
    pub fn provide_liquidity(
        &mut self,
        provider: u64,
        desired_a: Option<i128>,
        min_a: Option<i128>,
        desired_b: Option<i128>,
        min_b: Option<i128>,
        expiration: Option<u64>,
        now: u64,
    ) -> (r: Result<(i128, i128, i128), ContractError>)
        requires
            old(self).wf(),
        ensures
            final(self).wf(),
            lift3(r) == provide_outcome(
                old(self)@,
                desired_a,
                min_a,
                desired_b,
                min_b,
                expiration,
                now,
            ),
            r matches Ok((a, b, s)) ==> provided(
                old(self)@,
                final(self)@,
                provider,
                a as int,
                b as int,
                s as int,
            ),
            r is Err ==> *final(self) == *old(self),
    {
        let (a, b, s) = self.quote_provide(desired_a, min_a, desired_b, min_b, expiration, now)?;
        let _ = self.shares.mint(provider, s);
        self.reserve_a = self.reserve_a + a;
        self.reserve_b = self.reserve_b + b;
        Ok((a, b, s))
    }

    /// Redeems `share_amount` of `provider`'s shares for the pro-rata part of
    /// each reserve, rounded down; returns the two amounts paid out. Fails
    /// without any change.
    pub fn withdraw_liquidity(
        &mut self,
        provider: u64,
        share_amount: i128,
        min_a: i128,
        min_b: i128,
    ) -> (r: Result<(i128, i128), ContractError>)
        requires
            old(self).wf(),
        ensures
            final(self).wf(),
            lift2(r) == withdraw_outcome(
                old(self)@,
                provider,
                share_amount as int,
                min_a as int,
                min_b as int,
            ),
            r matches Ok((a, b)) ==> withdrawn(
                old(self)@,
                final(self)@,
                provider,
                share_amount as int,
                a as int,
                b as int,
            ),
            r is Err ==> *final(self) == *old(self),
    {
        if share_amount <= 0 {
            return Err(ContractError::InvalidAmount);
        }
        let held = self.shares.balance_of(provider);
        if held < share_amount {
            return Err(ContractError::InsufficientBalance);
        }
        let total = self.shares.total_shares();
        proof {
            self.shares.lemma_balance_le_total(provider);
            lemma_mul_bound(self.reserve_a as int, share_amount as int);
            lemma_mul_bound(self.reserve_b as int, share_amount as int);
            lemma_pro_rata(self.reserve_a as int, share_amount as int, total as int);
            lemma_pro_rata(self.reserve_b as int, share_amount as int, total as int);
        }
        let wa = self.reserve_a * share_amount / total;
        let wb = self.reserve_b * share_amount / total;
        if wa < min_a || wb < min_b {
            return Err(ContractError::SlippageExceeded);
        }
        let _ = self.shares.burn(provider, share_amount);
        self.reserve_a = self.reserve_a - wa;
        self.reserve_b = self.reserve_b - wb;
        Ok((wa, wb))
    }

    /// Trades `amount` of `offer_asset` for the other asset at the
    /// fee-adjusted constant-product price; returns the amount paid out.
    pub fn swap(&mut self, offer_asset: u64, amount: i128) -> (r: Result<i128, ContractError>)
        requires
            old(self).wf(),
        ensures
            final(self).wf(),
            lift1(r) == swap_outcome(old(self)@, offer_asset, amount as int),
            r matches Ok(out) ==> final(self)@ == after_swap(old(self)@, offer_asset, amount as int, out as int),
            r is Err ==> *final(self) == *old(self),
    {
        proof {
            assert(self@.with_reserves(self@.reserve_a, self@.reserve_b) == self@);
        }
        let out = self.quote_with(self.reserve_a, self.reserve_b, offer_asset, amount)?;
        if offer_asset == self.asset_a {
            self.set_reserves(self.reserve_a + amount, self.reserve_b - out);
        } else {
            self.set_reserves(self.reserve_a - out, self.reserve_b + amount);
        }
        Ok(out)
    }
}

} // verus!
