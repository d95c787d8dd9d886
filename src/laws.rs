use vstd::prelude::*;
use vstd::arithmetic::div_mod::lemma_fundamental_div_mod;
use crate::pool::{
    PoolState, after_fee, after_swap, provide_outcome, provided, sides, swap_outcome,
    withdraw_outcome, withdrawn,
};
use crate::shares::{ShareLedger, sum_of};

verus! {

/// A pool is either fully empty or fully funded: one reserve is zero exactly
/// when the other is, and exactly when no shares exist.
pub proof fn reserve_consistency(p: PoolState)
    requires
        p.wf(),
    ensures
        p.reserve_a == 0 <==> p.reserve_b == 0,
        p.reserve_b == 0 <==> p.total_shares() == 0,
{
}

/// A successful provide leaves a pool that is fully funded and well formed.
pub proof fn provide_keeps_consistency(
    p: PoolState,
    q: PoolState,
    provider: u64,
    desired_a: Option<i128>,
    min_a: Option<i128>,
    desired_b: Option<i128>,
    min_b: Option<i128>,
    expiration: Option<u64>,
    now: u64,
)
    requires
        p.wf(),
        q.shares.wf(),
        provide_outcome(p, desired_a, min_a, desired_b, min_b, expiration, now) is Ok,
        ({
            let (a, b, s) = provide_outcome(p, desired_a, min_a, desired_b, min_b, expiration, now)->Ok_0;
            provided(p, q, provider, a, b, s)
        }),
    ensures
        q.wf(),
        q.reserve_a > 0 && q.reserve_b > 0 && q.total_shares() > 0,
{
}

/// A successful withdrawal leaves a well-formed pool: redeeming every share
/// drains both reserves to zero, and redeeming fewer leaves both positive.
pub proof fn withdraw_keeps_consistency(
    p: PoolState,
    q: PoolState,
    provider: u64,
    share_amount: int,
    min_a: int,
    min_b: int,
)
    requires
        p.wf(),
        q.shares.wf(),
        withdraw_outcome(p, provider, share_amount, min_a, min_b) is Ok,
        ({
            let (a, b) = withdraw_outcome(p, provider, share_amount, min_a, min_b)->Ok_0;
            withdrawn(p, q, provider, share_amount, a, b)
        }),
    ensures
        q.wf(),
        share_amount == p.total_shares() ==> q.reserve_a == 0 && q.reserve_b == 0
            && q.total_shares() == 0,
{
    p.shares.lemma_balance_le_total(provider);
    crate::math::lemma_pro_rata(p.reserve_a, share_amount, p.total_shares());
    crate::math::lemma_pro_rata(p.reserve_b, share_amount, p.total_shares());
}

/// A successful swap leaves a well-formed, funded pool.
pub proof fn swap_keeps_consistency(p: PoolState, offer: u64, amount: int)
    requires
        p.wf(),
        swap_outcome(p, offer, amount) is Ok,
    ensures
        ({
            let q = after_swap(p, offer, amount, swap_outcome(p, offer, amount)->Ok_0);
            q.wf() && q.reserve_a > 0 && q.reserve_b > 0
        }),
{
}

/// The balances of a well-formed ledger add up to its total.
pub proof fn share_conservation(l: ShareLedger)
    requires
        l.wf(),
    ensures
        sum_of(l.holdings()) == l.total(),
{
}

/// How a swap changes the product of the reserves: with `d = r_in + x` (`x`
/// the input after the fee) and `k = r_in * r_out`, the new product is
/// `k + fee * (k / d) - k % d`, where `fee = amount - x` is the part kept as
/// fee and `k % d` is what the rounding in the trader's favour gives away.
pub proof fn swap_product_change(p: PoolState, offer: u64, amount: int)
    requires
        p.wf(),
        swap_outcome(p, offer, amount) is Ok,
    ensures
        ({
            let (r_in, r_out) = sides(p, offer);
            let x = after_fee(amount, p.swap_fee_bps);
            let k = r_in * r_out;
            let d = r_in + x;
            let q = after_swap(p, offer, amount, swap_outcome(p, offer, amount)->Ok_0);
            &&& 0 <= x <= amount
            &&& d > 0
            &&& q.reserve_a * q.reserve_b == k + (amount - x) * (k / d) - k % d
        }),
{
    let (r_in, r_out) = sides(p, offer);
    let f = p.swap_fee_bps;
    let x = after_fee(amount, f);
    assert(0 <= amount * (10000 - f) <= amount * 10000) by (nonlinear_arith)
        requires 0 < amount, 0 <= f <= 10000;
    assert(0 <= x <= amount) by (nonlinear_arith)
        requires x == amount * (10000 - f) / 10000, 0 <= amount * (10000 - f) <= amount * 10000;
    let k = r_in * r_out;
    let d = r_in + x;
    let kq = k / d;
    lemma_fundamental_div_mod(k, d);
    assert((d + (amount - x)) * kq == d * kq + (amount - x) * kq) by (nonlinear_arith);
    assert(kq * (r_in + amount) == (r_in + amount) * kq) by (nonlinear_arith);
}

/// The product of the reserves never decreases across a swap whose rounding
/// remainder is covered by the fee it keeps, and strictly increases when the
/// fee more than covers it. (With no fee, this holds exactly when `k / d` has
/// no remainder.)
pub proof fn constant_product(p: PoolState, offer: u64, amount: int)
    requires
        p.wf(),
        swap_outcome(p, offer, amount) is Ok,
        ({
            let (r_in, r_out) = sides(p, offer);
            let x = after_fee(amount, p.swap_fee_bps);
            (r_in * r_out) % (r_in + x) <= (amount - x) * ((r_in * r_out) / (r_in + x))
        }),
    ensures
        ({
            let (r_in, r_out) = sides(p, offer);
            let x = after_fee(amount, p.swap_fee_bps);
            let q = after_swap(p, offer, amount, swap_outcome(p, offer, amount)->Ok_0);
            &&& q.reserve_a * q.reserve_b >= p.reserve_a * p.reserve_b
            &&& (r_in * r_out) % (r_in + x) < (amount - x) * ((r_in * r_out) / (r_in + x))
                ==> q.reserve_a * q.reserve_b > p.reserve_a * p.reserve_b
        }),
{
    swap_product_change(p, offer, amount);
    let (r_in, r_out) = sides(p, offer);
    assert(r_in * r_out == p.reserve_a * p.reserve_b) by (nonlinear_arith)
        requires
            (r_in == p.reserve_a && r_out == p.reserve_b) || (r_in == p.reserve_b && r_out
                == p.reserve_a),
    ;
}

proof fn lemma_claim_le(r: int, a: int, t: int, s: int)
    requires
        0 < r,
        0 <= a,
        0 <= t,
        0 < s <= t * a / r,
    ensures
        (r + a) * s / (t + s) <= a,
{
    assert(r * (t * a / r) <= t * a) by (nonlinear_arith)
        requires 0 < r, 0 <= t * a;
    assert(s * r <= t * a) by (nonlinear_arith)
        requires s <= t * a / r, r * (t * a / r) <= t * a, 0 < r;
    assert((r + a) * s <= a * (t + s)) by (nonlinear_arith)
        requires s * r <= t * a;
    assert((r + a) * s / (t + s) <= a) by (nonlinear_arith)
        requires (r + a) * s <= a * (t + s), 0 < t + s, 0 <= a;
}

/// Providing liquidity and then redeeming exactly the shares it minted pays
/// back no more than was deposited on either side, leaves each reserve at or
/// above its value before the deposit, and restores the share supply and
/// every balance. Into an empty pool the round trip is exact.
pub proof fn provide_withdraw_round_trip(
    p: PoolState,
    q: PoolState,
    r: PoolState,
    provider: u64,
    desired_a: Option<i128>,
    min_a: Option<i128>,
    desired_b: Option<i128>,
    min_b: Option<i128>,
    expiration: Option<u64>,
    now: u64,
)
    requires
        p.wf(),
        provide_outcome(p, desired_a, min_a, desired_b, min_b, expiration, now) is Ok,
        ({
            let (a, b, s) = provide_outcome(p, desired_a, min_a, desired_b, min_b, expiration, now)->Ok_0;
            &&& provided(p, q, provider, a, b, s)
            &&& withdraw_outcome(q, provider, s, 0, 0) is Ok
                ==> withdrawn(q, r, provider, s, withdraw_outcome(q, provider, s, 0, 0)->Ok_0.0,
                withdraw_outcome(q, provider, s, 0, 0)->Ok_0.1)
        }),
    ensures
        ({
            let (a, b, s) = provide_outcome(p, desired_a, min_a, desired_b, min_b, expiration, now)->Ok_0;
            let w = withdraw_outcome(q, provider, s, 0, 0);
            &&& w is Ok
            &&& w->Ok_0.0 <= a && w->Ok_0.1 <= b
            &&& p.total_shares() == 0 ==> w->Ok_0 == (a, b)
            &&& r.reserve_a >= p.reserve_a && r.reserve_b >= p.reserve_b
            &&& p.total_shares() == 0 ==> r.reserve_a == p.reserve_a && r.reserve_b == p.reserve_b
            &&& r.total_shares() == p.total_shares()
            &&& forall|x: u64| #[trigger] r.shares.balance(x) == p.shares.balance(x)
        }),
{
    let (a, b, s) = provide_outcome(p, desired_a, min_a, desired_b, min_b, expiration, now)->Ok_0;
    let t = p.total_shares();
    p.shares.lemma_balance_le_total(provider);
    assert(q.shares.balance(provider) == p.shares.balance(provider) + s);
    if t == 0 {
        assert((p.reserve_a + a) * s / (t + s) == a) by (nonlinear_arith)
            requires p.reserve_a == 0, t == 0, s > 0;
        assert((p.reserve_b + b) * s / (t + s) == b) by (nonlinear_arith)
            requires p.reserve_b == 0, t == 0, s > 0;
    } else {
        assert(s <= t * a / p.reserve_a && s <= t * b / p.reserve_b);
        lemma_claim_le(p.reserve_a, a, t, s);
        lemma_claim_le(p.reserve_b, b, t, s);
    }
    let w = withdraw_outcome(q, provider, s, 0, 0);
    assert(w is Ok);
    assert forall|x: u64| #[trigger] r.shares.balance(x) == p.shares.balance(x) by {
        assert(q.shares.balance(x) == p.shares.balance(x) + if x == provider {
            s
        } else {
            0
        });
    }
}

} // verus!
