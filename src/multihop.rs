use vstd::prelude::*;
use crate::error::ContractError;
use crate::laws::swap_keeps_consistency;
use crate::pool::{Pool, PoolState, after_swap, swap_outcome};

verus! {

/// One hop of a route: offer one asset, ask for another.
#[derive(Clone, Copy, Debug, PartialEq, Eq, Structural)]
pub struct Swap {
    pub offer_asset: u64,
    pub ask_asset: u64,
}

/// Index of the pool that serves `{x, y}` (the last one, should there be several).
pub open spec fn pool_index(ps: Seq<PoolState>, x: u64, y: u64) -> Option<int>
    decreases ps.len(),
{
    if ps.len() == 0 {
        None
    } else if ps.last().serves(x, y) {
        Some(ps.len() - 1)
    } else {
        pool_index(ps.drop_last(), x, y)
    }
}

/// No two pools serve the same pair.
pub open spec fn pairs_unique(ps: Seq<PoolState>) -> bool {
    forall|i: int, j: int|
        0 <= i < ps.len() && 0 <= j < ps.len() && i != j ==> !ps[j].serves(
            ps[i].asset_a,
            ps[i].asset_b,
        )
}

proof fn lemma_index_found(ps: Seq<PoolState>, x: u64, y: u64, i: int)
    requires
        pairs_unique(ps),
        0 <= i < ps.len(),
        ps[i].serves(x, y),
    ensures
        pool_index(ps, x, y) == Some(i),
    decreases ps.len(),
{
    if i != ps.len() - 1 {
        assert(!ps.last().serves(x, y));
        let d = ps.drop_last();
        assert(pairs_unique(d));
        lemma_index_found(d, x, y, i);
    }
}

proof fn lemma_index_none(ps: Seq<PoolState>, x: u64, y: u64)
    requires
        forall|i: int| 0 <= i < ps.len() ==> !(#[trigger] ps[i]).serves(x, y),
    ensures
        pool_index(ps, x, y) is None,
    decreases ps.len(),
{
    if ps.len() > 0 {
        lemma_index_none(ps.drop_last(), x, y);
    }
}

/// One hop on the pools `ps`: find the pool, swap in it.
pub open spec fn hop(ps: Seq<PoolState>, leg: Swap, amount: int) -> Result<
    (Seq<PoolState>, int),
    ContractError,
> {
    match pool_index(ps, leg.offer_asset, leg.ask_asset) {
        None => Err(ContractError::PoolNotFound),
        Some(i) => match swap_outcome(ps[i], leg.offer_asset, amount) {
            Err(e) => Err(e),
            Ok(out) => Ok((ps.update(i, after_swap(ps[i], leg.offer_asset, amount, out)), out)),
        },
    }
}

/// The pools and the running amount after the first `n` hops.
pub open spec fn run_hops(ps: Seq<PoolState>, legs: Seq<Swap>, amount: int, n: nat) -> Result<
    (Seq<PoolState>, int),
    ContractError,
>
    decreases n,
{
    if n == 0 {
        Ok((ps, amount))
    } else {
        match run_hops(ps, legs, amount, (n - 1) as nat) {
            Err(e) => Err(e),
            Ok((qs, running)) => hop(qs, legs[n - 1], running),
        }
    }
}

/// Each leg asks for what the next one offers.
pub open spec fn chained(legs: Seq<Swap>) -> bool {
    forall|i: int| 0 <= i < legs.len() - 1 ==> #[trigger] legs[i].ask_asset == legs[i + 1].offer_asset
}

/// The pools after the whole route and the amount it delivers, or why it fails.
pub open spec fn route_outcome(ps: Seq<PoolState>, legs: Seq<Swap>, amount: int) -> Result<
    (Seq<PoolState>, int),
    ContractError,
> {
    if legs.len() == 0 {
        Err(ContractError::OperationsEmpty)
    } else if !chained(legs) {
        Err(ContractError::InvalidRoute)
    } else {
        run_hops(ps, legs, amount, legs.len())
    }
}

/// The pools with reserves replaced by `st`.
pub open spec fn staged_view(ps: Seq<PoolState>, st: Seq<(i128, i128)>) -> Seq<PoolState> {
    Seq::new(ps.len(), |i: int| ps[i].with_reserves(st[i].0 as int, st[i].1 as int))
}

/// The pools that the router can reach, at most one per asset pair.
pub struct Registry {
    pools: Vec<Pool>,
}

impl View for Registry {
    type V = Seq<PoolState>;

    closed spec fn view(&self) -> Seq<PoolState> {
        self.pools@.map_values(|p: Pool| p@)
    }
}

impl Registry {
    pub open spec fn wf(&self) -> bool {
        &&& forall|i: int| 0 <= i < self@.len() ==> (#[trigger] self@[i]).wf()
        &&& pairs_unique(self@)
    }

    pub fn new() -> (r: Registry)
        ensures
            r.wf(),
            r@ == Seq::<PoolState>::empty(),
    {
        let r = Registry { pools: Vec::new() };
        assert(r@ =~= Seq::<PoolState>::empty());
        r
    }

    pub fn len(&self) -> (r: usize)
        ensures
            r == self@.len(),
    {
        self.pools.len()
    }

    pub fn pool(&self, i: usize) -> (r: &Pool)
        requires
            i < self@.len(),
        ensures
            r@ == self@[i as int],
    {
        &self.pools[i]
    }

    /// Position of the pool serving `{x, y}`.
    pub fn resolve(&self, x: u64, y: u64) -> (r: Option<usize>)
        requires
            self.wf(),
        ensures
            r matches Some(i) ==> i < self@.len(),
            lift_index(r) == pool_index(self@, x, y),
    {
        let mut i: usize = 0;
        while i < self.pools.len()
            invariant
                self.wf(),
                i <= self@.len(),
                forall|j: int| 0 <= j < i ==> !(#[trigger] self@[j]).serves(x, y),
            decreases self@.len() - i,
        {
            let p = &self.pools[i];
            let a = p.asset_a();
            let b = p.asset_b();
            if (a == x && b == y) || (a == y && b == x) {
                proof {
                    lemma_index_found(self@, x, y, i as int);
                }
                return Some(i);
            }
            i = i + 1;
        }
        proof {
            lemma_index_none(self@, x, y);
        }
        None
    }

    /// Adds a pool unless one already serves its pair; says whether it was added.
    pub fn add_pool(&mut self, pool: Pool) -> (r: bool)
        requires
            old(self).wf(),
            pool.wf(),
        ensures
            final(self).wf(),
            r == (pool_index(old(self)@, pool@.asset_a, pool@.asset_b) is None),
            r ==> final(self)@ == old(self)@.push(pool@),
            !r ==> final(self)@ == old(self)@,
    {
        let found = self.resolve(pool.asset_a(), pool.asset_b());
        if found.is_some() {
            return false;
        }
        proof {
            lemma_index_none_inv(self@, pool@.asset_a, pool@.asset_b);
        }
        self.pools.push(pool);
        proof {
            assert(self@ =~= old(self)@.push(pool@));
        }
        true
    }
}

proof fn lemma_index_same_assets(ps: Seq<PoolState>, qs: Seq<PoolState>, x: u64, y: u64)
    requires
        ps.len() == qs.len(),
        forall|i: int|
            0 <= i < ps.len() ==> (#[trigger] ps[i]).asset_a == qs[i].asset_a && ps[i].asset_b
                == qs[i].asset_b,
    ensures
        pool_index(ps, x, y) == pool_index(qs, x, y),
    decreases ps.len(),
{
    if ps.len() > 0 {
        let (dp, dq) = (ps.drop_last(), qs.drop_last());
        assert forall|i: int| 0 <= i < dp.len() implies (#[trigger] dp[i]).asset_a == dq[i].asset_a
            && dp[i].asset_b == dq[i].asset_b by {
            assert(dp[i] == ps[i] && dq[i] == qs[i]);
        }
        lemma_index_same_assets(dp, dq, x, y);
    }
}

/// Once a hop fails, the route fails with the same error.
proof fn lemma_failure_sticks(ps: Seq<PoolState>, legs: Seq<Swap>, amount: int, n: nat, m: nat)
    requires
        n <= m,
        run_hops(ps, legs, amount, n) is Err,
    ensures
        run_hops(ps, legs, amount, m) == run_hops(ps, legs, amount, n),
    decreases m,
{
    if n < m {
        lemma_failure_sticks(ps, legs, amount, n, (m - 1) as nat);
    }
}

/// Runs the route: each hop swaps the previous hop's output in the pool that
/// serves its pair, and the last output is returned. The pools are changed
/// only when every hop succeeds; on any failure nothing changes.
pub fn swap(registry: &mut Registry, operations: &Vec<Swap>, amount: i128) -> (r: Result<
    i128,
    ContractError,
>)
    requires
        old(registry).wf(),
    ensures
        final(registry).wf(),
        match route_outcome(old(registry)@, operations@, amount as int) {
            Ok((ps, out)) => r is Ok && r->Ok_0 == out && final(registry)@ == ps,
            Err(e) => r == Err::<i128, ContractError>(e),
        },
        r is Err ==> *final(registry) == *old(registry),
{
    let n = operations.len();
    if n == 0 {
        return Err(ContractError::OperationsEmpty);
    }
    let mut c: usize = 0;
    while c + 1 < n
        invariant
            *registry == *old(registry),
            registry.wf(),
            n == operations@.len(),
            c < n,
            forall|i: int| 0 <= i < c ==> #[trigger] operations@[i].ask_asset == operations@[i + 1].offer_asset,
        decreases n - c,
    {
        if operations[c].ask_asset != operations[c + 1].offer_asset {
            return Err(ContractError::InvalidRoute);
        }
        c = c + 1;
    }
    let ghost ps = registry@;
    let mut staged: Vec<(i128, i128)> = Vec::new();
    let mut j: usize = 0;
    while j < registry.pools.len()
        invariant
            *registry == *old(registry),
            ps == registry@,
            j <= ps.len(),
            staged@.len() == j,
            forall|i: int|
                0 <= i < j ==> (#[trigger] staged@[i]).0 == ps[i].reserve_a && staged@[i].1
                    == ps[i].reserve_b,
        decreases ps.len() - j,
    {
        let p = &registry.pools[j];
        staged.push((p.reserve_a(), p.reserve_b()));
        j = j + 1;
    }
    proof {
        assert(staged_view(ps, staged@) =~= ps);
    }
    let mut running = amount;
    let mut k: usize = 0;
    while k < n
        invariant
            *registry == *old(registry),
            registry.wf(),
            ps == registry@,
            n == operations@.len(),
            chained(operations@),
            k <= n,
            staged@.len() == ps.len(),
            forall|i: int| 0 <= i < ps.len() ==> (#[trigger] staged_view(ps, staged@)[i]).wf(),
            run_hops(ps, operations@, amount as int, k as nat) == Ok::<(Seq<PoolState>, int), ContractError>((staged_view(ps, staged@), running as int)),
        decreases n - k,
    {
        let leg = operations[k];
        let ghost sv = staged_view(ps, staged@);
        proof {
            lemma_index_same_assets(ps, sv, leg.offer_asset, leg.ask_asset);
        }
        let idx = match registry.resolve(leg.offer_asset, leg.ask_asset) {
            Some(i) => i,
            None => {
                proof {
                    lemma_failure_sticks(ps, operations@, amount as int, (k + 1) as nat, n as nat);
                }
                return Err(ContractError::PoolNotFound);
            },
        };
        let (ra, rb) = staged[idx];
        let p = &registry.pools[idx];
        proof {
            assert(sv[idx as int] == p@.with_reserves(ra as int, rb as int));
        }
        let got = p.quote_with(ra, rb, leg.offer_asset, running);
        let out = match got {
            Ok(v) => v,
            Err(e) => {
                proof {
                    lemma_failure_sticks(ps, operations@, amount as int, (k + 1) as nat, n as nat);
                }
                return Err(e);
            },
        };
        proof {
            swap_keeps_consistency(sv[idx as int], leg.offer_asset, running as int);
        }
        let next = if leg.offer_asset == p.asset_a() {
            (ra + running, rb - out)
        } else {
            (ra - out, rb + running)
        };
        staged.set(idx, next);
        proof {
            assert(staged_view(ps, staged@) =~= sv.update(
                idx as int,
                after_swap(sv[idx as int], leg.offer_asset, running as int, out as int),
            ));
        }
        running = out;
        k = k + 1;
    }
    let ghost target = staged_view(ps, staged@);
    let mut m: usize = 0;
    while m < registry.pools.len()
        invariant
            registry.pools@.len() == ps.len(),
            staged@.len() == ps.len(),
            target == staged_view(ps, staged@),
            pairs_unique(ps),
            m <= ps.len(),
            forall|i: int| 0 <= i < ps.len() ==> (#[trigger] target[i]).wf(),
            forall|i: int| 0 <= i < m ==> #[trigger] registry@[i] == target[i],
            forall|i: int| m <= i < ps.len() ==> #[trigger] registry@[i] == ps[i],
        decreases ps.len() - m,
    {
        let (ra, rb) = staged[m];
        let ghost before = registry@;
        proof {
            assert(target[m as int] == registry@[m as int].with_reserves(ra as int, rb as int));
        }
        registry.pools[m].set_reserves(ra, rb);
        proof {
            assert(registry@ =~= before.update(m as int, target[m as int]));
        }
        m = m + 1;
    }
    proof {
        assert(registry@ =~= target);
        assert forall|i: int, j: int|
            0 <= i < target.len() && 0 <= j < target.len() && i != j implies !target[j].serves(
            target[i].asset_a,
            target[i].asset_b,
        ) by {
            assert(target[i].asset_a == ps[i].asset_a && target[i].asset_b == ps[i].asset_b);
            assert(target[j].asset_a == ps[j].asset_a && target[j].asset_b == ps[j].asset_b);
            assert(!ps[j].serves(ps[i].asset_a, ps[i].asset_b));
        }
    }
    Ok(running)
}

pub open spec fn lift_index(r: Option<usize>) -> Option<int> {
    match r {
        Some(i) => Some(i as int),
        None => None,
    }
}

proof fn lemma_index_none_inv(ps: Seq<PoolState>, x: u64, y: u64)
    requires
        pool_index(ps, x, y) is None,
    ensures
        forall|i: int| 0 <= i < ps.len() ==> !(#[trigger] ps[i]).serves(x, y),
    decreases ps.len(),
{
    if ps.len() > 0 {
        lemma_index_none_inv(ps.drop_last(), x, y);
        assert forall|i: int| 0 <= i < ps.len() implies !(#[trigger] ps[i]).serves(x, y) by {
            if i < ps.len() - 1 {
                assert(ps[i] == ps.drop_last()[i]);
            }
        }
    }
}

} // verus!
