use vstd::prelude::*;
use crate::error::ContractError;
use crate::math::MAX_AMOUNT;

verus! {

/// One account's positive share balance.
#[derive(Clone, Copy, Debug, PartialEq, Eq, Structural)]
pub struct Holding {
    pub account: u64,
    pub amount: i128,
}

/// Sum of all amounts held.
pub open spec fn sum_of(s: Seq<Holding>) -> int
    decreases s.len(),
{
    if s.len() == 0 {
        0
    } else {
        sum_of(s.drop_last()) + s.last().amount
    }
}

/// What `a` holds in `s`: the sum of its entries (at most one when well formed).
pub open spec fn balance_in(s: Seq<Holding>, a: u64) -> int
    decreases s.len(),
{
    if s.len() == 0 {
        0
    } else {
        balance_in(s.drop_last(), a) + if s.last().account == a {
            s.last().amount as int
        } else {
            0int
        }
    }
}

/// Each account appears at most once and every entry is positive.
pub open spec fn holdings_wf(s: Seq<Holding>) -> bool {
    &&& forall|i: int, j: int|
        0 <= i < s.len() && 0 <= j < s.len() && i != j ==> s[i].account != s[j].account
    &&& forall|i: int| 0 <= i < s.len() ==> s[i].amount > 0
}

proof fn lemma_push(s: Seq<Holding>, h: Holding)
    ensures
        sum_of(s.push(h)) == sum_of(s) + h.amount,
        forall|b: u64|
            balance_in(#[trigger] s.push(h), b) == balance_in(s, b) + if h.account == b {
                h.amount as int
            } else {
                0int
            },
{
    assert(s.push(h).drop_last() =~= s);
}

proof fn lemma_bounds(s: Seq<Holding>, a: u64)
    requires
        forall|i: int| 0 <= i < s.len() ==> s[i].amount > 0,
    ensures
        0 <= balance_in(s, a) <= sum_of(s),
    decreases s.len(),
{
    if s.len() > 0 {
        lemma_bounds(s.drop_last(), a);
    }
}

proof fn lemma_absent(s: Seq<Holding>, a: u64)
    requires
        forall|i: int| 0 <= i < s.len() ==> s[i].account != a,
    ensures
        balance_in(s, a) == 0,
    decreases s.len(),
{
    if s.len() > 0 {
        lemma_absent(s.drop_last(), a);
    }
}

proof fn lemma_present(s: Seq<Holding>, i: int)
    requires
        holdings_wf(s),
        0 <= i < s.len(),
    ensures
        balance_in(s, s[i].account) == s[i].amount,
    decreases s.len(),
{
    let d = s.drop_last();
    if i == s.len() - 1 {
        lemma_absent(d, s[i].account);
    } else {
        lemma_present(d, i);
    }
}

proof fn lemma_update(s: Seq<Holding>, i: int, h: Holding)
    requires
        0 <= i < s.len(),
    ensures
        sum_of(s.update(i, h)) == sum_of(s) - s[i].amount + h.amount,
        forall|b: u64|
            balance_in(#[trigger] s.update(i, h), b) == balance_in(s, b) - (if s[i].account
                == b {
                s[i].amount as int
            } else {
                0int
            }) + (if h.account == b {
                h.amount as int
            } else {
                0int
            }),
    decreases s.len(),
{
    let u = s.update(i, h);
    if i == s.len() - 1 {
        assert(u.drop_last() =~= s.drop_last());
    } else {
        assert(u.drop_last() =~= s.drop_last().update(i, h));
        lemma_update(s.drop_last(), i, h);
        assert forall|b: u64|
            balance_in(#[trigger] s.update(i, h), b) == balance_in(s, b) - (if s[i].account
                == b {
                s[i].amount as int
            } else {
                0int
            }) + (if h.account == b {
                h.amount as int
            } else {
                0int
            }) by {
            assert(balance_in(s.drop_last().update(i, h), b) == balance_in(s.drop_last(), b)
                - (if s[i].account == b {
                s[i].amount as int
            } else {
                0int
            }) + (if h.account == b {
                h.amount as int
            } else {
                0int
            }));
        }
    }
}

proof fn lemma_remove(s: Seq<Holding>, i: int)
    requires
        0 <= i < s.len(),
    ensures
        sum_of(s.remove(i)) == sum_of(s) - s[i].amount,
        forall|b: u64|
            balance_in(#[trigger] s.remove(i), b) == balance_in(s, b) - (if s[i].account == b {
                s[i].amount as int
            } else {
                0int
            }),
    decreases s.len(),
{
    let r = s.remove(i);
    if i == s.len() - 1 {
        assert(r =~= s.drop_last());
    } else {
        assert(r.drop_last() =~= s.drop_last().remove(i));
        assert(r.last() == s.last());
        lemma_remove(s.drop_last(), i);
        assert forall|b: u64|
            balance_in(#[trigger] s.remove(i), b) == balance_in(s, b) - (if s[i].account == b {
                s[i].amount as int
            } else {
                0int
            }) by {
            assert(balance_in(s.drop_last().remove(i), b) == balance_in(s.drop_last(), b) - (
            if s[i].account == b {
                s[i].amount as int
            } else {
                0int
            }));
        }
    }
}

/// The ledger of one pool's ownership shares.
pub struct ShareLedger {
    holdings: Vec<Holding>,
    total: i128,
}

impl ShareLedger {
    /// The entries, one per account with a positive balance.
    pub closed spec fn holdings(&self) -> Seq<Holding> {
        self.holdings@
    }

    /// The number of shares in existence.
    pub closed spec fn total(&self) -> int {
        self.total as int
    }

    pub open spec fn balance(&self, a: u64) -> int {
        balance_in(self.holdings(), a)
    }

    /// The ledger is closed: balances add up to the total, which stays in range.
    pub open spec fn wf(&self) -> bool {
        &&& holdings_wf(self.holdings())
        &&& sum_of(self.holdings()) == self.total()
        &&& 0 <= self.total() <= MAX_AMOUNT
    }

    /// Two ledgers that give every account the same balance and have the same total.
    pub open spec fn same_balances(&self, other: &ShareLedger) -> bool {
        &&& self.total() == other.total()
        &&& forall|a: u64| #[trigger] self.balance(a) == other.balance(a)
    }

    /// No account holds more than the total.
    pub proof fn lemma_balance_le_total(&self, a: u64)
        requires
            self.wf(),
        ensures
            0 <= self.balance(a) <= self.total(),
    {
        lemma_bounds(self.holdings(), a);
    }

    pub fn new() -> (r: ShareLedger)
        ensures
            r.wf(),
            r.total() == 0,
            forall|a: u64| #[trigger] r.balance(a) == 0,
    {
        let r = ShareLedger { holdings: Vec::new(), total: 0 };
        assert(r.holdings() =~= Seq::<Holding>::empty());
        r
    }

    pub fn total_shares(&self) -> (r: i128)
        ensures
            r == self.total(),
    {
        self.total
    }

    /// Index of `a`'s entry, if it has one.
    fn find(&self, a: u64) -> (r: Option<usize>)
        ensures
            match r {
                Some(i) => i < self.holdings().len() && self.holdings()[i as int].account == a,
                None => forall|i: int|
                    0 <= i < self.holdings().len() ==> self.holdings()[i].account != a,
            },
    {
        let mut i: usize = 0;
        while i < self.holdings.len()
            invariant
                i <= self.holdings@.len(),
                forall|j: int| 0 <= j < i ==> self.holdings@[j].account != a,
            decreases self.holdings@.len() - i,
        {
            if self.holdings[i].account == a {
                return Some(i);
            }
            i = i + 1;
        }
        None
    }

    /// Shares held by `a`.
    pub fn balance_of(&self, a: u64) -> (r: i128)
        requires
            self.wf(),
        ensures
            r == self.balance(a),
    {
        match self.find(a) {
            Some(i) => {
                proof {
                    lemma_present(self.holdings(), i as int);
                }
                self.holdings[i].amount
            },
            None => {
                proof {
                    lemma_absent(self.holdings(), a);
                }
                0
            },
        }
    }

    /// Creates `amount` new shares owned by `a`.
    pub fn mint(&mut self, a: u64, amount: i128) -> (r: Result<(), ContractError>)
        requires
            old(self).wf(),
        ensures
            final(self).wf(),
            r is Err <==> amount <= 0 || old(self).total() + amount > MAX_AMOUNT,
            r is Err ==> r == Err::<(), ContractError>(ContractError::InvalidAmount)
                && *final(self) == *old(self),
            r is Ok ==> final(self).total() == old(self).total() + amount && forall|b: u64|
                #[trigger] final(self).balance(b) == old(self).balance(b) + if b == a {
                    amount as int
                } else {
                    0int
                },
    {
        if amount <= 0 || amount > MAX_AMOUNT - self.total {
            return Err(ContractError::InvalidAmount);
        }
        let ghost s = self.holdings@;
        proof {
            lemma_bounds(s, a);
        }
        match self.find(a) {
            Some(i) => {
                proof {
                    lemma_present(s, i as int);
                }
                let h = Holding { account: a, amount: self.holdings[i].amount + amount };
                self.holdings.set(i, h);
                proof {
                    lemma_update(s, i as int, h);
                    assert forall|x: int, y: int|
                        0 <= x < self.holdings@.len() && 0 <= y < self.holdings@.len() && x
                            != y implies self.holdings@[x].account
                            != self.holdings@[y].account by {
                        assert(s[x].account == self.holdings@[x].account);
                        assert(s[y].account == self.holdings@[y].account);
                    }
                }
            },
            None => {
                let h = Holding { account: a, amount };
                self.holdings.push(h);
                proof {
                    lemma_push(s, h);
                }
            },
        }
        self.total = self.total + amount;
        Ok(())
    }

    /// Destroys `amount` of the shares owned by `a`.
    pub fn burn(&mut self, a: u64, amount: i128) -> (r: Result<(), ContractError>)
        requires
            old(self).wf(),
        ensures
            final(self).wf(),
            r == (if amount <= 0 {
                Err(ContractError::InvalidAmount)
            } else if old(self).balance(a) < amount {
                Err(ContractError::InsufficientBalance)
            } else {
                Ok(())
            }),
            r is Err ==> *final(self) == *old(self),
            r is Ok ==> final(self).total() == old(self).total() - amount && forall|b: u64|
                #[trigger] final(self).balance(b) == old(self).balance(b) - if b == a {
                    amount as int
                } else {
                    0int
                },
    {
        if amount <= 0 {
            return Err(ContractError::InvalidAmount);
        }
        let ghost s = self.holdings@;
        match self.find(a) {
            None => {
                proof {
                    lemma_absent(s, a);
                }
                Err(ContractError::InsufficientBalance)
            },
            Some(i) => {
                proof {
                    lemma_present(s, i as int);
                    lemma_bounds(s, a);
                }
                let held = self.holdings[i].amount;
                if held < amount {
                    return Err(ContractError::InsufficientBalance);
                }
                if held == amount {
                    self.holdings.remove(i);
                    proof {
                        lemma_remove(s, i as int);
                        assert forall|x: int, y: int|
                            0 <= x < self.holdings@.len() && 0 <= y < self.holdings@.len() && x
                                != y implies self.holdings@[x].account
                                != self.holdings@[y].account by {
                            let xs = if x < i { x } else { x + 1 };
                            let ys = if y < i { y } else { y + 1 };
                            assert(self.holdings@[x] == s[xs]);
                            assert(self.holdings@[y] == s[ys]);
                        }
                        assert forall|x: int| 0 <= x < self.holdings@.len() implies
                            self.holdings@[x].amount > 0 by {
                            let xs = if x < i { x } else { x + 1 };
                            assert(self.holdings@[x] == s[xs]);
                        }
                    }
                } else {
                    let h = Holding { account: a, amount: held - amount };
                    self.holdings.set(i, h);
                    proof {
                        lemma_update(s, i as int, h);
                        assert forall|x: int, y: int|
                            0 <= x < self.holdings@.len() && 0 <= y < self.holdings@.len() && x
                                != y implies self.holdings@[x].account
                                != self.holdings@[y].account by {
                            assert(s[x].account == self.holdings@[x].account);
                            assert(s[y].account == self.holdings@[y].account);
                        }
                    }
                }
                self.total = self.total - amount;
                Ok(())
            },
        }
    }
}

} // verus!
