use vstd::prelude::*;
use crate::error::VestingError;

verus! {

/// Who may mint vested tokens, and how many more.
#[derive(Clone, Copy, Debug, PartialEq, Eq, Structural)]
pub struct MinterInfo {
    pub address: u64,
    pub mint_capacity: u128,
}

/// The mathematical state of the vesting contract's rules.
pub struct VestingState {
    pub admin: u64,
    pub token: u64,
    pub minter: Option<MinterInfo>,
    pub max_vesting_complexity: u32,
}

/// Sum of the amounts to vest.
pub open spec fn total_of(s: Seq<u128>) -> int
    decreases s.len(),
{
    if s.len() == 0 {
        0
    } else {
        total_of(s.drop_last()) + s.last()
    }
}

proof fn lemma_total_nonneg(s: Seq<u128>)
    ensures
        total_of(s) >= 0,
    decreases s.len(),
{
    if s.len() > 0 {
        lemma_total_nonneg(s.drop_last());
    }
}

/// The admin, the vested token and the minter of a vesting contract.
pub struct Vesting {
    admin: u64,
    token: u64,
    minter: Option<MinterInfo>,
    max_vesting_complexity: u32,
}

impl View for Vesting {
    type V = VestingState;

    closed spec fn view(&self) -> VestingState {
        VestingState {
            admin: self.admin,
            token: self.token,
            minter: self.minter,
            max_vesting_complexity: self.max_vesting_complexity,
        }
    }
}

/// Whether `sender` may name a new minter: the current minter, or the admin
/// while there is none.
pub open spec fn may_update_minter(v: VestingState, sender: u64) -> bool {
    match v.minter {
        Some(m) => sender == m.address,
        None => sender == v.admin,
    }
}

impl Vesting {
    /// Sets up the contract. The admin must hold at least the total to vest,
    /// which is returned for the transfer into the contract; a minter's
    /// capacity must cover that total too.
    pub fn initialize(
        admin: u64,
        token: u64,
        vesting_amounts: &Vec<u128>,
        admin_balance: i128,
        minter_info: Option<MinterInfo>,
        max_vesting_complexity: u32,
    ) -> (r: Result<(Vesting, u128), VestingError>)
        ensures
            vesting_amounts@.len() == 0 ==> r == Err::<(Vesting, u128), VestingError>(
                VestingError::MissingBalance,
            ),
            vesting_amounts@.len() > 0 && total_of(vesting_amounts@) > admin_balance ==> r
                == Err::<(Vesting, u128), VestingError>(VestingError::NoEnoughtTokensToStart),
            vesting_amounts@.len() > 0 && total_of(vesting_amounts@) <= admin_balance ==> match minter_info {
                Some(m) if total_of(vesting_amounts@) > m.mint_capacity => r == Err::<
                    (Vesting, u128),
                    VestingError,
                >(VestingError::TotalVestedOverCapacity),
                _ => r is Ok && r->Ok_0.1 == total_of(vesting_amounts@) && r->Ok_0.0@ == (
                VestingState { admin, token, minter: minter_info, max_vesting_complexity }),
            },
    {
        let n = vesting_amounts.len();
        if n == 0 {
            return Err(VestingError::MissingBalance);
        }
        if admin_balance < 0 {
            proof {
                lemma_total_nonneg(vesting_amounts@);
            }
            return Err(VestingError::NoEnoughtTokensToStart);
        }
        let limit = admin_balance as u128;
        let mut total: u128 = 0;
        let mut i: usize = 0;
        while i < n
            invariant
                n == vesting_amounts@.len(),
                i <= n,
                total == total_of(vesting_amounts@.subrange(0, i as int)),
                total <= limit,
                limit == admin_balance,
            decreases n - i,
        {
            proof {
                let s = vesting_amounts@.subrange(0, i as int + 1);
                assert(s.drop_last() =~= vesting_amounts@.subrange(0, i as int));
            }
            let x = vesting_amounts[i];
            if x > limit - total {
                proof {
                    lemma_total_above(vesting_amounts@, (i + 1) as int);
                }
                return Err(VestingError::NoEnoughtTokensToStart);
            }
            total = total + x;
            i = i + 1;
        }
        proof {
            assert(vesting_amounts@.subrange(0, n as int) =~= vesting_amounts@);
        }
        if let Some(m) = minter_info {
            if total > m.mint_capacity {
                return Err(VestingError::TotalVestedOverCapacity);
            }
        }
        Ok((Vesting { admin, token, minter: minter_info, max_vesting_complexity }, total))
    }

    pub fn admin(&self) -> (r: u64)
        ensures
            r == self@.admin,
    {
        self.admin
    }

    pub fn token(&self) -> (r: u64)
        ensures
            r == self@.token,
    {
        self.token
    }

    pub fn max_vesting_complexity(&self) -> (r: u32)
        ensures
            r == self@.max_vesting_complexity,
    {
        self.max_vesting_complexity
    }

    /// Mints `amount` on the minter's behalf, using up that much capacity.
    pub fn mint(&mut self, sender: u64, amount: i128) -> (r: Result<(), VestingError>)
        ensures
            r == (if amount <= 0 {
                Err(VestingError::InvalidMintAmount)
            } else if old(self)@.minter is None {
                Err(VestingError::MinterNotFound)
            } else if sender != old(self)@.minter->Some_0.address {
                Err(VestingError::NotAuthorized)
            } else if old(self)@.minter->Some_0.mint_capacity < amount {
                Err(VestingError::NotEnoughCapacity)
            } else {
                Ok(())
            }),
            r is Err ==> final(self)@ == old(self)@,
            r is Ok ==> final(self)@ == (VestingState {
                minter: Some(
                    MinterInfo {
                        address: sender,
                        mint_capacity: (old(self)@.minter->Some_0.mint_capacity - amount) as u128,
                    },
                ),
                ..old(self)@
            }),
    {
        if amount <= 0 {
            return Err(VestingError::InvalidMintAmount);
        }
        let m = match self.minter {
            Some(m) => m,
            None => {
                return Err(VestingError::MinterNotFound);
            },
        };
        if sender != m.address {
            return Err(VestingError::NotAuthorized);
        }
        if m.mint_capacity < amount as u128 {
            return Err(VestingError::NotEnoughCapacity);
        }
        self.minter = Some(
            MinterInfo { address: m.address, mint_capacity: m.mint_capacity - amount as u128 },
        );
        Ok(())
    }

    /// Hands the minter role to `new_minter`, keeping the capacity (zero when
    /// there was no minter).
    pub fn update_minter(&mut self, sender: u64, new_minter: u64) -> (r: Result<(), VestingError>)
        ensures
            r is Ok <==> may_update_minter(old(self)@, sender),
            r is Err ==> r == Err::<(), VestingError>(VestingError::NotAuthorized) && final(self)@
                == old(self)@,
            r is Ok ==> final(self)@ == (VestingState {
                minter: Some(
                    MinterInfo {
                        address: new_minter,
                        mint_capacity: match old(self)@.minter {
                            Some(m) => m.mint_capacity,
                            None => 0,
                        },
                    },
                ),
                ..old(self)@
            }),
    {
        let (authorized, capacity) = match self.minter {
            Some(m) => (sender == m.address, m.mint_capacity),
            None => (sender == self.admin, 0),
        };
        if !authorized {
            return Err(VestingError::NotAuthorized);
        }
        self.minter = Some(MinterInfo { address: new_minter, mint_capacity: capacity });
        Ok(())
    }

    /// The admin sets the minter's capacity.
    pub fn update_minter_capacity(&mut self, sender: u64, new_capacity: u128) -> (r: Result<
        (),
        VestingError,
    >)
        ensures
            r == (if sender != old(self)@.admin {
                Err(VestingError::NotAuthorized)
            } else if old(self)@.minter is None {
                Err(VestingError::MinterNotFound)
            } else {
                Ok(())
            }),
            r is Err ==> final(self)@ == old(self)@,
            r is Ok ==> final(self)@ == (VestingState {
                minter: Some(
                    MinterInfo {
                        address: old(self)@.minter->Some_0.address,
                        mint_capacity: new_capacity,
                    },
                ),
                ..old(self)@
            }),
    {
        if sender != self.admin {
            return Err(VestingError::NotAuthorized);
        }
        match self.minter {
            Some(m) => {
                self.minter = Some(MinterInfo { address: m.address, mint_capacity: new_capacity });
                Ok(())
            },
            None => Err(VestingError::MinterNotFound),
        }
    }

    /// The current minter.
    pub fn query_minter(&self) -> (r: Result<MinterInfo, VestingError>)
        ensures
            r == (match self@.minter {
                Some(m) => Ok(m),
                None => Err(VestingError::MinterNotFound),
            }),
    {
        match self.minter {
            Some(m) => Ok(m),
            None => Err(VestingError::MinterNotFound),
        }
    }

    /// What an account may claim: its balance less what is still locked.
    pub fn query_available_to_claim(balance: u128, locked: u128) -> (r: Result<u128, VestingError>)
        ensures
            r == (if balance < locked {
                Err(VestingError::NotEnoughBalance)
            } else {
                Ok((balance - locked) as u128)
            }),
    {
        if balance < locked {
            return Err(VestingError::NotEnoughBalance);
        }
        Ok(balance - locked)
    }

    /// The amount a claim pays out; a claim of nothing is refused.
    pub fn claim(balance: u128, locked: u128) -> (r: Result<u128, VestingError>)
        ensures
            r == (if balance < locked {
                Err(VestingError::NotEnoughBalance)
            } else if balance == locked {
                Err(VestingError::NeverFullyVested)
            } else {
                Ok((balance - locked) as u128)
            }),
    {
        let available = Self::query_available_to_claim(balance, locked)?;
        if available == 0 {
            return Err(VestingError::NeverFullyVested);
        }
        Ok(available)
    }

    /// A transfer out of the vesting account must move a positive amount.
    pub fn transfer_token(amount: i128) -> (r: Result<u128, VestingError>)
        ensures
            r == (if amount <= 0 {
                Err(VestingError::InvalidTransferAmount)
            } else {
                Ok(amount as u128)
            }),
    {
        if amount <= 0 {
            return Err(VestingError::InvalidTransferAmount);
        }
        Ok(amount as u128)
    }

    /// A burn must destroy a positive amount that the token can represent.
    pub fn burn(amount: u128) -> (r: Result<i128, VestingError>)
        ensures
            r == (if amount == 0 || amount > i128::MAX {
                Err(VestingError::InvalidBurnAmount)
            } else {
                Ok(amount as i128)
            }),
    {
        if amount == 0 || amount > i128::MAX as u128 {
            return Err(VestingError::InvalidBurnAmount);
        }
        Ok(amount as i128)
    }
}

/// The sum of a sequence is at least the sum of any of its prefixes.
proof fn lemma_total_above(s: Seq<u128>, n: int)
    requires
        0 <= n <= s.len(),
    ensures
        total_of(s) >= total_of(s.subrange(0, n)),
    decreases s.len(),
{
    if n < s.len() {
        assert(s.drop_last().subrange(0, n) =~= s.subrange(0, n));
        lemma_total_above(s.drop_last(), n);
    } else {
        assert(s.subrange(0, n) =~= s);
    }
}

} // verus!
