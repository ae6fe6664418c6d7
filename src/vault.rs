use vstd::prelude::*;

use crate::contract::StellarSplitContract;
use crate::types::{contains_address, Address, Error, Group, UserBadges, Vault};

verus! {

/// Seconds in a year of 365 days.
pub const SECONDS_PER_YEAR: i128 = 31_536_000;

/// The yield rate, in thousandths per year.
pub const YIELD_PER_MILLE: i128 = 75;

/// The yield that `staked` earns in `secs` seconds, truncated.
pub open spec fn accrued(staked: int, secs: int) -> int {
    staked * YIELD_PER_MILLE * secs / (1000 * SECONDS_PER_YEAR)
}

/// The seconds from `last` to `now`, or zero when `now` is not later.
pub open spec fn elapsed(last: u64, now: u64) -> int {
    if now > last {
        now - last
    } else {
        0
    }
}

/// Whether accruing yield on `v` up to `now` leaves the range of `i128`.
pub open spec fn accrual_overflows(v: Vault, now: u64) -> bool {
    &&& v.active
    &&& v.total_staked > 0
    &&& elapsed(v.last_update, now) > 0
    &&& (v.total_staked * YIELD_PER_MILLE * elapsed(v.last_update, now) > i128::MAX
        || v.yield_earned + accrued(v.total_staked as int, elapsed(v.last_update, now))
        > i128::MAX || v.yield_earned + accrued(
        v.total_staked as int,
        elapsed(v.last_update, now),
    ) < i128::MIN)
}

/// `v` with its yield brought up to `now`.
pub open spec fn accrue(v: Vault, now: u64) -> Vault {
    if !v.active || v.total_staked <= 0 {
        Vault { last_update: now, ..v }
    } else if elapsed(v.last_update, now) > 0 {
        Vault {
            yield_earned: (v.yield_earned + accrued(
                v.total_staked as int,
                elapsed(v.last_update, now),
            )) as i128,
            last_update: now,
            ..v
        }
    } else {
        v
    }
}

impl Vault {
    /// The vault of a group that never staked, as of `now`.
    pub fn inactive(now: u64) -> (r: Vault)
        ensures
            r == (Vault {
                total_staked: 0,
                yield_earned: 0,
                total_donated: 0,
                last_update: now,
                active: false,
            }),
    {
        Vault { total_staked: 0, yield_earned: 0, total_donated: 0, last_update: now, active: false }
    }
}

impl StellarSplitContract {
    /// Brings the yield of `vault` up to `now`: an active vault with a
    /// positive stake earns 7.5% a year, by the second, truncated.
    pub fn compute_yield(vault: Vault, now: u64) -> (r: Result<Vault, Error>)
        ensures
            accrual_overflows(vault, now) ==> r == Err::<Vault, Error>(Error::Overflow),
            !accrual_overflows(vault, now) ==> r == Ok::<Vault, Error>(accrue(vault, now)),
    {
        let mut v = vault;
        if !v.active || v.total_staked <= 0 {
            v.last_update = now;
            return Ok(v);
        }
        let diff = now.saturating_sub(v.last_update);
        if diff > 0 {
            let per_year = match v.total_staked.checked_mul(YIELD_PER_MILLE) {
                Some(x) => x,
                None => {
                    proof {
                        assert(v.total_staked * YIELD_PER_MILLE * diff >= v.total_staked
                            * YIELD_PER_MILLE) by (nonlinear_arith)
                            requires
                                v.total_staked > 0,
                                diff >= 1,
                        ;
                    }
                    return Err(Error::Overflow);
                },
            };
            let scaled = match per_year.checked_mul(diff as i128) {
                Some(x) => x,
                None => {
                    return Err(Error::Overflow);
                },
            };
            proof {
                assert(scaled >= 0) by (nonlinear_arith)
                    requires
                        scaled == v.total_staked * YIELD_PER_MILLE * diff,
                        v.total_staked > 0,
                        diff >= 1,
                ;
            }
            let gained = scaled / (1000 * SECONDS_PER_YEAR);
            v.yield_earned = match v.yield_earned.checked_add(gained) {
                Some(x) => x,
                None => {
                    return Err(Error::Overflow);
                },
            };
            v.last_update = now;
        }
        Ok(v)
    }

    /// Records a stake of `amount` by the member `caller` in the group's
    /// vault, after bringing its yield up to `now`.
    pub fn stake(group: &Group, vault: Vault, caller: Address, amount: i128, now: u64) -> (r:
        Result<Vault, Error>)
        ensures
            amount <= 0 ==> r == Err::<Vault, Error>(Error::InvalidAmount),
            amount > 0 && !group.members@.contains(caller) ==> r == Err::<Vault, Error>(
                Error::StakeByNonMember,
            ),
            amount > 0 && group.members@.contains(caller) && accrual_overflows(vault, now) ==> r
                == Err::<Vault, Error>(Error::Overflow),
            amount > 0 && group.members@.contains(caller) && !accrual_overflows(vault, now)
                ==> {
                let v = accrue(vault, now);
                if v.total_staked + amount > i128::MAX {
                    r == Err::<Vault, Error>(Error::Overflow)
                } else {
                    r == Ok::<Vault, Error>(
                        Vault { total_staked: (v.total_staked + amount) as i128, active: true, ..v },
                    )
                }
            },
    {
        if amount <= 0 {
            return Err(Error::InvalidAmount);
        }
        if !contains_address(&group.members, caller) {
            return Err(Error::StakeByNonMember);
        }
        let mut v = Self::compute_yield(vault, now)?;
        v.total_staked = match v.total_staked.checked_add(amount) {
            Some(x) => x,
            None => {
                return Err(Error::Overflow);
            },
        };
        v.active = true;
        Ok(v)
    }

    /// Pays `amount` out of the group's vault to the member `caller`, from
    /// the yield first and then from the stake, after bringing the yield up
    /// to `now`. A vault whose stake reaches zero becomes inactive.
    pub fn withdraw(group: &Group, vault: Vault, caller: Address, amount: i128, now: u64) -> (r:
        Result<Vault, Error>)
        ensures
            amount <= 0 ==> r == Err::<Vault, Error>(Error::InvalidAmount),
            amount > 0 && !group.members@.contains(caller) ==> r == Err::<Vault, Error>(
                Error::WithdrawByNonMember,
            ),
            amount > 0 && group.members@.contains(caller) && accrual_overflows(vault, now) ==> r
                == Err::<Vault, Error>(Error::Overflow),
            amount > 0 && group.members@.contains(caller) && !accrual_overflows(vault, now)
                ==> {
                let v = accrue(vault, now);
                if v.total_staked + v.yield_earned > i128::MAX || v.total_staked + v.yield_earned
                    < i128::MIN {
                    r == Err::<Vault, Error>(Error::Overflow)
                } else if v.total_staked + v.yield_earned < amount {
                    r == Err::<Vault, Error>(Error::InsufficientVaultBalance)
                } else if v.yield_earned >= amount {
                    r == Ok::<Vault, Error>(
                        Vault {
                            yield_earned: (v.yield_earned - amount) as i128,
                            active: v.active && v.total_staked != 0,
                            ..v
                        },
                    )
                } else {
                    r == Ok::<Vault, Error>(
                        Vault {
                            yield_earned: 0,
                            total_staked: (v.total_staked - (amount - v.yield_earned)) as i128,
                            active: v.active && v.total_staked - (amount - v.yield_earned) != 0,
                            ..v
                        },
                    )
                }
            },
    {
        if amount <= 0 {
            return Err(Error::InvalidAmount);
        }
        if !contains_address(&group.members, caller) {
            return Err(Error::WithdrawByNonMember);
        }
        let mut v = Self::compute_yield(vault, now)?;
        let available = match v.total_staked.checked_add(v.yield_earned) {
            Some(x) => x,
            None => {
                return Err(Error::Overflow);
            },
        };
        if available < amount {
            return Err(Error::InsufficientVaultBalance);
        }
        if v.yield_earned >= amount {
            v.yield_earned = v.yield_earned - amount;
        } else {
            let remainder = amount - v.yield_earned;
            v.yield_earned = 0;
            v.total_staked = v.total_staked - remainder;
        }
        if v.total_staked == 0 {
            v.active = false;
        }
        Ok(v)
    }

    /// Gives `amount` of the vault's yield away on behalf of the member
    /// `caller`, after bringing the yield up to `now`.
    pub fn donate_yield(group: &Group, vault: Vault, caller: Address, amount: i128, now: u64) -> (r:
        Result<Vault, Error>)
        ensures
            amount <= 0 ==> r == Err::<Vault, Error>(Error::InvalidAmount),
            amount > 0 && !group.members@.contains(caller) ==> r == Err::<Vault, Error>(
                Error::DonateByNonMember,
            ),
            amount > 0 && group.members@.contains(caller) && accrual_overflows(vault, now) ==> r
                == Err::<Vault, Error>(Error::Overflow),
            amount > 0 && group.members@.contains(caller) && !accrual_overflows(vault, now)
                ==> {
                let v = accrue(vault, now);
                if v.yield_earned < amount {
                    r == Err::<Vault, Error>(Error::InsufficientYield)
                } else if v.total_donated + amount > i128::MAX {
                    r == Err::<Vault, Error>(Error::Overflow)
                } else {
                    r == Ok::<Vault, Error>(
                        Vault {
                            yield_earned: (v.yield_earned - amount) as i128,
                            total_donated: (v.total_donated + amount) as i128,
                            ..v
                        },
                    )
                }
            },
    {
        if amount <= 0 {
            return Err(Error::InvalidAmount);
        }
        if !contains_address(&group.members, caller) {
            return Err(Error::DonateByNonMember);
        }
        let mut v = Self::compute_yield(vault, now)?;
        if v.yield_earned < amount {
            return Err(Error::InsufficientYield);
        }
        let donated = match v.total_donated.checked_add(amount) {
            Some(x) => x,
            None => {
                return Err(Error::Overflow);
            },
        };
        v.yield_earned = v.yield_earned - amount;
        v.total_donated = donated;
        Ok(v)
    }

    /// Gives `badge_id` to the holder of `badges` unless it already holds
    /// it; returns whether it was new.
    pub fn award_badge(badges: &mut UserBadges, badge_id: u32) -> (r: bool)
        ensures
            r == !old(badges).badges@.contains(badge_id),
            r ==> final(badges).badges@ == old(badges).badges@.push(badge_id),
            !r ==> final(badges).badges == old(badges).badges,
    {
        let n = badges.badges.len();
        let mut i: usize = 0;
        while i < n
            invariant
                n == badges.badges@.len(),
                i <= n,
                badges.badges == old(badges).badges,
                forall|k: int| 0 <= k < i ==> badges.badges@[k] != badge_id,
            decreases n - i,
        {
            if badges.badges[i] == badge_id {
                assert(badges.badges@[i as int] == badge_id);
                return false;
            }
            i += 1;
        }
        badges.badges.push(badge_id);
        true
    }
}

} // verus!
