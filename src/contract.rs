use vstd::prelude::*;
use vstd::string::StrSliceExecFns;

use crate::balance::{balance_list, compute_balances, fits, postings, well_formed_expense};
use crate::settle::{compute_optimal_settlements, negatable, plan};
use crate::types::{
    contains_address, Address, Error, Expense, Group, GuardianConfig, RecoveryRequest,
    RecoveryStatus, Settlement,
};

verus! {

/// The longest group name, in characters.
pub const MAX_GROUP_NAME_LEN: usize = 64;

/// The fewest members a group may have.
pub const MIN_MEMBERS: usize = 2;

/// The operations of the shared-expense ledger and of guardian recovery.
///
/// Each operation takes the stored entities that it reads and returns or
/// updates the entities that it writes; where they are kept, and who signed
/// the call, is the caller's concern.
pub struct StellarSplitContract;

/// The member list of a new group: the given members, with the creator added
/// at the end when absent.
pub open spec fn with_creator(members: Seq<Address>, creator: Address) -> Seq<Address> {
    if members.contains(creator) {
        members
    } else {
        members.push(creator)
    }
}

/// Why a group with this name length and member list cannot be created, if
/// it cannot.
pub open spec fn create_group_error(name_len: nat, all_members: Seq<Address>) -> Option<Error> {
    if name_len == 0 {
        Some(Error::EmptyName)
    } else if name_len > MAX_GROUP_NAME_LEN {
        Some(Error::NameTooLong)
    } else if all_members.len() < MIN_MEMBERS {
        Some(Error::TooFewMembers)
    } else if !all_members.no_duplicates() {
        Some(Error::DuplicateMember)
    } else {
        None
    }
}

/// Why this expense cannot be added to a group with these members, if it
/// cannot.
pub open spec fn add_expense_error(
    members: Seq<Address>,
    settled: bool,
    expense_count: u64,
    payer: Address,
    amount: i128,
    split: Seq<Address>,
) -> Option<Error> {
    if settled {
        Some(Error::AlreadySettled)
    } else if !members.contains(payer) {
        Some(Error::PayerNotMember)
    } else if amount <= 0 {
        Some(Error::InvalidAmount)
    } else if split.len() == 0 {
        Some(Error::EmptySplit)
    } else if exists|k: int| 0 <= k < split.len() && !members.contains(#[trigger] split[k]) {
        Some(Error::NonMemberInSplit)
    } else if expense_count == u64::MAX {
        Some(Error::Overflow)
    } else {
        None
    }
}

/// Why the newest expense cannot be cancelled by `caller`, if it cannot.
pub open spec fn cancel_error(
    settled: bool,
    expense_count: u64,
    last: Option<&Expense>,
    caller: Address,
) -> Option<Error> {
    if settled {
        Some(Error::AlreadySettled)
    } else if expense_count == 0 {
        Some(Error::NothingToCancel)
    } else if last is None || last.unwrap().id != expense_count - 1 {
        Some(Error::ExpenseNotFound)
    } else if last.unwrap().payer != caller {
        Some(Error::NotOwner)
    } else {
        None
    }
}

/// The list `s` without any entry equal to `a`, order kept.
pub open spec fn without(s: Seq<Address>, a: Address) -> Seq<Address>
    decreases s.len(),
{
    if s.len() == 0 {
        seq![]
    } else if s.last() == a {
        without(s.drop_last(), a)
    } else {
        without(s.drop_last(), a).push(s.last())
    }
}

/// Why the balances of these expenses can not be computed, if they cannot:
/// an expense is malformed, or a running balance leaves the range of `i128`.
pub open spec fn expenses_error(exps: Seq<Expense>) -> Option<Error> {
    if exists|k: int| 0 <= k < exps.len() && !well_formed_expense(#[trigger] exps[k]) {
        Some(Error::InvalidExpense)
    } else if !fits(postings(exps)) {
        Some(Error::Overflow)
    } else {
        None
    }
}

/// Why the settlement plan of these expenses can not be computed, if it
/// cannot: as for the balances, or a balance is `i128::MIN`, whose debt does
/// not fit in `i128`.
pub open spec fn settlement_error(exps: Seq<Expense>) -> Option<Error> {
    if expenses_error(exps) is Some {
        expenses_error(exps)
    } else if !negatable(balance_list(exps)) {
        Some(Error::Overflow)
    } else {
        None
    }
}

/// Why `guardian` cannot approve `request` under `config`, if it cannot.
pub open spec fn approve_error(
    request: Option<RecoveryRequest>,
    config: Option<&GuardianConfig>,
    guardian: Address,
) -> Option<Error> {
    if request is None {
        Some(Error::NoActiveRequest)
    } else if request.unwrap().status != RecoveryStatus::Pending {
        Some(Error::RequestNotPending)
    } else if config is None {
        Some(Error::NoGuardiansConfigured)
    } else if !config.unwrap().guardians@.contains(guardian) {
        Some(Error::NotAGuardian)
    } else if request.unwrap().approvals@.contains(guardian) {
        Some(Error::AlreadyApproved)
    } else {
        None
    }
}

/// Whether two entries of `v` are equal.
fn has_duplicates(v: &Vec<Address>) -> (r: bool)
    ensures
        r == !v@.no_duplicates(),
{
    let n = v.len();
    let mut i: usize = 0;
    while i < n
        invariant
            n == v@.len(),
            i <= n,
            forall|a: int, b: int| 0 <= a < i && a < b < n ==> v@[a] != v@[b],
        decreases n - i,
    {
        let mut j: usize = i + 1;
        while j < n
            invariant
                n == v@.len(),
                i < n,
                i + 1 <= j <= n,
                forall|a: int, b: int| 0 <= a < i && a < b < n ==> v@[a] != v@[b],
                forall|b: int| i < b < j ==> v@[i as int] != v@[b],
            decreases n - j,
        {
            if v[i] == v[j] {
                return true;
            }
            j += 1;
        }
        i += 1;
    }
    false
}

/// Whether every entry of `s` occurs in `members`.
fn all_members(s: &Vec<Address>, members: &Vec<Address>) -> (r: bool)
    ensures
        r == (forall|k: int| 0 <= k < s@.len() ==> members@.contains(#[trigger] s@[k])),
{
    let n = s.len();
    let mut i: usize = 0;
    while i < n
        invariant
            n == s@.len(),
            i <= n,
            forall|k: int| 0 <= k < i ==> members@.contains(#[trigger] s@[k]),
        decreases n - i,
    {
        if !contains_address(members, s[i]) {
            return false;
        }
        i += 1;
    }
    true
}

/// Checks that every expense is well formed.
fn check_expenses(expenses: &Vec<Expense>) -> (r: bool)
    ensures
        r == (forall|k: int| 0 <= k < expenses@.len() ==> well_formed_expense(#[trigger] expenses@[k])),
{
    let n = expenses.len();
    let mut i: usize = 0;
    while i < n
        invariant
            n == expenses@.len(),
            i <= n,
            forall|k: int| 0 <= k < i ==> well_formed_expense(#[trigger] expenses@[k]),
        decreases n - i,
    {
        if expenses[i].amount <= 0 || expenses[i].split_among.len() == 0 {
            assert(!well_formed_expense(expenses@[i as int]));
            return false;
        }
        i += 1;
    }
    true
}

/// Whether no balance of `b` is `i128::MIN`.
fn all_negatable(b: &Vec<(Address, i128)>) -> (r: bool)
    ensures
        r == negatable(b@),
{
    let n = b.len();
    let mut i: usize = 0;
    while i < n
        invariant
            n == b@.len(),
            i <= n,
            forall|k: int| 0 <= k < i ==> b@[k].1 > i128::MIN,
        decreases n - i,
    {
        if b[i].1 == i128::MIN {
            return false;
        }
        i += 1;
    }
    true
}

impl StellarSplitContract {
    /// Creates group `group_id` from `members`, with `creator` added when
    /// absent. The name must hold 1 to 64 characters; the member list must
    /// hold at least two entries, all distinct.
    pub fn create_group(
        group_id: u64,
        creator: Address,
        name: String,
        members: Vec<Address>,
        token: Address,
    ) -> (r: Result<Group, Error>)
        ensures
            match r {
                Ok(g) => {
                    &&& create_group_error(name@.len(), with_creator(members@, creator)) is None
                    &&& g.id == group_id
                    &&& g.name@ == name@
                    &&& g.members@ == with_creator(members@, creator)
                    &&& g.token == token
                    &&& g.expense_count == 0
                },
                Err(e) => create_group_error(name@.len(), with_creator(members@, creator)) == Some(
                    e,
                ),
            },
    {
        let name_len = name.as_str().unicode_len();
        if name_len == 0 {
            return Err(Error::EmptyName);
        }
        if name_len > MAX_GROUP_NAME_LEN {
            return Err(Error::NameTooLong);
        }
        let mut all = members;
        if !contains_address(&all, creator) {
            all.push(creator);
        }
        if all.len() < MIN_MEMBERS {
            return Err(Error::TooFewMembers);
        }
        if has_duplicates(&all) {
            return Err(Error::DuplicateMember);
        }
        Ok(Group { id: group_id, name, members: all, token, expense_count: 0 })
    }

    /// Adds an expense of `amount` paid by `payer` and split among
    /// `split_among` to `group`, under the next expense id.
    pub fn add_expense(
        group: &mut Group,
        settled: bool,
        payer: Address,
        amount: i128,
        split_among: Vec<Address>,
        description: String,
        category: String,
    ) -> (r: Result<Expense, Error>)
        ensures
            settled ==> r == Err::<Expense, Error>(Error::AlreadySettled),
            final(group).id == old(group).id,
            final(group).name == old(group).name,
            final(group).members == old(group).members,
            final(group).token == old(group).token,
            match r {
                Ok(e) => {
                    &&& add_expense_error(
                        old(group).members@,
                        settled,
                        old(group).expense_count,
                        payer,
                        amount,
                        split_among@,
                    ) is None
                    &&& e.id == old(group).expense_count
                    &&& e.payer == payer
                    &&& e.amount == amount
                    &&& e.split_among@ == split_among@
                    &&& e.description@ == description@
                    &&& e.category@ == category@
                    &&& well_formed_expense(e)
                    &&& final(group).expense_count == old(group).expense_count + 1
                },
                Err(err) => {
                    &&& add_expense_error(
                        old(group).members@,
                        settled,
                        old(group).expense_count,
                        payer,
                        amount,
                        split_among@,
                    ) == Some(err)
                    &&& final(group).expense_count == old(group).expense_count
                },
            },
    {
        if settled {
            return Err(Error::AlreadySettled);
        }
        if !contains_address(&group.members, payer) {
            return Err(Error::PayerNotMember);
        }
        if amount <= 0 {
            return Err(Error::InvalidAmount);
        }
        if split_among.len() == 0 {
            return Err(Error::EmptySplit);
        }
        if !all_members(&split_among, &group.members) {
            return Err(Error::NonMemberInSplit);
        }
        if group.expense_count == u64::MAX {
            return Err(Error::Overflow);
        }
        let id = group.expense_count;
        group.expense_count = id + 1;
        Ok(Expense { id, payer, amount, split_among, description, category })
    }

    /// Cancels the newest expense of `group`, which `last` holds, on behalf of
    /// its payer; returns the id of the expense to remove. Only the newest
    /// expense can be cancelled, and the next one added takes its id.
    pub fn cancel_last_expense(
        group: &mut Group,
        settled: bool,
        last: Option<&Expense>,
        caller: Address,
    ) -> (r: Result<u64, Error>)
        ensures
            final(group).id == old(group).id,
            final(group).name == old(group).name,
            final(group).members == old(group).members,
            final(group).token == old(group).token,
            match r {
                Ok(id) => {
                    &&& cancel_error(settled, old(group).expense_count, last, caller) is None
                    &&& id == old(group).expense_count - 1
                    &&& final(group).expense_count == id
                },
                Err(e) => {
                    &&& cancel_error(settled, old(group).expense_count, last, caller) == Some(e)
                    &&& final(group).expense_count == old(group).expense_count
                },
            },
    {
        if settled {
            return Err(Error::AlreadySettled);
        }
        if group.expense_count == 0 {
            return Err(Error::NothingToCancel);
        }
        let last_id = group.expense_count - 1;
        match last {
            None => Err(Error::ExpenseNotFound),
            Some(e) => {
                if e.id != last_id {
                    Err(Error::ExpenseNotFound)
                } else if e.payer != caller {
                    Err(Error::NotOwner)
                } else {
                    group.expense_count = last_id;
                    Ok(last_id)
                }
            },
        }
    }

    /// Adds `new_member` to `group` on behalf of the member `caller`.
    pub fn add_member(
        group: &mut Group,
        settled: bool,
        caller: Address,
        new_member: Address,
    ) -> (r: Result<(), Error>)
        ensures
            final(group).id == old(group).id,
            final(group).name == old(group).name,
            final(group).token == old(group).token,
            final(group).expense_count == old(group).expense_count,
            settled ==> r == Err::<(), Error>(Error::AlreadySettled),
            !settled && !old(group).members@.contains(caller) ==> r == Err::<(), Error>(
                Error::AddByNonMember,
            ),
            !settled && old(group).members@.contains(caller) && old(group).members@.contains(
                new_member,
            ) ==> r == Err::<(), Error>(Error::AlreadyMember),
            !settled && old(group).members@.contains(caller) && !old(group).members@.contains(
                new_member,
            ) ==> r is Ok,
            r is Ok ==> final(group).members@ == old(group).members@.push(new_member),
            r is Err ==> final(group).members == old(group).members,
            old(group).members@.no_duplicates() ==> final(group).members@.no_duplicates(),
    {
        if settled {
            return Err(Error::AlreadySettled);
        }
        if !contains_address(&group.members, caller) {
            return Err(Error::AddByNonMember);
        }
        if contains_address(&group.members, new_member) {
            return Err(Error::AlreadyMember);
        }
        group.members.push(new_member);
        proof {
            let s = final(group).members@;
            assert forall|i: int, j: int|
                old(group).members@.no_duplicates() && 0 <= i < j < s.len() implies s[i]
                != s[j] by {
                if j == s.len() - 1 {
                    assert(old(group).members@[i] != new_member);
                }
            }
        }
        Ok(())
    }

    /// Removes `member` from `group` on behalf of the member `caller`. The
    /// expenses already recorded are left as they are.
    pub fn remove_member(
        group: &mut Group,
        settled: bool,
        caller: Address,
        member: Address,
    ) -> (r: Result<(), Error>)
        ensures
            final(group).id == old(group).id,
            final(group).name == old(group).name,
            final(group).token == old(group).token,
            final(group).expense_count == old(group).expense_count,
            settled ==> r == Err::<(), Error>(Error::AlreadySettled),
            !settled && !old(group).members@.contains(caller) ==> r == Err::<(), Error>(
                Error::RemoveByNonMember,
            ),
            !settled && old(group).members@.contains(caller) && old(group).members@.len()
                <= MIN_MEMBERS ==> r == Err::<(), Error>(Error::MinMembersViolation),
            !settled && old(group).members@.contains(caller) && old(group).members@.len()
                > MIN_MEMBERS && !old(group).members@.contains(member) ==> r == Err::<(), Error>(
                Error::NotAMember,
            ),
            !settled && old(group).members@.contains(caller) && old(group).members@.len()
                > MIN_MEMBERS && old(group).members@.contains(member) ==> r is Ok,
            r is Ok ==> final(group).members@ == without(old(group).members@, member),
            r is Err ==> final(group).members == old(group).members,
    {
        if settled {
            return Err(Error::AlreadySettled);
        }
        if !contains_address(&group.members, caller) {
            return Err(Error::RemoveByNonMember);
        }
        if group.members.len() <= MIN_MEMBERS {
            return Err(Error::MinMembersViolation);
        }
        let n = group.members.len();
        let mut kept: Vec<Address> = Vec::new();
        let mut i: usize = 0;
        while i < n
            invariant
                n == group.members@.len(),
                i <= n,
                kept@ == without(group.members@.subrange(0, i as int), member),
                kept@.len() == i ==> forall|k: int| 0 <= k < i ==> group.members@[k] != member,
                kept@.len() <= i,
            decreases n - i,
        {
            let m = group.members[i];
            proof {
                assert(group.members@.subrange(0, i + 1).drop_last() =~= group.members@.subrange(
                    0,
                    i as int,
                ));
                lemma_without_len(group.members@.subrange(0, i as int), member);
            }
            if m != member {
                kept.push(m);
            }
            i += 1;
        }
        proof {
            assert(group.members@.subrange(0, n as int) =~= group.members@);
        }
        if kept.len() == n {
            proof {
                assert(!group.members@.contains(member));
            }
            return Err(Error::NotAMember);
        }
        proof {
            assert(group.members@.contains(member)) by {
                if !group.members@.contains(member) {
                    lemma_without_absent(group.members@, member);
                }
            }
        }
        group.members = kept;
        Ok(())
    }

    /// The net balance of every participant of `expenses`, in the order in
    /// which the expenses first name them. Every expense must have a positive
    /// amount and a non-empty split, and every running balance must stay
    /// within the range of `i128`.
    pub fn get_balances(expenses: &Vec<Expense>) -> (r: Result<Vec<(Address, i128)>, Error>)
        ensures
            match r {
                Ok(b) => expenses_error(expenses@) is None && b@ == balance_list(expenses@),
                Err(e) => expenses_error(expenses@) == Some(e),
            },
    {
        if !check_expenses(expenses) {
            return Err(Error::InvalidExpense);
        }
        match compute_balances(expenses) {
            Some(b) => Ok(b),
            None => Err(Error::Overflow),
        }
    }

    /// The settlement plan of the balances of `expenses`.
    pub fn compute_settlements(expenses: &Vec<Expense>) -> (r: Result<Vec<Settlement>, Error>)
        ensures
            match r {
                Ok(s) => settlement_error(expenses@) is None && s@ == plan(balance_list(expenses@)),
                Err(e) => settlement_error(expenses@) == Some(e),
            },
    {
        let b = Self::get_balances(expenses)?;
        if !all_negatable(&b) {
            return Err(Error::Overflow);
        }
        Ok(compute_optimal_settlements(&b))
    }

    /// Settles a group: returns the transfers that settle the balances of
    /// `expenses` and marks the group settled. A settled group cannot be
    /// settled again.
    pub fn settle_group(settled: &mut bool, expenses: &Vec<Expense>) -> (r: Result<
        Vec<Settlement>,
        Error,
    >)
        ensures
            *old(settled) ==> r == Err::<Vec<Settlement>, Error>(Error::AlreadySettled),
            match r {
                Ok(s) => {
                    &&& !*old(settled)
                    &&& settlement_error(expenses@) is None
                    &&& s@ == plan(balance_list(expenses@))
                    &&& *final(settled)
                },
                Err(e) => {
                    &&& *old(settled) || settlement_error(expenses@) == Some(e)
                    &&& *final(settled) == *old(settled)
                },
            },
    {
        if *settled {
            return Err(Error::AlreadySettled);
        }
        let plan_v = Self::compute_settlements(expenses)?;
        *settled = true;
        Ok(plan_v)
    }

    /// Sets `guardians` as the guardians of `user`, `threshold` of whom must
    /// approve a recovery.
    pub fn set_guardians(user: Address, guardians: Vec<Address>, threshold: u32) -> (r: Result<
        GuardianConfig,
        Error,
    >)
        ensures
            guardians@.len() == 0 ==> r == Err::<GuardianConfig, Error>(Error::NoGuardians),
            guardians@.len() > 0 && (threshold == 0 || threshold > guardians@.len()) ==> r
                == Err::<GuardianConfig, Error>(Error::InvalidThreshold),
            guardians@.len() > 0 && 1 <= threshold <= guardians@.len() ==> r is Ok,
            r matches Ok(c) ==> c.user == user && c.guardians@ == guardians@ && c.threshold
                == threshold,
    {
        if guardians.len() == 0 {
            return Err(Error::NoGuardians);
        }
        if threshold == 0 || threshold as usize > guardians.len() {
            return Err(Error::InvalidThreshold);
        }
        Ok(GuardianConfig { user, guardians, threshold })
    }

    /// Opens a recovery of `target` to `new_address` by one of its guardians,
    /// who is its first approval. It replaces any earlier request for
    /// `target`.
    pub fn initiate_recovery(
        config: Option<&GuardianConfig>,
        guardian: Address,
        target: Address,
        new_address: Address,
    ) -> (r: Result<RecoveryRequest, Error>)
        ensures
            config is None ==> r == Err::<RecoveryRequest, Error>(Error::NoGuardiansConfigured),
            config matches Some(c) && !c.guardians@.contains(guardian) ==> r == Err::<
                RecoveryRequest,
                Error,
            >(Error::NotAGuardian),
            config matches Some(c) && c.guardians@.contains(guardian) ==> r is Ok,
            r matches Ok(q) ==> q.target == target && q.new_address == new_address
                && q.approvals@ == seq![guardian] && q.status == RecoveryStatus::Pending,
    {
        match config {
            None => Err(Error::NoGuardiansConfigured),
            Some(c) => {
                if !contains_address(&c.guardians, guardian) {
                    return Err(Error::NotAGuardian);
                }
                let mut approvals: Vec<Address> = Vec::new();
                approvals.push(guardian);
                Ok(RecoveryRequest { target, new_address, approvals, status: RecoveryStatus::Pending })
            },
        }
    }

    /// Records the approval of `guardian` on the pending `request`; the
    /// request is completed by the approval that brings the count of
    /// approvals to the threshold.
    pub fn approve_recovery(
        request: Option<RecoveryRequest>,
        config: Option<&GuardianConfig>,
        guardian: Address,
    ) -> (r: Result<RecoveryRequest, Error>)
        ensures
            match r {
                Ok(q) => {
                    let old_q = request.unwrap();
                    &&& approve_error(request, config, guardian) is None
                    &&& q.target == old_q.target
                    &&& q.new_address == old_q.new_address
                    &&& q.approvals@ == old_q.approvals@.push(guardian)
                    &&& q.status == if q.approvals@.len() >= config.unwrap().threshold {
                        RecoveryStatus::Completed
                    } else {
                        RecoveryStatus::Pending
                    }
                },
                Err(e) => approve_error(request, config, guardian) == Some(e),
            },
    {
        let mut q = match request {
            None => {
                return Err(Error::NoActiveRequest);
            },
            Some(q) => q,
        };
        if q.status != RecoveryStatus::Pending {
            return Err(Error::RequestNotPending);
        }
        let c = match config {
            None => {
                return Err(Error::NoGuardiansConfigured);
            },
            Some(c) => c,
        };
        if !contains_address(&c.guardians, guardian) {
            return Err(Error::NotAGuardian);
        }
        if contains_address(&q.approvals, guardian) {
            return Err(Error::AlreadyApproved);
        }
        q.approvals.push(guardian);
        if q.approvals.len() >= c.threshold as usize {
            q.status = RecoveryStatus::Completed;
        }
        Ok(q)
    }
}

proof fn lemma_without_len(s: Seq<Address>, a: Address)
    ensures
        without(s, a).len() <= s.len(),
        without(s, a).len() == s.len() ==> forall|k: int| 0 <= k < s.len() ==> s[k] != a,
    decreases s.len(),
{
    if s.len() > 0 {
        lemma_without_len(s.drop_last(), a);
        assert forall|k: int| 0 <= k < s.len() - 1 implies s.drop_last()[k] == s[k] by {}
    }
}

proof fn lemma_without_absent(s: Seq<Address>, a: Address)
    requires
        !s.contains(a),
    ensures
        without(s, a) == s,
    decreases s.len(),
{
    if s.len() > 0 {
        assert(!s.drop_last().contains(a)) by {
            if s.drop_last().contains(a) {
                let k = choose|k: int| 0 <= k < s.drop_last().len() && s.drop_last()[k] == a;
                assert(s[k] == a);
            }
        }
        lemma_without_absent(s.drop_last(), a);
        assert(s.drop_last().push(s.last()) =~= s);
    }
}

} // verus!
