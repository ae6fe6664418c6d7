use vstd::prelude::*;

verus! {

/// A participant identity: an account or contract key of 256 bits, held as
/// its two 128-bit halves.
#[derive(Clone, Copy, Debug, PartialEq, Eq, Structural, Hash)]
pub struct Address {
    pub contract: bool,
    pub hi: u128,
    pub lo: u128,
}

/// A group of participants sharing expenses.
#[derive(Clone, Debug, PartialEq, Eq)]
pub struct Group {
    pub id: u64,
    pub name: String,
    pub members: Vec<Address>,
    pub token: Address,
    pub expense_count: u64,
}

/// One shared expense of a group.
#[derive(Clone, Debug, PartialEq, Eq)]
pub struct Expense {
    pub id: u64,
    pub payer: Address,
    pub amount: i128,
    pub split_among: Vec<Address>,
    pub description: String,
    pub category: String,
}

/// One directed transfer of a settlement plan.
#[derive(Clone, Copy, Debug, PartialEq, Eq, Structural)]
pub struct Settlement {
    pub from: Address,
    pub to: Address,
    pub amount: i128,
}

/// The guardians of an identity and how many of them must approve a recovery.
#[derive(Clone, Debug, PartialEq, Eq)]
pub struct GuardianConfig {
    pub user: Address,
    pub guardians: Vec<Address>,
    pub threshold: u32,
}

/// Where a recovery request stands.
#[derive(Clone, Copy, Debug, PartialEq, Eq, Structural)]
pub enum RecoveryStatus {
    Pending,
    Completed,
    Cancelled,
}

/// A request by guardians to hand control of `target` to `new_address`.
#[derive(Clone, Debug, PartialEq, Eq)]
pub struct RecoveryRequest {
    pub target: Address,
    pub new_address: Address,
    pub approvals: Vec<Address>,
    pub status: RecoveryStatus,
}

/// The funds that a group keeps staked, and the yield they earned.
#[derive(Clone, Copy, Debug, PartialEq, Eq, Structural)]
pub struct Vault {
    pub total_staked: i128,
    pub yield_earned: i128,
    pub total_donated: i128,
    pub last_update: u64,
    pub active: bool,
}

/// The badges that an identity holds, each once.
#[derive(Clone, Debug, PartialEq, Eq)]
pub struct UserBadges {
    pub badges: Vec<u32>,
}

/// Why an operation was rejected.
#[derive(Clone, Copy, Debug, PartialEq, Eq, Structural)]
pub enum Error {
    EmptyName,
    NameTooLong,
    TooFewMembers,
    DuplicateMember,
    AlreadySettled,
    NotAMember,
    PayerNotMember,
    AddByNonMember,
    RemoveByNonMember,
    StakeByNonMember,
    WithdrawByNonMember,
    DonateByNonMember,
    InvalidAmount,
    EmptySplit,
    NonMemberInSplit,
    NothingToCancel,
    ExpenseNotFound,
    NotOwner,
    AlreadyMember,
    MinMembersViolation,
    InvalidExpense,
    Overflow,
    NoGuardians,
    InvalidThreshold,
    NoGuardiansConfigured,
    NotAGuardian,
    NoActiveRequest,
    RequestNotPending,
    AlreadyApproved,
    InsufficientVaultBalance,
    InsufficientYield,
    AlreadyInitialized,
}

/// The text that describes each error.
pub open spec fn error_text(e: Error) -> Seq<char> {
    match e {
        Error::EmptyName => "group name cannot be empty"@,
        Error::NameTooLong => "group name too long (max 64 chars)"@,
        Error::TooFewMembers => "at least 2 members required"@,
        Error::DuplicateMember => "duplicate member detected"@,
        Error::AlreadySettled => "group is already settled"@,
        Error::NotAMember => "address is not a member"@,
        Error::PayerNotMember => "payer is not a member of the group"@,
        Error::AddByNonMember => "only a member can add someone"@,
        Error::RemoveByNonMember => "only a member can remove someone"@,
        Error::StakeByNonMember => "only members can stake"@,
        Error::WithdrawByNonMember => "only members can withdraw"@,
        Error::DonateByNonMember => "only members can donate yield"@,
        Error::InvalidAmount => "amount must be positive"@,
        Error::EmptySplit => "split_among cannot be empty"@,
        Error::NonMemberInSplit => "split_among contains non-member"@,
        Error::NothingToCancel => "no expenses to cancel"@,
        Error::ExpenseNotFound => "expense not found"@,
        Error::NotOwner => "only the payer can cancel this expense"@,
        Error::AlreadyMember => "address is already a member"@,
        Error::MinMembersViolation => "cannot remove: at least 2 members required"@,
        Error::InvalidExpense => "expense has a non-positive amount or an empty split"@,
        Error::Overflow => "amount total out of range"@,
        Error::NoGuardians => "at least one guardian required"@,
        Error::InvalidThreshold => "invalid threshold"@,
        Error::NoGuardiansConfigured => "no guardians set for target"@,
        Error::NotAGuardian => "caller is not a guardian"@,
        Error::NoActiveRequest => "no active recovery request"@,
        Error::RequestNotPending => "recovery request is not pending"@,
        Error::AlreadyApproved => "already approved"@,
        Error::InsufficientVaultBalance => "insufficient vault balance"@,
        Error::InsufficientYield => "insufficient yield to donate"@,
        Error::AlreadyInitialized => "already initialized"@,
    }
}

impl Error {
    /// The message that describes this error.
    pub fn message(&self) -> (r: &'static str)
        ensures
            r@ == error_text(*self),
    {
        match self {
            Error::EmptyName => "group name cannot be empty",
            Error::NameTooLong => "group name too long (max 64 chars)",
            Error::TooFewMembers => "at least 2 members required",
            Error::DuplicateMember => "duplicate member detected",
            Error::AlreadySettled => "group is already settled",
            Error::NotAMember => "address is not a member",
            Error::PayerNotMember => "payer is not a member of the group",
            Error::AddByNonMember => "only a member can add someone",
            Error::RemoveByNonMember => "only a member can remove someone",
            Error::StakeByNonMember => "only members can stake",
            Error::WithdrawByNonMember => "only members can withdraw",
            Error::DonateByNonMember => "only members can donate yield",
            Error::InvalidAmount => "amount must be positive",
            Error::EmptySplit => "split_among cannot be empty",
            Error::NonMemberInSplit => "split_among contains non-member",
            Error::NothingToCancel => "no expenses to cancel",
            Error::ExpenseNotFound => "expense not found",
            Error::NotOwner => "only the payer can cancel this expense",
            Error::AlreadyMember => "address is already a member",
            Error::MinMembersViolation => "cannot remove: at least 2 members required",
            Error::InvalidExpense => "expense has a non-positive amount or an empty split",
            Error::Overflow => "amount total out of range",
            Error::NoGuardians => "at least one guardian required",
            Error::InvalidThreshold => "invalid threshold",
            Error::NoGuardiansConfigured => "no guardians set for target",
            Error::NotAGuardian => "caller is not a guardian",
            Error::NoActiveRequest => "no active recovery request",
            Error::RequestNotPending => "recovery request is not pending",
            Error::AlreadyApproved => "already approved",
            Error::InsufficientVaultBalance => "insufficient vault balance",
            Error::InsufficientYield => "insufficient yield to donate",
            Error::AlreadyInitialized => "already initialized",
        }
    }
}

/// Whether `a` occurs in `s`.
pub fn contains_address(s: &Vec<Address>, a: Address) -> (r: bool)
    ensures
        r == s@.contains(a),
{
    let mut i: usize = 0;
    while i < s.len()
        invariant
            i <= s@.len(),
            forall|k: int| 0 <= k < i ==> s@[k] != a,
        decreases s@.len() - i,
    {
        if s[i] == a {
            assert(s@[i as int] == a);
            return true;
        }
        i += 1;
    }
    false
}

} // verus!
