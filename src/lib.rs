//! A shared-expense ledger: groups record expenses, each participant's net
//! balance is derived from them, and a greedy plan of transfers settles the
//! balances. Beside it, a guardian threshold-recovery state machine, a
//! group vault that accrues yield, badges, and a demonstration token.
//!
//! Every operation works on the entities it is handed and returns what
//! changed; storage, signatures and token transfers belong to the caller.

use vstd::prelude::*;

pub mod types;
pub mod settle;
pub mod balance;
pub mod contract;
pub mod vault;
pub mod token;

verus! {

} // verus!
