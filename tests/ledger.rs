use stellar_split::contract::StellarSplitContract;
use stellar_split::types::{Address, Error, Expense, Group, Settlement};

fn addr(n: u128) -> Address {
    Address { contract: false, hi: 0, lo: n }
}

fn token() -> Address {
    Address { contract: true, hi: 7, lo: 7 }
}

/// Keeps groups, their expenses and their settled flags in memory, the way a
/// store would, and calls the library on them.
struct Ledger {
    groups: Vec<Group>,
    expenses: Vec<Vec<Expense>>,
    settled: Vec<bool>,
}

impl Ledger {
    fn new() -> Ledger {
        Ledger { groups: Vec::new(), expenses: Vec::new(), settled: Vec::new() }
    }

    fn create_group(&mut self, creator: Address, name: &str, members: Vec<Address>) -> Result<u64, Error> {
        let id = self.groups.len() as u64;
        let g = StellarSplitContract::create_group(id, creator, name.to_string(), members, token())?;
        self.groups.push(g);
        self.expenses.push(Vec::new());
        self.settled.push(false);
        Ok(id)
    }

    fn add_expense(
        &mut self,
        group_id: u64,
        payer: Address,
        amount: i128,
        split: Vec<Address>,
        description: &str,
        category: &str,
    ) -> Result<u64, Error> {
        let i = group_id as usize;
        let e = StellarSplitContract::add_expense(
            &mut self.groups[i],
            self.settled[i],
            payer,
            amount,
            split,
            description.to_string(),
            category.to_string(),
        )?;
        let id = e.id;
        self.expenses[i].push(e);
        Ok(id)
    }

    fn cancel_last_expense(&mut self, group_id: u64, caller: Address) -> Result<u64, Error> {
        let i = group_id as usize;
        let last = self.expenses[i].last();
        let id = StellarSplitContract::cancel_last_expense(&mut self.groups[i], self.settled[i], last, caller)?;
        self.expenses[i].pop();
        Ok(id)
    }

    fn get_balances(&self, group_id: u64) -> Vec<(Address, i128)> {
        StellarSplitContract::get_balances(&self.expenses[group_id as usize]).unwrap()
    }

    fn balance(&self, group_id: u64, a: Address) -> i128 {
        self.get_balances(group_id).iter().find(|(who, _)| *who == a).unwrap().1
    }

    fn compute_settlements(&self, group_id: u64) -> Vec<Settlement> {
        StellarSplitContract::compute_settlements(&self.expenses[group_id as usize]).unwrap()
    }

    fn settle_group(&mut self, group_id: u64) -> Result<Vec<Settlement>, Error> {
        let i = group_id as usize;
        StellarSplitContract::settle_group(&mut self.settled[i], &self.expenses[i])
    }
}

#[test]
fn test_create_group() {
    let mut l = Ledger::new();
    let creator = addr(1);
    let member2 = addr(2);
    let member3 = addr(3);
    let group_id = l.create_group(creator, "Trip", vec![creator, member2, member3]).unwrap();
    assert_eq!(group_id, 0);
    assert_eq!(l.groups[group_id as usize].members.len(), 3);
}

#[test]
fn test_create_group_adds_creator() {
    let mut l = Ledger::new();
    let creator = addr(1);
    let member2 = addr(2);
    let group_id = l.create_group(creator, "Dinner", vec![member2]).unwrap();
    assert_eq!(l.groups[group_id as usize].members.len(), 2);
    assert_eq!(l.groups[group_id as usize].members, vec![member2, creator]);
}

#[test]
fn test_create_multiple_groups_sequential_ids() {
    let mut l = Ledger::new();
    let a = addr(1);
    let b = addr(2);
    let id1 = l.create_group(a, "G1", vec![a, b]).unwrap();
    let id2 = l.create_group(a, "G2", vec![a, b]).unwrap();
    let id3 = l.create_group(a, "G3", vec![a, b]).unwrap();
    assert_eq!(id1, 0);
    assert_eq!(id2, 1);
    assert_eq!(id3, 2);
    for (k, g) in l.groups.iter().enumerate() {
        assert_eq!(g.id, k as u64);
        assert_eq!(g.expense_count, 0);
    }
    let g = StellarSplitContract::create_group(id3 + 1, a, "G4".to_string(), vec![a, b], token()).unwrap();
    assert_eq!(g.id, 3);
}

#[test]
fn test_empty_group_name() {
    let mut l = Ledger::new();
    let a = addr(1);
    let b = addr(2);
    let r = l.create_group(a, "", vec![a, b]);
    assert_eq!(r, Err(Error::EmptyName));
    assert_eq!(Error::EmptyName.message(), "group name cannot be empty");
}

#[test]
fn test_min_members() {
    let mut l = Ledger::new();
    let a = addr(1);
    let r = l.create_group(a, "Solo", vec![a]);
    assert_eq!(r, Err(Error::TooFewMembers));
    assert_eq!(Error::TooFewMembers.message(), "at least 2 members required");
}

#[test]
fn test_duplicate_members() {
    let mut l = Ledger::new();
    let a = addr(1);
    let b = addr(2);
    let r = l.create_group(a, "Dup", vec![a, b, b]);
    assert_eq!(r, Err(Error::DuplicateMember));
    assert_eq!(Error::DuplicateMember.message(), "duplicate member detected");
}

#[test]
fn test_large_group_10_members() {
    let mut l = Ledger::new();
    let creator = addr(1);
    let mut members = vec![creator];
    for i in 0..9u128 {
        members.push(addr(100 + i));
    }
    let group_id = l.create_group(creator, "Big", members).unwrap();
    assert_eq!(l.groups[group_id as usize].members.len(), 10);
}

#[test]
fn test_add_expense_and_balances() {
    let mut l = Ledger::new();
    let alice = addr(1);
    let bob = addr(2);
    let carol = addr(3);
    let group_id = l.create_group(alice, "Trip", vec![alice, bob, carol]).unwrap();
    l.add_expense(group_id, alice, 90, vec![alice, bob, carol], "Restaurant", "food").unwrap();
    assert_eq!(l.balance(group_id, alice), 60);
    assert_eq!(l.balance(group_id, bob), -30);
    assert_eq!(l.balance(group_id, carol), -30);
}

#[test]
fn test_single_expense_two_people() {
    let mut l = Ledger::new();
    let alice = addr(1);
    let bob = addr(2);
    let group_id = l.create_group(alice, "1on1", vec![alice, bob]).unwrap();
    l.add_expense(group_id, alice, 100, vec![alice, bob], "Lunch", "food").unwrap();
    assert_eq!(l.balance(group_id, alice), 50);
    assert_eq!(l.balance(group_id, bob), -50);
}

#[test]
fn test_multiple_expenses_balance_sum_zero() {
    let mut l = Ledger::new();
    let alice = addr(1);
    let bob = addr(2);
    let carol = addr(3);
    let dave = addr(4);
    let all = vec![alice, bob, carol, dave];
    let group_id = l.create_group(alice, "Vacation", all.clone()).unwrap();
    l.add_expense(group_id, alice, 100, all.clone(), "Hotel", "accommodation").unwrap();
    l.add_expense(group_id, bob, 80, all.clone(), "Car", "transport").unwrap();
    l.add_expense(group_id, carol, 40, all.clone(), "Food", "food").unwrap();
    let total: i128 = l.get_balances(group_id).iter().map(|(_, b)| *b).sum();
    assert_eq!(total, 0);
}

#[test]
fn test_many_expenses_correct_totals() {
    let mut l = Ledger::new();
    let a = addr(1);
    let b = addr(2);
    let c = addr(3);
    let group_id = l.create_group(a, "ManyExp", vec![a, b, c]).unwrap();
    for _ in 0..10u32 {
        l.add_expense(group_id, a, 30, vec![a, b, c], "Exp", "").unwrap();
    }
    assert_eq!(l.balance(group_id, a), 200);
    assert_eq!(l.balance(group_id, b), -100);
    assert_eq!(l.balance(group_id, c), -100);
}

#[test]
fn test_invalid_expense_amount() {
    let mut l = Ledger::new();
    let alice = addr(1);
    let bob = addr(2);
    let group_id = l.create_group(alice, "Test", vec![alice, bob]).unwrap();
    let r = l.add_expense(group_id, alice, 0, vec![alice, bob], "Invalid", "");
    assert_eq!(r, Err(Error::InvalidAmount));
    assert_eq!(Error::InvalidAmount.message(), "amount must be positive");
}

#[test]
fn test_non_member_expense() {
    let mut l = Ledger::new();
    let alice = addr(1);
    let bob = addr(2);
    let outsider = addr(9);
    let group_id = l.create_group(alice, "Test", vec![alice, bob]).unwrap();
    let r = l.add_expense(group_id, outsider, 50, vec![alice, bob], "Invalid", "");
    assert_eq!(r, Err(Error::PayerNotMember));
    assert_eq!(Error::PayerNotMember.message(), "payer is not a member of the group");
}

#[test]
fn test_empty_split_among() {
    let mut l = Ledger::new();
    let a = addr(1);
    let b = addr(2);
    let group_id = l.create_group(a, "Test", vec![a, b]).unwrap();
    let r = l.add_expense(group_id, a, 100, Vec::new(), "Bad", "");
    assert_eq!(r, Err(Error::EmptySplit));
    assert_eq!(Error::EmptySplit.message(), "split_among cannot be empty");
}

#[test]
fn test_split_among_non_member() {
    let mut l = Ledger::new();
    let a = addr(1);
    let b = addr(2);
    let outsider = addr(9);
    let group_id = l.create_group(a, "Test", vec![a, b]).unwrap();
    let r = l.add_expense(group_id, a, 100, vec![a, outsider], "Bad", "");
    assert_eq!(r, Err(Error::NonMemberInSplit));
    assert_eq!(Error::NonMemberInSplit.message(), "split_among contains non-member");
}

#[test]
fn test_compute_settlements() {
    let mut l = Ledger::new();
    let alice = addr(1);
    let bob = addr(2);
    let carol = addr(3);
    let group_id = l.create_group(alice, "Trip", vec![alice, bob, carol]).unwrap();
    l.add_expense(group_id, alice, 90, vec![alice, bob, carol], "Dinner", "food").unwrap();
    let settlements = l.compute_settlements(group_id);
    assert_eq!(settlements.len(), 2);
    let mut total_settled: i128 = 0;
    for s in settlements.iter() {
        assert!(s.amount > 0);
        total_settled += s.amount;
    }
    assert_eq!(total_settled, 60);
}

#[test]
fn test_settlement_count_optimal() {
    let mut l = Ledger::new();
    let alice = addr(1);
    let bob = addr(2);
    let carol = addr(3);
    let dave = addr(4);
    let all = vec![alice, bob, carol, dave];
    let group_id = l.create_group(alice, "Big Trip", all.clone()).unwrap();
    l.add_expense(group_id, alice, 200, all.clone(), "Hotel", "accommodation").unwrap();
    l.add_expense(group_id, bob, 80, all.clone(), "Taxi", "transport").unwrap();
    l.add_expense(group_id, carol, 40, all.clone(), "Snacks", "food").unwrap();
    l.add_expense(group_id, alice, 120, all.clone(), "Restaurant", "food").unwrap();
    l.add_expense(group_id, dave, 60, all.clone(), "Museum", "entertainment").unwrap();
    let settlements = l.compute_settlements(group_id);
    assert!(settlements.len() <= 3);
    for s in settlements.iter() {
        assert!(s.amount > 0);
    }
}

#[test]
fn test_settlement_idempotent() {
    let mut l = Ledger::new();
    let a = addr(1);
    let b = addr(2);
    let c = addr(3);
    let group_id = l.create_group(a, "Idem", vec![a, b, c]).unwrap();
    l.add_expense(group_id, a, 90, vec![a, b, c], "D", "").unwrap();
    let s1 = l.compute_settlements(group_id);
    let s2 = l.compute_settlements(group_id);
    assert_eq!(s1.len(), s2.len());
    for i in 0..s1.len() {
        assert_eq!(s1[i].amount, s2[i].amount);
    }
    assert_eq!(s1, s2);
}

#[test]
fn test_is_settled_default_false() {
    let mut l = Ledger::new();
    let a = addr(1);
    let b = addr(2);
    let group_id = l.create_group(a, "G", vec![a, b]).unwrap();
    assert!(!l.settled[group_id as usize]);
    // a fresh group takes expenses and can be settled exactly once
    assert_eq!(l.add_expense(group_id, a, 10, vec![a, b], "D", ""), Ok(0));
    assert!(l.settle_group(group_id).is_ok());
    assert!(l.settled[group_id as usize]);
    assert_eq!(l.settle_group(group_id), Err(Error::AlreadySettled));
}

#[test]
fn test_event_emission_on_create_and_expense() {
    let mut l = Ledger::new();
    let a = addr(1);
    let b = addr(2);
    let group_id = l.create_group(a, "Ev", vec![a, b]).unwrap();
    let expense_id = l.add_expense(group_id, a, 100, vec![a, b], "Test", "").unwrap();
    assert_eq!(group_id, 0);
    assert_eq!(expense_id, 0);
    assert_eq!(l.groups[group_id as usize].members.len(), 2);
    assert_eq!(l.expenses[group_id as usize][expense_id as usize].amount, 100);
}

#[test]
fn three_way_dinner_balances_and_plan() {
    let mut l = Ledger::new();
    let alice = addr(1);
    let bob = addr(2);
    let carol = addr(3);
    let group_id = l.create_group(alice, "Trip", vec![alice, bob, carol]).unwrap();
    l.add_expense(group_id, alice, 90, vec![alice, bob, carol], "Dinner", "food").unwrap();
    assert_eq!(l.get_balances(group_id), vec![(alice, 60), (bob, -30), (carol, -30)]);
    assert_eq!(
        l.compute_settlements(group_id),
        vec![
            Settlement { from: bob, to: alice, amount: 30 },
            Settlement { from: carol, to: alice, amount: 30 },
        ]
    );
}

#[test]
fn two_member_even_split_plan() {
    let mut l = Ledger::new();
    let a = addr(1);
    let b = addr(2);
    let group_id = l.create_group(a, "Pair", vec![a, b]).unwrap();
    l.add_expense(group_id, a, 100, vec![a, b], "Lunch", "food").unwrap();
    assert_eq!(l.get_balances(group_id), vec![(a, 50), (b, -50)]);
    assert_eq!(l.compute_settlements(group_id), vec![Settlement { from: b, to: a, amount: 50 }]);
}

#[test]
fn creator_alone_is_too_few_members() {
    let a = addr(1);
    let r = StellarSplitContract::create_group(0, a, "Solo".to_string(), vec![a], token());
    assert_eq!(r.unwrap_err(), Error::TooFewMembers);
    let r = StellarSplitContract::create_group(0, a, "Solo".to_string(), Vec::new(), token());
    assert_eq!(r.unwrap_err(), Error::TooFewMembers);
}

#[test]
fn name_length_limits() {
    let a = addr(1);
    let b = addr(2);
    let long: String = std::iter::repeat('x').take(65).collect();
    let r = StellarSplitContract::create_group(0, a, long, vec![a, b], token());
    assert_eq!(r.unwrap_err(), Error::NameTooLong);
    let max: String = std::iter::repeat('x').take(64).collect();
    let g = StellarSplitContract::create_group(5, a, max, vec![a, b], token()).unwrap();
    assert_eq!(g.id, 5);
    assert_eq!(g.expense_count, 0);
    assert_eq!(g.token, token());
}

#[test]
fn expense_after_settlement_is_rejected() {
    let mut l = Ledger::new();
    let a = addr(1);
    let b = addr(2);
    let group_id = l.create_group(a, "Done", vec![a, b]).unwrap();
    l.add_expense(group_id, a, 100, vec![a, b], "Lunch", "food").unwrap();
    let plan = l.settle_group(group_id).unwrap();
    assert_eq!(plan, vec![Settlement { from: b, to: a, amount: 50 }]);
    assert!(l.settled[group_id as usize]);
    assert_eq!(l.add_expense(group_id, a, 10, vec![a, b], "More", ""), Err(Error::AlreadySettled));
    assert_eq!(l.add_expense(group_id, a, -5, Vec::new(), "Bad", ""), Err(Error::AlreadySettled));
    assert_eq!(l.settle_group(group_id), Err(Error::AlreadySettled));
    assert_eq!(l.cancel_last_expense(group_id, a), Err(Error::AlreadySettled));
    assert_eq!(Error::AlreadySettled.message(), "group is already settled");
}

#[test]
fn cancel_only_newest_expense_by_its_payer() {
    let mut l = Ledger::new();
    let a = addr(1);
    let b = addr(2);
    let group_id = l.create_group(a, "Undo", vec![a, b]).unwrap();
    assert_eq!(l.cancel_last_expense(group_id, a), Err(Error::NothingToCancel));
    l.add_expense(group_id, a, 100, vec![a, b], "One", "").unwrap();
    l.add_expense(group_id, b, 40, vec![a, b], "Two", "").unwrap();
    assert_eq!(l.cancel_last_expense(group_id, a), Err(Error::NotOwner));
    assert_eq!(l.cancel_last_expense(group_id, b), Ok(1));
    assert_eq!(l.groups[0].expense_count, 1);
    let id = l.add_expense(group_id, b, 20, vec![a, b], "Three", "").unwrap();
    assert_eq!(id, 1);
}

#[test]
fn cancel_with_wrong_stored_expense() {
    let mut g = StellarSplitContract::create_group(0, addr(1), "G".to_string(), vec![addr(2)], token()).unwrap();
    g.expense_count = 2;
    let e = Expense {
        id: 0,
        payer: addr(1),
        amount: 10,
        split_among: vec![addr(1)],
        description: String::new(),
        category: String::new(),
    };
    let r = StellarSplitContract::cancel_last_expense(&mut g, false, Some(&e), addr(1));
    assert_eq!(r, Err(Error::ExpenseNotFound));
    let r = StellarSplitContract::cancel_last_expense(&mut g, false, None, addr(1));
    assert_eq!(r, Err(Error::ExpenseNotFound));
    assert_eq!(g.expense_count, 2);
}

#[test]
fn member_add_and_remove_rules() {
    let mut l = Ledger::new();
    let a = addr(1);
    let b = addr(2);
    let c = addr(3);
    let outsider = addr(9);
    let group_id = l.create_group(a, "Members", vec![a, b]).unwrap();
    let g = &mut l.groups[group_id as usize];
    assert_eq!(StellarSplitContract::add_member(g, false, outsider, c), Err(Error::AddByNonMember));
    assert_eq!(StellarSplitContract::add_member(g, false, a, b), Err(Error::AlreadyMember));
    assert_eq!(StellarSplitContract::remove_member(g, false, a, b), Err(Error::MinMembersViolation));
    assert_eq!(StellarSplitContract::add_member(g, false, a, c), Ok(()));
    assert_eq!(g.members, vec![a, b, c]);
    assert_eq!(StellarSplitContract::remove_member(g, false, outsider, b), Err(Error::RemoveByNonMember));
    assert_eq!(StellarSplitContract::remove_member(g, false, a, outsider), Err(Error::NotAMember));
    assert_eq!(StellarSplitContract::add_member(g, true, a, outsider), Err(Error::AlreadySettled));
    assert_eq!(StellarSplitContract::remove_member(g, true, a, c), Err(Error::AlreadySettled));
    assert_eq!(StellarSplitContract::remove_member(g, false, c, a), Ok(()));
    assert_eq!(g.members, vec![b, c]);
}

#[test]
fn removing_member_keeps_recorded_balances() {
    let mut l = Ledger::new();
    let a = addr(1);
    let b = addr(2);
    let c = addr(3);
    let group_id = l.create_group(a, "Leave", vec![a, b, c]).unwrap();
    l.add_expense(group_id, a, 90, vec![a, b, c], "Dinner", "food").unwrap();
    let before = l.get_balances(group_id);
    let g = &mut l.groups[group_id as usize];
    assert_eq!(StellarSplitContract::remove_member(g, false, a, c), Ok(()));
    assert_eq!(l.get_balances(group_id), before);
    assert_eq!(l.balance(group_id, c), -30);
}

#[test]
fn uneven_split_remainder_stays_with_payer() {
    let mut l = Ledger::new();
    let a = addr(1);
    let b = addr(2);
    let c = addr(3);
    let group_id = l.create_group(a, "Odd", vec![a, b, c]).unwrap();
    l.add_expense(group_id, a, 100, vec![a, b, c], "Odd", "").unwrap();
    assert_eq!(l.get_balances(group_id), vec![(a, 67), (b, -33), (c, -33)]);
}

#[test]
fn payer_outside_split_is_credited_whole_amount_less_one_share() {
    let mut l = Ledger::new();
    let a = addr(1);
    let b = addr(2);
    let c = addr(3);
    let group_id = l.create_group(a, "Gift", vec![a, b, c]).unwrap();
    l.add_expense(group_id, a, 100, vec![b, c], "Gift", "").unwrap();
    assert_eq!(l.get_balances(group_id), vec![(a, 50), (b, -50), (c, -50)]);
}

#[test]
fn balances_reject_bad_expenses() {
    let e = |amount: i128, split: Vec<Address>| Expense {
        id: 0,
        payer: addr(1),
        amount,
        split_among: split,
        description: String::new(),
        category: String::new(),
    };
    let bad = vec![e(10, vec![addr(1)]), e(0, vec![addr(1)])];
    assert_eq!(StellarSplitContract::get_balances(&bad), Err(Error::InvalidExpense));
    let empty = vec![e(10, Vec::new())];
    assert_eq!(StellarSplitContract::compute_settlements(&empty), Err(Error::InvalidExpense));
    // the payer's running credit passes i128::MAX
    let huge = vec![e(i128::MAX, vec![addr(1), addr(2)]), e(i128::MAX, vec![addr(1), addr(2)])];
    assert_eq!(StellarSplitContract::get_balances(&huge), Err(Error::Overflow));
    assert_eq!(StellarSplitContract::compute_settlements(&huge), Err(Error::Overflow));
    // the amounts sum past i128::MAX, but every running balance fits
    let paid_back = vec![
        e(i128::MAX, vec![addr(1), addr(2)]),
        Expense { payer: addr(2), ..e(i128::MAX, vec![addr(1), addr(2)]) },
    ];
    assert_eq!(StellarSplitContract::get_balances(&paid_back), Ok(vec![(addr(1), 1), (addr(2), 1)]));
    // a debt of exactly i128::MIN is a balance, but cannot be settled
    let deepest = vec![e(i128::MAX, vec![addr(2)]), e(1, vec![addr(2)])];
    assert_eq!(
        StellarSplitContract::get_balances(&deepest),
        Ok(vec![(addr(1), 0), (addr(2), i128::MIN)])
    );
    assert_eq!(StellarSplitContract::compute_settlements(&deepest), Err(Error::Overflow));
    let edge = vec![e(i128::MAX, vec![addr(1), addr(2)])];
    let b = StellarSplitContract::get_balances(&edge).unwrap();
    assert_eq!(b, vec![(addr(1), i128::MAX - i128::MAX / 2), (addr(2), -(i128::MAX / 2))]);
    assert_eq!(StellarSplitContract::get_balances(&Vec::new()), Ok(Vec::new()));
}

#[test]
fn expense_counter_limit() {
    let mut g = StellarSplitContract::create_group(0, addr(1), "G".to_string(), vec![addr(2)], token()).unwrap();
    g.expense_count = u64::MAX;
    let r = StellarSplitContract::add_expense(&mut g, false, addr(1), 5, vec![addr(1)], String::new(), String::new());
    assert_eq!(r.unwrap_err(), Error::Overflow);
    assert_eq!(g.expense_count, u64::MAX);
}

#[test]
fn added_expense_records_its_fields() {
    let mut g = StellarSplitContract::create_group(3, addr(1), "G".to_string(), vec![addr(2)], token()).unwrap();
    let e = StellarSplitContract::add_expense(
        &mut g,
        false,
        addr(2),
        42,
        vec![addr(1), addr(2)],
        "Taxi".to_string(),
        "transport".to_string(),
    )
    .unwrap();
    assert_eq!(e.id, 0);
    assert_eq!(e.payer, addr(2));
    assert_eq!(e.amount, 42);
    assert_eq!(e.split_among, vec![addr(1), addr(2)]);
    assert_eq!(e.description, "Taxi");
    assert_eq!(e.category, "transport");
    assert_eq!(g.expense_count, 1);
}

#[test]
fn settlement_pays_every_balance() {
    let mut l = Ledger::new();
    let alice = addr(1);
    let bob = addr(2);
    let carol = addr(3);
    let dave = addr(4);
    let all = vec![alice, bob, carol, dave];
    let group_id = l.create_group(alice, "Big Trip", all.clone()).unwrap();
    l.add_expense(group_id, alice, 200, all.clone(), "Hotel", "accommodation").unwrap();
    l.add_expense(group_id, bob, 80, all.clone(), "Taxi", "transport").unwrap();
    l.add_expense(group_id, carol, 40, all.clone(), "Snacks", "food").unwrap();
    l.add_expense(group_id, alice, 120, all.clone(), "Restaurant", "food").unwrap();
    l.add_expense(group_id, dave, 60, all.clone(), "Museum", "entertainment").unwrap();
    let balances = l.get_balances(group_id);
    assert_eq!(balances, vec![(alice, 195), (bob, -45), (carol, -85), (dave, -65)]);
    let plan = l.compute_settlements(group_id);
    assert_eq!(
        plan,
        vec![
            Settlement { from: bob, to: alice, amount: 45 },
            Settlement { from: carol, to: alice, amount: 85 },
            Settlement { from: dave, to: alice, amount: 65 },
        ]
    );
    for (who, bal) in balances.iter() {
        let received: i128 = plan.iter().filter(|s| s.to == *who).map(|s| s.amount).sum();
        let paid: i128 = plan.iter().filter(|s| s.from == *who).map(|s| s.amount).sum();
        assert_eq!(received - paid, *bal);
    }
}
