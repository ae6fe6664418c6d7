use stellar_split::contract::StellarSplitContract;
use stellar_split::settle::compute_optimal_settlements;
use stellar_split::types::{contains_address, Address, Error, GuardianConfig, RecoveryStatus, Settlement};

fn addr(n: u128) -> Address {
    Address { contract: false, hi: 0, lo: n }
}

fn net(plan: &[Settlement], a: Address) -> i128 {
    plan.iter()
        .map(|s| (if s.to == a { s.amount } else { 0 }) - (if s.from == a { s.amount } else { 0 }))
        .sum()
}

#[test]
fn plan_of_empty_and_zero_balances_is_empty() {
    assert!(compute_optimal_settlements(&Vec::new()).is_empty());
    let zeros = vec![(addr(1), 0), (addr(2), 0)];
    assert!(compute_optimal_settlements(&zeros).is_empty());
}

#[test]
fn plan_takes_parties_by_identity_and_reproduces_balances() {
    let b = vec![(addr(5), -20), (addr(2), 80), (addr(3), -30), (addr(4), 0), (addr(1), -50), (addr(6), 20)];
    let plan = compute_optimal_settlements(&b);
    assert_eq!(
        plan,
        vec![
            Settlement { from: addr(1), to: addr(2), amount: 50 },
            Settlement { from: addr(3), to: addr(2), amount: 30 },
            Settlement { from: addr(5), to: addr(6), amount: 20 },
        ]
    );
    // five identities with a nonzero balance: at most four transfers
    assert!(plan.len() <= 4);
    for (who, bal) in b.iter() {
        assert_eq!(net(&plan, *who), *bal);
    }
}

#[test]
fn plan_ignores_listing_order() {
    let a = addr(1);
    let b = addr(2);
    let c = addr(3);
    let first = compute_optimal_settlements(&vec![(a, -1), (b, -1), (c, 2)]);
    let second = compute_optimal_settlements(&vec![(b, -1), (a, -1), (c, 2)]);
    let third = compute_optimal_settlements(&vec![(c, 2), (b, -1), (a, -1)]);
    assert_eq!(first, vec![Settlement { from: a, to: c, amount: 1 }, Settlement { from: b, to: c, amount: 1 }]);
    assert_eq!(first, second);
    assert_eq!(first, third);
}

#[test]
fn accounts_come_before_contracts() {
    let contract = Address { contract: true, hi: 0, lo: 0 };
    let account = Address { contract: false, hi: 9, lo: 9 };
    let high = Address { contract: false, hi: 10, lo: 0 };
    let plan = compute_optimal_settlements(&vec![(contract, -5), (high, -5), (account, -5), (addr(1), 15)]);
    let order: Vec<Address> = plan.iter().map(|s| s.from).collect();
    assert_eq!(order, vec![account, high, contract]);
}

#[test]
fn plan_splits_a_debt_across_creditors() {
    let b = vec![(addr(1), 70), (addr(2), -100), (addr(3), 30)];
    let plan = compute_optimal_settlements(&b);
    assert_eq!(
        plan,
        vec![
            Settlement { from: addr(2), to: addr(1), amount: 70 },
            Settlement { from: addr(2), to: addr(3), amount: 30 },
        ]
    );
}

#[test]
fn plan_is_reproducible() {
    let b = vec![(addr(3), 10), (addr(1), -4), (addr(2), -6)];
    assert_eq!(compute_optimal_settlements(&b), compute_optimal_settlements(&b));
}

#[test]
fn plan_with_extreme_amounts() {
    let b = vec![(addr(1), i128::MAX), (addr(2), -i128::MAX)];
    let plan = compute_optimal_settlements(&b);
    assert_eq!(plan, vec![Settlement { from: addr(2), to: addr(1), amount: i128::MAX }]);
}

#[test]
fn guardian_configuration_rules() {
    let u = addr(1);
    assert_eq!(StellarSplitContract::set_guardians(u, Vec::new(), 1).unwrap_err(), Error::NoGuardians);
    assert_eq!(
        StellarSplitContract::set_guardians(u, vec![addr(2), addr(3)], 0).unwrap_err(),
        Error::InvalidThreshold
    );
    assert_eq!(
        StellarSplitContract::set_guardians(u, vec![addr(2), addr(3)], 3).unwrap_err(),
        Error::InvalidThreshold
    );
    let c = StellarSplitContract::set_guardians(u, vec![addr(2), addr(3)], 2).unwrap();
    assert_eq!(c, GuardianConfig { user: u, guardians: vec![addr(2), addr(3)], threshold: 2 });
}

#[test]
fn recovery_needs_configuration_and_a_guardian() {
    let target = addr(1);
    let new_address = addr(50);
    let r = StellarSplitContract::initiate_recovery(None, addr(2), target, new_address);
    assert_eq!(r.unwrap_err(), Error::NoGuardiansConfigured);
    let c = StellarSplitContract::set_guardians(target, vec![addr(2), addr(3)], 2).unwrap();
    let r = StellarSplitContract::initiate_recovery(Some(&c), addr(9), target, new_address);
    assert_eq!(r.unwrap_err(), Error::NotAGuardian);
    let q = StellarSplitContract::initiate_recovery(Some(&c), addr(2), target, new_address).unwrap();
    assert_eq!(q.target, target);
    assert_eq!(q.new_address, new_address);
    assert_eq!(q.approvals, vec![addr(2)]);
    assert_eq!(q.status, RecoveryStatus::Pending);
}

#[test]
fn recovery_completes_on_the_approval_that_reaches_threshold() {
    let target = addr(1);
    let g = vec![addr(2), addr(3), addr(4)];
    let c = StellarSplitContract::set_guardians(target, g, 3).unwrap();
    let q = StellarSplitContract::initiate_recovery(Some(&c), addr(2), target, addr(50)).unwrap();
    let again = StellarSplitContract::approve_recovery(Some(q.clone()), Some(&c), addr(2));
    assert_eq!(again.unwrap_err(), Error::AlreadyApproved);
    assert_eq!(Error::AlreadyApproved.message(), "already approved");
    let q = StellarSplitContract::approve_recovery(Some(q), Some(&c), addr(3)).unwrap();
    assert_eq!(q.approvals, vec![addr(2), addr(3)]);
    assert_eq!(q.status, RecoveryStatus::Pending);
    let q = StellarSplitContract::approve_recovery(Some(q), Some(&c), addr(4)).unwrap();
    assert_eq!(q.approvals, vec![addr(2), addr(3), addr(4)]);
    assert_eq!(q.status, RecoveryStatus::Completed);
    let r = StellarSplitContract::approve_recovery(Some(q), Some(&c), addr(9));
    assert_eq!(r.unwrap_err(), Error::RequestNotPending);
}

#[test]
fn approval_errors_in_order() {
    let target = addr(1);
    let c = StellarSplitContract::set_guardians(target, vec![addr(2), addr(3)], 2).unwrap();
    assert_eq!(
        StellarSplitContract::approve_recovery(None, Some(&c), addr(2)).unwrap_err(),
        Error::NoActiveRequest
    );
    let q = StellarSplitContract::initiate_recovery(Some(&c), addr(2), target, addr(50)).unwrap();
    assert_eq!(
        StellarSplitContract::approve_recovery(Some(q.clone()), None, addr(3)).unwrap_err(),
        Error::NoGuardiansConfigured
    );
    assert_eq!(
        StellarSplitContract::approve_recovery(Some(q.clone()), Some(&c), addr(7)).unwrap_err(),
        Error::NotAGuardian
    );
}

#[test]
fn threshold_of_one_completes_on_first_extra_approval() {
    let target = addr(1);
    let c = StellarSplitContract::set_guardians(target, vec![addr(2), addr(3)], 1).unwrap();
    let q = StellarSplitContract::initiate_recovery(Some(&c), addr(2), target, addr(50)).unwrap();
    assert_eq!(q.status, RecoveryStatus::Pending);
    let q = StellarSplitContract::approve_recovery(Some(q), Some(&c), addr(3)).unwrap();
    assert_eq!(q.status, RecoveryStatus::Completed);
}

#[test]
fn address_lookup() {
    let v = vec![addr(1), addr(2)];
    assert!(contains_address(&v, addr(2)));
    assert!(!contains_address(&v, addr(3)));
    assert!(!contains_address(&v, Address { contract: true, hi: 0, lo: 2 }));
}

#[test]
fn transfers_go_from_debtors_to_creditors() {
    let b = vec![(addr(1), 40), (addr(2), 0), (addr(3), -25), (addr(4), -15)];
    let plan = compute_optimal_settlements(&b);
    assert_eq!(plan.len(), 2);
    for s in plan.iter() {
        let from = b.iter().find(|(a, _)| *a == s.from).unwrap().1;
        let to = b.iter().find(|(a, _)| *a == s.to).unwrap().1;
        assert!(from < 0);
        assert!(to > 0);
        assert_ne!(s.from, s.to);
        assert_ne!(s.from, addr(2));
        assert_ne!(s.to, addr(2));
    }
}

#[test]
fn error_texts() {
    assert_eq!(Error::TooFewMembers.message(), "at least 2 members required");
    assert_eq!(Error::AlreadySettled.message(), "group is already settled");
    assert_eq!(Error::AlreadyApproved.message(), "already approved");
    assert_eq!(Error::NotAMember.message(), "address is not a member");
    assert_eq!(Error::AddByNonMember.message(), "only a member can add someone");
    assert_eq!(Error::RemoveByNonMember.message(), "only a member can remove someone");
    assert_eq!(Error::Overflow.message(), "amount total out of range");
}
