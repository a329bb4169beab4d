use governance::StakeLedger;

fn funded() -> StakeLedger {
    let mut l = StakeLedger::new(210);
    l.refund(1, 10);
    l.refund(2, 20);
    l
}

#[test]
fn balances_start_at_zero() {
    let l = StakeLedger::new(210);
    assert_eq!(l.balance(1), 0);
    assert_eq!(l.reserved(1), 0);
    assert_eq!(l.total_stake, 210);
}

#[test]
fn refund_grants_balance() {
    let l = funded();
    assert_eq!(l.balance(1), 10);
    assert_eq!(l.balance(2), 20);
    assert_eq!(l.balance(3), 0);
}

#[test]
fn refund_saturates_at_the_limit() {
    let mut l = StakeLedger::new(0);
    l.refund(1, u64::MAX);
    let granted = l.refund(1, 7);
    assert_eq!(granted, 0);
    assert_eq!(l.balance(1), u64::MAX);
}

#[test]
fn reserve_locks_spendable_balance() {
    let mut l = funded();
    assert!(l.reserve(1, 10));
    assert_eq!(l.balance(1), 10);
    assert_eq!(l.reserved(1), 10);
    assert_eq!(l.spendable(1), 0);
    assert!(!l.reserve(1, 1));
    l.unreserve(1, 4);
    assert_eq!(l.reserved(1), 6);
    assert_eq!(l.spendable(1), 4);
}

#[test]
fn transfer_reserved_moves_the_bond() {
    let mut l = funded();
    assert!(l.reserve(2, 5));
    let moved = l.transfer_reserved(2, 1, 5);
    assert_eq!(moved, 5);
    assert_eq!(l.balance(2), 15);
    assert_eq!(l.reserved(2), 0);
    assert_eq!(l.balance(1), 15);
}

#[test]
fn slash_reserved_burns_the_bond() {
    let mut l = funded();
    assert!(l.reserve(2, 5));
    let burned = l.slash_reserved(2, 8);
    assert_eq!(burned, 5);
    assert_eq!(l.balance(2), 15);
    assert_eq!(l.reserved(2), 0);
}

#[test]
fn slash_takes_up_to_the_whole_balance() {
    let mut l = funded();
    assert!(l.can_slash(1, 10));
    assert!(!l.can_slash(1, 11));
    let burned = l.slash(1, 25);
    assert_eq!(burned, 10);
    assert_eq!(l.balance(1), 0);
}

#[test]
fn deduct_unbonded_spends_only_free_balance() {
    let mut l = funded();
    assert!(l.reserve(1, 8));
    assert!(!l.deduct_unbonded(1, 3));
    assert!(l.deduct_unbonded(1, 2));
    assert_eq!(l.balance(1), 8);
    assert_eq!(l.reserved(1), 8);
}
