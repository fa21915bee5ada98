use cupcake_ledger::identity::Identity;
use cupcake_ledger::ledger::{is_eligible, VendingMachine, COOLDOWN_PERIOD};

fn user_bytes() -> [u8; 20] {
    [
        0xCD, 0xC4, 0x1b, 0xff, 0x86, 0xa6, 0x27, 0x16, 0xf0, 0x50, 0x62, 0x23, 0x25, 0xCC, 0x17,
        0xa3, 0x17, 0xf9, 0x94, 0x04,
    ]
}

#[test]
fn test_give_cupcake_to() {
    let mut contract = VendingMachine::new();
    let user = Identity::from_bytes(&user_bytes());

    // Check initial balance is zero
    assert_eq!(contract.get_cupcake_balance_for(user).unwrap(), 0u128);

    // Give a cupcake at time 100 and verify it succeeds
    assert!(contract.give_cupcake_to(user, 100));

    // Check balance is now 1
    assert_eq!(contract.get_cupcake_balance_for(user).unwrap(), 1u128);

    // Try to give another cupcake immediately - should fail due to time restriction
    assert!(!contract.give_cupcake_to(user, 100));

    // Balance should still be 1
    assert_eq!(contract.get_cupcake_balance_for(user).unwrap(), 1u128);

    // 6 seconds later, giving a cupcake should succeed
    assert!(contract.give_cupcake_to(user, 106));

    // Balance should now be 2
    assert_eq!(contract.get_cupcake_balance_for(user).unwrap(), 2u128);
}

#[test]
fn test_never_granted_balance_is_zero() {
    let ledger = VendingMachine::new();
    assert_eq!(ledger.get_cupcake_balance_for(Identity { hi: 0, lo: 0 }).unwrap(), 0u128);
    assert_eq!(
        ledger.get_cupcake_balance_for(Identity { hi: u32::MAX, lo: u128::MAX }).unwrap(),
        0u128
    );

    // Granting to one identity leaves an ungranted one at zero.
    let mut ledger = VendingMachine::new();
    let granted_user = Identity { hi: 1, lo: 1 };
    let bystander = Identity { hi: 2, lo: 2 };
    assert!(ledger.give_cupcake_to(granted_user, 50));
    assert_eq!(ledger.get_cupcake_balance_for(bystander).unwrap(), 0u128);
}

#[test]
fn test_grant_within_cooldown_changes_nothing() {
    let mut ledger = VendingMachine::new();
    let user = Identity { hi: 7, lo: 7 };
    assert!(ledger.give_cupcake_to(user, 1000));
    assert_eq!(ledger.get_cupcake_balance_for(user).unwrap(), 1u128);

    // 4 time units later: still cooling down.
    assert!(!ledger.give_cupcake_to(user, 1004));
    assert_eq!(ledger.get_cupcake_balance_for(user).unwrap(), 1u128);

    // The refused call also left the stored grant time at 1000: the
    // boundary computed from 1000 is still the one that decides.
    assert!(ledger.give_cupcake_to(user, 1005));
    assert_eq!(ledger.get_cupcake_balance_for(user).unwrap(), 2u128);
}

#[test]
fn test_cooldown_boundary_is_inclusive() {
    let mut ledger = VendingMachine::new();
    let user = Identity { hi: 9, lo: 9 };
    assert!(ledger.give_cupcake_to(user, 100));
    assert!(ledger.give_cupcake_to(user, 100 + COOLDOWN_PERIOD));
    assert_eq!(ledger.get_cupcake_balance_for(user).unwrap(), 2u128);
}

#[test]
fn test_distinct_identities_are_independent() {
    let mut ledger = VendingMachine::new();
    let a = Identity::from_bytes(&[0x11; 20]);
    let b = Identity::from_bytes(&[0x22; 20]);

    assert!(ledger.give_cupcake_to(a, 100));
    assert_eq!(ledger.get_cupcake_balance_for(a).unwrap(), 1u128);
    assert_eq!(ledger.get_cupcake_balance_for(b).unwrap(), 0u128);

    assert!(ledger.give_cupcake_to(b, 100));
    assert_eq!(ledger.get_cupcake_balance_for(b).unwrap(), 1u128);

    assert!(ledger.give_cupcake_to(a, 106));
    assert_eq!(ledger.get_cupcake_balance_for(a).unwrap(), 2u128);
    assert_eq!(ledger.get_cupcake_balance_for(b).unwrap(), 1u128);
}

#[test]
fn test_repeated_reads_return_the_same_value() {
    let mut ledger = VendingMachine::new();
    let user = Identity { hi: 3, lo: 3 };
    assert!(ledger.give_cupcake_to(user, 40));

    let first = ledger.get_cupcake_balance_for(user).unwrap();
    let second = ledger.get_cupcake_balance_for(user).unwrap();
    let third = ledger.get_cupcake_balance_for(user).unwrap();
    assert_eq!(first, 1u128);
    assert_eq!(second, first);
    assert_eq!(third, first);

    // A refused grant attempt in between changes nothing either.
    assert!(!ledger.give_cupcake_to(user, 41));
    assert_eq!(ledger.get_cupcake_balance_for(user).unwrap(), first);
}

#[test]
fn test_clock_regression_is_not_eligible() {
    let mut ledger = VendingMachine::new();
    let user = Identity { hi: 4, lo: 4 };
    assert!(ledger.give_cupcake_to(user, 100));
    // A clock reading behind the stored time simply fails the check.
    assert!(!ledger.give_cupcake_to(user, 90));
    assert_eq!(ledger.get_cupcake_balance_for(user).unwrap(), 1u128);
}

#[test]
fn test_fresh_identity_waits_out_time_zero() {
    // An absent record reads as last-grant time 0, so the first grant is
    // only possible once the clock reaches the cooldown period.
    let mut ledger = VendingMachine::new();
    let user = Identity { hi: 5, lo: 5 };
    assert!(!ledger.give_cupcake_to(user, COOLDOWN_PERIOD - 1));
    assert_eq!(ledger.get_cupcake_balance_for(user).unwrap(), 0u128);
    assert!(ledger.give_cupcake_to(user, COOLDOWN_PERIOD));
    assert_eq!(ledger.get_cupcake_balance_for(user).unwrap(), 1u128);
}

#[test]
fn test_no_overflow_near_the_largest_timestamp() {
    let mut ledger = VendingMachine::new();
    let user = Identity { hi: 6, lo: 6 };
    assert!(ledger.give_cupcake_to(user, u64::MAX));
    // The next eligible time would exceed the clock's range, so no later
    // reading can grant again.
    assert!(!ledger.give_cupcake_to(user, u64::MAX));
    assert_eq!(ledger.get_cupcake_balance_for(user).unwrap(), 1u128);
}

#[test]
fn test_is_eligible_rule() {
    assert!(is_eligible(0, COOLDOWN_PERIOD));
    assert!(!is_eligible(0, COOLDOWN_PERIOD - 1));
    assert!(is_eligible(100, 105));
    assert!(!is_eligible(100, 104));
    assert!(is_eligible(100, u64::MAX));
    assert!(!is_eligible(u64::MAX, u64::MAX));
    assert!(!is_eligible(u64::MAX - COOLDOWN_PERIOD, u64::MAX - 1));
    assert!(is_eligible(u64::MAX - COOLDOWN_PERIOD, u64::MAX));
}

#[test]
fn test_identity_from_bytes_exact_value() {
    let id = Identity::from_bytes(&user_bytes());
    assert_eq!(id.hi, 0xCDC41bffu32);
    assert_eq!(id.lo, 0x86a62716f050622325CC17a317f99404u128);

    let zero = Identity::from_bytes(&[0u8; 20]);
    assert_eq!(zero.hi, 0u32);
    assert_eq!(zero.lo, 0u128);

    let ones = Identity::from_bytes(&[0xFF; 20]);
    assert_eq!(ones.hi, u32::MAX);
    assert_eq!(ones.lo, u128::MAX);
}

#[test]
fn test_identity_from_bytes_distinguishes_addresses() {
    let mut a_bytes = [0u8; 20];
    let mut b_bytes = [0u8; 20];
    a_bytes[19] = 1;
    b_bytes[0] = 1;
    let a = Identity::from_bytes(&a_bytes);
    let b = Identity::from_bytes(&b_bytes);
    assert_ne!(a, b);
    assert_ne!(a, Identity::from_bytes(&[0u8; 20]));
}
