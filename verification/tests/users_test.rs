use engine::types::{Asset, UserId};
use engine::users::{LockEntry, User};

fn uid(n: u128) -> UserId {
    n
}

fn funded(asset: Asset, amount: u32) -> User {
    let mut u = User::new(Some(uid(7)));
    u.add_balance(asset, amount);
    u
}

#[test]
fn user_new_keeps_given_id_with_empty_balances() {
    let u = User::new(Some(uid(42)));
    assert_eq!(u.get_user_id(), 42);
    for a in [Asset::ETH, Asset::SOL, Asset::BTC, Asset::USDC, Asset::USDT] {
        assert_eq!(u.get_balance(&a), 0);
        assert_eq!(u.get_locked(&a), 0);
    }
    assert!(u.get_lock_entries().is_empty());
}

#[test]
fn user_new_without_id_draws_a_version_4_uuid() {
    let a = User::new(None).get_user_id();
    let b = User::new(None).get_user_id();
    assert_eq!((a >> 76) & 0xf, 4, "version nibble");
    assert_eq!((a >> 62) & 0x3, 2, "RFC 4122 variant");
    assert_eq!(uuid::Uuid::from_u128(a).get_version_num(), 4);
    assert_ne!(a, b);
}

#[test]
fn add_balance_accumulates() {
    let mut u = funded(Asset::USDC, 100);
    u.add_balance(Asset::USDC, 50);
    assert_eq!(u.get_balance(&Asset::USDC), 150);
    assert_eq!(u.get_balance(&Asset::ETH), 0);
}

#[test]
fn lock_moves_amount_out_of_balance() {
    let mut u = funded(Asset::USDC, 100);
    assert!(u.lock(1, Asset::USDC, 40).is_ok());
    assert_eq!(u.get_balance(&Asset::USDC), 60);
    assert_eq!(u.get_locked(&Asset::USDC), 40);
    // what can still be locked is what the balance holds
    assert_eq!(u.get_available_balance(&Asset::USDC), 60);
    assert_eq!(u.get_lock_entries(), vec![(1, LockEntry { asset: Asset::USDC, amount: 40 })]);
}

#[test]
fn lock_beyond_available_is_refused() {
    let mut u = funded(Asset::USDC, 100);
    assert_eq!(u.lock(1, Asset::USDC, 101), Err("Insufficient balance".to_string()));
    assert_eq!(u.get_balance(&Asset::USDC), 100);
    assert_eq!(u.get_locked(&Asset::USDC), 0);
    assert!(u.get_lock_entries().is_empty());
}

#[test]
fn lock_of_same_order_replaces_its_entry() {
    let mut u = funded(Asset::ETH, 100);
    u.lock(9, Asset::ETH, 10).unwrap();
    u.lock(9, Asset::ETH, 5).unwrap();
    assert_eq!(u.get_lock_entries(), vec![(9, LockEntry { asset: Asset::ETH, amount: 5 })]);
    assert_eq!(u.get_balance(&Asset::ETH), 85);
    assert_eq!(u.get_locked(&Asset::ETH), 5);
}

#[test]
fn lock_then_unlock_restores_account() {
    let mut u = funded(Asset::SOL, 500);
    u.lock(3, Asset::SOL, 120).unwrap();
    assert!(u.unlock_order(&3).is_ok());
    assert_eq!(u.get_balance(&Asset::SOL), 500);
    assert_eq!(u.get_locked(&Asset::SOL), 0);
    assert!(u.get_lock_entries().is_empty());
}

#[test]
fn unlock_of_unknown_order_is_refused() {
    let mut u = funded(Asset::SOL, 500);
    assert_eq!(u.unlock_order(&3), Err("Order not locked".to_string()));
    assert_eq!(u.get_balance(&Asset::SOL), 500);
}

#[test]
fn apply_fill_partial_keeps_rest_locked() {
    let mut u = funded(Asset::USDC, 10_000);
    u.lock(5, Asset::USDC, 4_000).unwrap();
    assert!(u.apply_fill(5, Asset::USDC, 1_500, Asset::ETH, 3).is_ok());
    assert_eq!(u.get_locked(&Asset::USDC), 2_500);
    assert_eq!(u.get_balance(&Asset::USDC), 6_000);
    assert_eq!(u.get_balance(&Asset::ETH), 3);
}

#[test]
fn apply_fill_of_whole_lock_removes_entry() {
    let mut u = funded(Asset::ETH, 10);
    u.lock(5, Asset::ETH, 10).unwrap();
    u.apply_fill(5, Asset::ETH, 10, Asset::USDC, 20_000).unwrap();
    assert!(u.get_lock_entries().is_empty());
    assert_eq!(u.get_balance(&Asset::ETH), 0);
    assert_eq!(u.get_balance(&Asset::USDC), 20_000);
}

#[test]
fn apply_fill_errors_leave_account_unchanged() {
    let mut u = funded(Asset::ETH, 10);
    u.lock(5, Asset::ETH, 4).unwrap();
    assert_eq!(
        u.apply_fill(6, Asset::ETH, 1, Asset::USDC, 1),
        Err("Order not found in locked orders".to_string())
    );
    assert_eq!(u.apply_fill(5, Asset::USDC, 1, Asset::ETH, 1), Err("Locked asset mismatch".to_string()));
    assert_eq!(
        u.apply_fill(5, Asset::ETH, 5, Asset::USDC, 1),
        Err("Locked amount insufficient for fill".to_string())
    );
    assert_eq!(u.get_balance(&Asset::ETH), 6);
    assert_eq!(u.get_balance(&Asset::USDC), 0);
    assert_eq!(u.get_locked(&Asset::ETH), 4);
}

#[test]
fn fill_moves_debit_out_of_lock_and_credit_into_balance() {
    let mut u = funded(Asset::USDC, 1_000);
    u.lock(1, Asset::USDC, 600).unwrap();
    let usdc_before = u.get_balance(&Asset::USDC) + u.get_locked(&Asset::USDC);
    let eth_before = u.get_balance(&Asset::ETH) + u.get_locked(&Asset::ETH);
    u.apply_fill(1, Asset::USDC, 200, Asset::ETH, 2).unwrap();
    assert_eq!(u.get_balance(&Asset::USDC) + u.get_locked(&Asset::USDC), usdc_before - 200);
    assert_eq!(u.get_balance(&Asset::ETH) + u.get_locked(&Asset::ETH), eth_before + 2);
}

#[test]
fn from_parts_rebuilds_valid_account() {
    let locks = vec![(1, LockEntry { asset: Asset::ETH, amount: 3 }), (2, LockEntry { asset: Asset::USDC, amount: 9 })];
    let u = User::from_parts(uid(11), locks.clone(), vec![1, 2, 3, 4, 5]).unwrap();
    assert_eq!(u.get_user_id(), 11);
    assert_eq!(u.get_lock_entries(), locks);
    assert_eq!(u.get_balance(&Asset::SOL), 2);
    assert_eq!(u.get_balance(&Asset::USDT), 5);
    assert_eq!(u.get_locked(&Asset::USDC), 9);
}

#[test]
fn from_parts_refuses_invalid_account() {
    assert!(User::from_parts(uid(11), vec![], vec![1, 2, 3]).is_none(), "one balance per asset");
    let dup = vec![(1, LockEntry { asset: Asset::ETH, amount: 3 }), (1, LockEntry { asset: Asset::SOL, amount: 1 })];
    assert!(User::from_parts(uid(11), dup, vec![0; 5]).is_none(), "two entries for one order");
    let big = vec![
        (1, LockEntry { asset: Asset::ETH, amount: u32::MAX }),
        (2, LockEntry { asset: Asset::ETH, amount: 1 }),
    ];
    assert!(User::from_parts(uid(11), big, vec![0; 5]).is_none(), "locked total beyond a Quantity");
}

#[test]
fn second_lock_uses_what_the_first_left() {
    let mut u = funded(Asset::USDC, 100);
    assert_eq!(u.lock(1, Asset::USDC, 60), Ok(()));
    assert_eq!(u.lock(2, Asset::USDC, 30), Ok(()));
    assert_eq!(u.get_balance(&Asset::USDC), 10);
    assert_eq!(u.get_locked(&Asset::USDC), 90);
    assert_eq!(u.lock(3, Asset::USDC, 11), Err("Insufficient balance".to_string()));
    assert_eq!(u.get_balance(&Asset::USDC), 10);
}
