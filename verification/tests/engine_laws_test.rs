use engine::engine::CoreEngine;
use engine::matching_engine::Engine;
use engine::order::Order;
use engine::order_modify::OrderModify;
use engine::trading_pair::TradingPair;
use engine::types::{Asset, OrderStatus, OrderType, Side, UserId};
use engine::users::User;
use engine::wal::max_sequence;

const ALICE: UserId = 0xa11ce;
const BOB: UserId = 0xb0b;

fn eth_usdc() -> TradingPair {
    TradingPair::new(Asset::ETH, Asset::USDC)
}

fn funded_core() -> CoreEngine {
    let mut e = CoreEngine::new();
    e.add_trading_pair(eth_usdc());
    e.add_user(User::new(Some(ALICE)));
    e.add_user(User::new(Some(BOB)));
    e.deposit(ALICE, Asset::USDC, 100_000).unwrap();
    e.deposit(BOB, Asset::ETH, 50).unwrap();
    e
}

fn order(e: &mut CoreEngine, side: Side, price: i32, qty: u32, user: UserId) -> Order {
    let id = e.next_id();
    Order::new(id, OrderType::GoodTillCancel, side, OrderStatus::Empty, price, qty, user)
}

fn holding(e: &CoreEngine, user: UserId, asset: Asset) -> u64 {
    e.get_user_balance(&user)
        .unwrap()
        .iter()
        .find(|(a, _)| *a == asset)
        .map_or(0, |(_, (bal, locked))| *bal as u64 + *locked as u64)
}

#[test]
fn place_then_cancel_restores_books_and_balances() {
    let mut e = funded_core();
    let pair = eth_usdc();
    let before = e.get_user_balance(&ALICE);
    let o = order(&mut e, Side::Buy, 1900, 5, ALICE);
    let id = o.get_order_id();
    let r = e.add_order(ALICE, &pair, o).unwrap().unwrap();
    assert!(r.trades.unwrap().is_empty());
    assert_eq!(e.get_user_balance(&ALICE), Some(vec![(Asset::USDC, (90_500, 9_500))]));
    assert!(e.cancel_order(&pair, &id));
    assert_eq!(e.get_user_balance(&ALICE), before);
    assert_eq!(e.size(&pair), Some(0));
}

#[test]
fn trade_conserves_what_buyer_and_seller_hold() {
    let mut e = funded_core();
    let pair = eth_usdc();
    let base0 = holding(&e, ALICE, Asset::ETH) + holding(&e, BOB, Asset::ETH);
    let quote0 = holding(&e, ALICE, Asset::USDC) + holding(&e, BOB, Asset::USDC);
    let s = order(&mut e, Side::Sell, 1990, 10, BOB);
    e.add_order(BOB, &pair, s).unwrap();
    let b = order(&mut e, Side::Buy, 2000, 4, ALICE);
    let r = e.add_order(ALICE, &pair, b).unwrap().unwrap();
    assert_eq!(r.trades.unwrap().len(), 1);
    assert_eq!(holding(&e, ALICE, Asset::ETH) + holding(&e, BOB, Asset::ETH), base0);
    assert_eq!(holding(&e, ALICE, Asset::USDC) + holding(&e, BOB, Asset::USDC), quote0);
    // the buyer pays the resting ask's price; what it locked beyond that is released
    assert_eq!(e.get_user_balance(&ALICE), Some(vec![(Asset::ETH, (4, 0)), (Asset::USDC, (92_040, 0))]));
    assert_eq!(e.get_user_balance(&BOB), Some(vec![(Asset::ETH, (40, 6)), (Asset::USDC, (7_960, 0))]));
}

#[test]
fn sell_into_resting_bid_pays_bid_price() {
    let mut e = funded_core();
    let pair = eth_usdc();
    let b = order(&mut e, Side::Buy, 2000, 3, ALICE);
    e.add_order(ALICE, &pair, b).unwrap();
    let s = order(&mut e, Side::Sell, 1900, 3, BOB);
    e.add_order(BOB, &pair, s).unwrap();
    assert_eq!(e.get_user_balance(&BOB), Some(vec![(Asset::ETH, (47, 0)), (Asset::USDC, (6_000, 0))]));
    assert_eq!(e.get_user_balance(&ALICE), Some(vec![(Asset::ETH, (3, 0)), (Asset::USDC, (94_000, 0))]));
}

#[test]
fn add_order_errors() {
    let mut e = funded_core();
    let pair = eth_usdc();
    let o = order(&mut e, Side::Buy, 2000, 5, 0xdead);
    assert_eq!(e.add_order(0xdead, &pair, o).err(), Some("User not found".to_string()));
    let o = order(&mut e, Side::Buy, 2000, 51, ALICE);
    assert_eq!(e.add_order(ALICE, &pair, o).err(), Some("Insufficient balance".to_string()));
    let o = order(&mut e, Side::Buy, i32::MAX, 3, ALICE);
    assert_eq!(e.add_order(ALICE, &pair, o).err(), Some("Lock amount overflow".to_string()));
    assert_eq!(e.get_user_balance(&ALICE), Some(vec![(Asset::USDC, (100_000, 0))]));
}

#[test]
fn unknown_pair_refuses_order_and_locks_nothing() {
    let mut e = funded_core();
    let sol = TradingPair::new(Asset::SOL, Asset::USDC);
    let o = order(&mut e, Side::Buy, 100, 10, ALICE);
    assert_eq!(e.add_order(ALICE, &sol, o).err(), Some("Trading pair not found".to_string()));
    assert_eq!(e.get_user_balance(&ALICE), Some(vec![(Asset::USDC, (100_000, 0))]));
}

#[test]
fn duplicate_id_is_refused_and_keeps_the_resting_lock() {
    let mut e = funded_core();
    let pair = eth_usdc();
    let o = Order::new(7, OrderType::GoodTillCancel, Side::Buy, OrderStatus::Empty, 2000, 10, ALICE);
    e.add_order(ALICE, &pair, o).unwrap();
    let dup = Order::new(7, OrderType::GoodTillCancel, Side::Buy, OrderStatus::Empty, 1000, 1, ALICE);
    assert!(e.add_order(ALICE, &pair, dup).unwrap().is_none());
    assert_eq!(e.size(&pair), Some(1));
    assert_eq!(e.get_user_balance(&ALICE), Some(vec![(Asset::USDC, (80_000, 20_000))]));
}

#[test]
fn core_modify_gives_the_replacement_a_fresh_id() {
    let mut e = funded_core();
    let pair = eth_usdc();
    let o = order(&mut e, Side::Buy, 1900, 5, ALICE);
    let old_id = o.get_order_id();
    e.add_order(ALICE, &pair, o).unwrap();
    let m = OrderModify::new(old_id, 1950, Side::Buy, 4, OrderStatus::Empty, ALICE);
    let r = e.modify_order(&pair, m).unwrap();
    assert!(r.order_id > old_id, "fresh ID from the generator");
    assert!(!e.cancel_order(&pair, &old_id), "the old ID no longer rests");
    assert_eq!(e.get_order_type(&pair, &r.order_id), Some(OrderType::GoodTillCancel));
    assert_eq!(e.get_user_balance(&ALICE), Some(vec![(Asset::USDC, (92_200, 7_800))]));
}

#[test]
fn deposit_to_unknown_user_is_refused() {
    let mut e = funded_core();
    assert_eq!(e.deposit(0xdead, Asset::ETH, 1), Err("User not found".to_string()));
    assert!(e.get_user_balance(&0xdead).is_none());
}

#[test]
fn balance_report_lists_nonzero_assets_in_fixed_order() {
    let mut e = funded_core();
    e.deposit(ALICE, Asset::USDT, 7).unwrap();
    e.deposit(ALICE, Asset::ETH, 2).unwrap();
    assert_eq!(
        e.get_user_balance(&ALICE),
        Some(vec![(Asset::ETH, (2, 0)), (Asset::USDC, (100_000, 0)), (Asset::USDT, (7, 0))])
    );
}

#[test]
fn add_user_replaces_account_with_same_id() {
    let mut e = funded_core();
    e.add_user(User::new(Some(ALICE)));
    assert_eq!(e.get_user_balance(&ALICE), Some(vec![]));
    assert!(e.remove_user(&ALICE).is_some());
    assert!(e.remove_user(&ALICE).is_none());
}

#[test]
fn add_trading_pair_twice_keeps_the_book() {
    let mut e = funded_core();
    let pair = eth_usdc();
    let o = order(&mut e, Side::Sell, 2000, 1, BOB);
    e.add_order(BOB, &pair, o).unwrap();
    e.add_trading_pair(pair);
    assert_eq!(e.size(&pair), Some(1));
}

#[test]
fn depth_fits_for_known_and_unknown_pairs() {
    let e = funded_core();
    assert!(e.depth_fits(&eth_usdc()));
    assert!(e.depth_fits(&TradingPair::new(Asset::BTC, Asset::USDT)));
}

#[test]
fn trades_get_increasing_ids_and_times() {
    let mut e = funded_core();
    let pair = eth_usdc();
    for price in [2000, 2001, 2002] {
        let s = order(&mut e, Side::Sell, price, 1, BOB);
        e.add_order(BOB, &pair, s).unwrap();
    }
    let b = order(&mut e, Side::Buy, 2002, 3, ALICE);
    let id = b.get_order_id();
    let r = e.add_order(ALICE, &pair, b).unwrap().unwrap();
    let trades = r.trades.unwrap();
    assert_eq!(trades.len(), 3);
    assert!(id < trades[0].get_trade_id());
    assert!(trades[0].get_trade_id() < trades[1].get_trade_id());
    assert!(trades[1].get_trade_id() < trades[2].get_trade_id());
    assert!(trades.iter().all(|t| t.get_timestamp() > 0));
}

#[test]
fn engine_assigns_fresh_order_ids() {
    let mut e = Engine::new();
    let pair = eth_usdc();
    e.add_trading_pair(pair);
    e.add_user(User::new(Some(ALICE)));
    e.deposit(ALICE, Asset::USDC, 100_000).unwrap();
    let mk = || Order::new(0, OrderType::GoodTillCancel, Side::Buy, OrderStatus::Empty, 1000, 1, ALICE);
    let a = e.add_order(ALICE, &pair, mk()).unwrap().unwrap().order_id;
    let b = e.add_order(ALICE, &pair, mk()).unwrap().unwrap().order_id;
    assert!(a > 0 && a < b, "placeholder ID replaced by increasing IDs");
    let m = OrderModify::new(b, 1100, Side::Buy, 2, OrderStatus::Empty, ALICE);
    let c = e.modify_order(&pair, m).unwrap().order_id;
    assert!(b < c, "a modified order gets a new ID");
    assert!(!e.cancel_order(&pair, &b), "the old ID is gone");
    assert_eq!(e.size(&pair), Some(2));
    assert_eq!(e.get_user_balance(&ALICE), Some(vec![(Asset::USDC, (96_800, 3_200))]));
}

#[test]
fn max_sequence_of_log_entries() {
    assert_eq!(max_sequence(&vec![]), 0);
    assert_eq!(max_sequence(&vec![3, 9, 4]), 9);
    assert_eq!(max_sequence(&vec![5]), 5);
}

#[test]
fn rejected_order_changes_nothing() {
    let mut e = funded_core();
    let pair = eth_usdc();
    let before = e.get_user_balance(&ALICE);
    let id = e.next_id();
    let o = Order::new(id, OrderType::FillAndKill, Side::Buy, OrderStatus::Empty, 1900, 5, ALICE);
    assert!(e.add_order(ALICE, &pair, o).unwrap().is_none(), "nothing to trade against");
    assert_eq!(e.get_user_balance(&ALICE), before);
    assert_eq!(e.size(&pair), Some(0));
    let s = order(&mut e, Side::Sell, 2000, 2, BOB);
    let sid = s.get_order_id();
    e.add_order(BOB, &pair, s).unwrap();
    assert_eq!(e.get_user_balance(&BOB), Some(vec![(Asset::ETH, (48, 2))]));
    let dup = Order::new(sid, OrderType::GoodTillCancel, Side::Sell, OrderStatus::Empty, 2100, 1, BOB);
    assert!(e.add_order(BOB, &pair, dup).unwrap().is_none(), "ID already rests");
    assert_eq!(e.get_user_balance(&BOB), Some(vec![(Asset::ETH, (48, 2))]));
    assert_eq!(e.size(&pair), Some(1));
}

#[test]
fn sweep_conserves_every_asset() {
    let mut e = funded_core();
    let pair = eth_usdc();
    e.deposit(BOB, Asset::SOL, 9).unwrap();
    let assets = [Asset::ETH, Asset::SOL, Asset::BTC, Asset::USDC, Asset::USDT];
    let totals = |e: &CoreEngine| assets.map(|a| holding(e, ALICE, a) + holding(e, BOB, a));
    for (price, qty) in [(1990, 2), (2000, 3), (2010, 4)] {
        let s = order(&mut e, Side::Sell, price, qty, BOB);
        e.add_order(BOB, &pair, s).unwrap();
    }
    let before = totals(&e);
    let b = Order::new(e.next_id(), OrderType::FillAndKill, Side::Buy, OrderStatus::Empty, 2000, 9, ALICE);
    let r = e.add_order(ALICE, &pair, b).unwrap().unwrap();
    assert_eq!(r.trades.unwrap().len(), 2);
    assert_eq!(totals(&e), before);
    assert_eq!(e.size(&pair), Some(1), "the 2010 ask rests; the buy's remainder was killed");
    assert_eq!(e.get_user_balance(&ALICE), Some(vec![(Asset::ETH, (5, 0)), (Asset::USDC, (90_020, 0))]));
}

#[test]
fn later_orders_lock_what_earlier_ones_left() {
    let mut e = funded_core();
    let pair = eth_usdc();
    let a = order(&mut e, Side::Buy, 2000, 30, ALICE);
    e.add_order(ALICE, &pair, a).unwrap();
    let b = order(&mut e, Side::Buy, 2000, 15, ALICE);
    assert!(e.add_order(ALICE, &pair, b).is_ok(), "30,000 of the 40,000 left can be locked");
    assert_eq!(e.get_user_balance(&ALICE), Some(vec![(Asset::USDC, (10_000, 90_000))]));
    let c = order(&mut e, Side::Buy, 2000, 6, ALICE);
    assert_eq!(e.add_order(ALICE, &pair, c).err(), Some("Insufficient balance".to_string()));
}
