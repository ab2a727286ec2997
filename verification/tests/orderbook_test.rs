use engine::level_info::LevelInfo;
use engine::order::Order;
use engine::order_modify::OrderModify;
use engine::orderbook::OrderBook;
use engine::types::{OrderStatus, OrderType, Side};

const ALICE: u128 = 1;
const BOB: u128 = 2;

fn gtc(id: u64, side: Side, price: i32, qty: u32, user: u128) -> Order {
    Order::new(id, OrderType::GoodTillCancel, side, OrderStatus::Empty, price, qty, user)
}

fn fak(id: u64, side: Side, price: i32, qty: u32, user: u128) -> Order {
    Order::new(id, OrderType::FillAndKill, side, OrderStatus::Empty, price, qty, user)
}

#[test]
fn new_book_is_empty() {
    let book = OrderBook::new();
    assert_eq!(book.size(), 0);
    let info = book.get_order_info();
    assert!(info.get_bids().is_empty());
    assert!(info.get_asks().is_empty());
}

#[test]
fn resting_order_gives_no_trades() {
    let mut book = OrderBook::new();
    let trades = book.add_order(gtc(1, Side::Sell, 2000, 10, BOB)).unwrap();
    assert!(trades.is_empty());
    assert!(book.has_order(&1));
    assert_eq!(book.get_order_type(&1), Some(OrderType::GoodTillCancel));
}

#[test]
fn duplicate_order_id_is_rejected() {
    let mut book = OrderBook::new();
    book.add_order(gtc(1, Side::Sell, 2000, 10, BOB)).unwrap();
    assert!(book.add_order(gtc(1, Side::Buy, 1000, 3, ALICE)).is_none());
    assert_eq!(book.size(), 1);
}

#[test]
fn crossing_order_trades_at_both_prices() {
    let mut book = OrderBook::new();
    book.add_order(gtc(1, Side::Sell, 1990, 10, BOB)).unwrap();
    let trades = book.add_order(gtc(2, Side::Buy, 2000, 4, ALICE)).unwrap();
    assert_eq!(trades.len(), 1);
    let t = trades[0];
    assert_eq!(t.get_bid_trade_info().get_order_id(), 2);
    assert_eq!(t.get_bid_trade_info().get_price(), 2000);
    assert_eq!(t.get_ask_trade_info().get_order_id(), 1);
    assert_eq!(t.get_ask_trade_info().get_price(), 1990);
    assert_eq!(t.get_bid_trade_info().get_quantity(), 4);
    assert_eq!(t.get_trade_id(), 0, "placeholder ID until the engine stamps it");
    assert_eq!(book.size(), 1);
    let asks = book.get_order_info().get_asks();
    assert_eq!(asks, vec![LevelInfo::new(1990, 6)]);
}

#[test]
fn buy_sweeps_asks_best_price_first() {
    let mut book = OrderBook::new();
    book.add_order(gtc(1, Side::Sell, 2010, 5, BOB)).unwrap();
    book.add_order(gtc(2, Side::Sell, 2000, 5, BOB)).unwrap();
    let trades = book.add_order(gtc(3, Side::Buy, 2010, 7, ALICE)).unwrap();
    assert_eq!(trades.len(), 2);
    assert_eq!(trades[0].get_ask_trade_info().get_order_id(), 2);
    assert_eq!(trades[0].get_bid_trade_info().get_quantity(), 5);
    assert_eq!(trades[1].get_ask_trade_info().get_order_id(), 1);
    assert_eq!(trades[1].get_bid_trade_info().get_quantity(), 2);
    assert_eq!(book.get_order_info().get_asks(), vec![LevelInfo::new(2010, 3)]);
}

#[test]
fn equal_prices_fill_oldest_first() {
    let mut book = OrderBook::new();
    book.add_order(gtc(1, Side::Buy, 1500, 3, ALICE)).unwrap();
    book.add_order(gtc(2, Side::Buy, 1500, 3, ALICE)).unwrap();
    let trades = book.add_order(gtc(3, Side::Sell, 1500, 4, BOB)).unwrap();
    assert_eq!(trades.len(), 2);
    assert_eq!(trades[0].get_bid_trade_info().get_order_id(), 1);
    assert_eq!(trades[1].get_bid_trade_info().get_order_id(), 2);
    assert_eq!(trades[1].get_bid_trade_info().get_quantity(), 1);
}

#[test]
fn own_orders_trade_by_default() {
    let mut book = OrderBook::new();
    book.add_order(gtc(1, Side::Sell, 2000, 5, ALICE)).unwrap();
    book.add_order(gtc(2, Side::Sell, 2000, 5, BOB)).unwrap();
    let trades = book.add_order(gtc(3, Side::Buy, 2000, 5, ALICE)).unwrap();
    assert_eq!(trades.len(), 1);
    assert_eq!(trades[0].get_ask_trade_info().get_user_id(), ALICE);
    assert!(!book.has_order(&1));
    assert!(book.has_order(&2));
}

#[test]
fn own_orders_are_skipped_without_self_trades() {
    let mut book = OrderBook::new();
    book.add_order(gtc(1, Side::Sell, 2000, 5, ALICE)).unwrap();
    book.add_order(gtc(2, Side::Sell, 2000, 5, BOB)).unwrap();
    let trades = book.add_order_without_self_trades(gtc(3, Side::Buy, 2000, 5, ALICE)).unwrap();
    assert_eq!(trades.len(), 1);
    assert_eq!(trades[0].get_ask_trade_info().get_user_id(), BOB);
    assert!(book.has_order(&1));
    assert!(!book.has_order(&2));
}

#[test]
fn fill_and_kill_without_counterpart_is_rejected() {
    let mut book = OrderBook::new();
    book.add_order(gtc(1, Side::Sell, 2000, 5, BOB)).unwrap();
    assert!(book.add_order(fak(2, Side::Buy, 1999, 5, ALICE)).is_none());
    assert_eq!(book.size(), 1);
}

#[test]
fn fill_and_kill_remainder_is_killed() {
    let mut book = OrderBook::new();
    book.add_order(gtc(1, Side::Sell, 2000, 3, BOB)).unwrap();
    let trades = book.add_order(fak(2, Side::Buy, 2000, 5, ALICE)).unwrap();
    assert_eq!(trades.len(), 1);
    assert_eq!(trades[0].get_bid_trade_info().get_quantity(), 3);
    assert_eq!(book.size(), 0);
    assert!(!book.has_order(&2));
}

#[test]
fn cancel_returns_order_as_placed() {
    let mut book = OrderBook::new();
    book.add_order(gtc(1, Side::Sell, 2000, 10, BOB)).unwrap();
    book.add_order(gtc(2, Side::Buy, 2000, 4, ALICE)).unwrap();
    let placed = book.cancel_order(&1).unwrap();
    assert_eq!(placed.get_order_id(), 1);
    assert_eq!(placed.get_remaining_quantity(), 10);
    assert_eq!(placed.get_status(), OrderStatus::Empty);
    assert_eq!(book.size(), 0);
    assert!(book.cancel_order(&1).is_none());
}

#[test]
fn modify_replaces_order_and_may_trade() {
    let mut book = OrderBook::new();
    book.add_order(gtc(1, Side::Buy, 1900, 3, ALICE)).unwrap();
    book.add_order(gtc(2, Side::Sell, 2100, 10, BOB)).unwrap();
    let m = OrderModify::new(2, 1900, Side::Sell, 10, OrderStatus::Empty, BOB);
    let trades = book.modify_orders(m).unwrap();
    assert_eq!(trades.len(), 1);
    assert_eq!(trades[0].get_bid_trade_info().get_quantity(), 3);
    assert_eq!(book.get_order_info().get_asks(), vec![LevelInfo::new(1900, 7)]);
    let missing = OrderModify::new(99, 1900, Side::Sell, 1, OrderStatus::Empty, BOB);
    assert!(book.modify_orders(missing).is_none());
    assert_eq!(book.size(), 1);
}

#[test]
fn depth_levels_aggregate_and_ascend() {
    let mut book = OrderBook::new();
    book.add_order(gtc(1, Side::Buy, 1900, 2, ALICE)).unwrap();
    book.add_order(gtc(2, Side::Buy, 1950, 3, ALICE)).unwrap();
    book.add_order(gtc(3, Side::Buy, 1900, 4, ALICE)).unwrap();
    book.add_order(gtc(4, Side::Sell, 2100, 1, BOB)).unwrap();
    book.add_order(gtc(5, Side::Sell, 2000, 6, BOB)).unwrap();
    book.add_order(gtc(6, Side::Sell, 2100, 2, BOB)).unwrap();
    assert!(book.depth_fits());
    let info = book.get_order_info();
    assert_eq!(info.get_bids(), vec![LevelInfo::new(1900, 6), LevelInfo::new(1950, 3)]);
    assert_eq!(info.get_asks(), vec![LevelInfo::new(2000, 6), LevelInfo::new(2100, 3)]);
}

#[test]
fn depth_fits_detects_overflowing_level() {
    let mut book = OrderBook::new();
    book.add_order(gtc(1, Side::Sell, 2000, u32::MAX, BOB)).unwrap();
    assert!(book.depth_fits());
    book.add_order(gtc(2, Side::Sell, 2000, 1, BOB)).unwrap();
    assert!(!book.depth_fits());
}

#[test]
fn order_fills_updates_status() {
    let mut o = gtc(1, Side::Buy, 100, 10, ALICE);
    assert!(o.fills(4).is_ok());
    assert_eq!(o.get_remaining_quantity(), 6);
    assert_eq!(o.get_filled_quantity(), 4);
    assert_eq!(o.get_status(), OrderStatus::PartiallyFilled);
    assert_eq!(
        o.fills(7),
        Err("Order (1) cannot be filled for more than its remaining quantity".to_string())
    );
    assert_eq!(o.get_remaining_quantity(), 6);
    assert!(o.fills(6).is_ok());
    assert!(o.is_filled());
    assert_eq!(o.get_status(), OrderStatus::Filled);
}

#[test]
fn overfill_message_names_order_in_decimal() {
    let mut o = gtc(4_070, Side::Sell, 100, 1, BOB);
    assert_eq!(
        o.fills(2),
        Err("Order (4070) cannot be filled for more than its remaining quantity".to_string())
    );
}
