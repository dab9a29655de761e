use hftcore::depth::{
    BookError, L3MBOMarketDepth, MarketOrder, Side, BUY, INVALID_MAX, INVALID_MIN, SELL,
};

// tick_size = 0.01 and lot_size = 1 throughout: a price of 100.00 is tick
// 10000, and a quantity of 5 is 5 lots.
fn tick_of(px: f64) -> i32 {
    (px / 0.01).round() as i32
}

#[test]
fn add_buy_returns_prev_and_new_best() {
    let mut book = L3MBOMarketDepth::new();
    let r = book.add_buy_order(1, tick_of(100.00), 5, 0).unwrap();
    assert_eq!(r, (INVALID_MIN, 10000));
    assert_eq!(book.best_bid_tick(), 10000);
    assert_eq!(book.best_bid_tick() as f64 * 0.01, 100.00);
    assert_eq!(book.bid_qty_at_tick(10000), 5);
}

#[test]
fn add_lower_then_higher_moves_best() {
    let mut book = L3MBOMarketDepth::new();
    book.add_buy_order(1, tick_of(99.5), 2, 0).unwrap();
    let r = book.add_buy_order(2, tick_of(100.0), 3, 0).unwrap();
    assert_eq!(r, (9950, 10000));
}

#[test]
fn delete_removes_empty_level() {
    let mut book = L3MBOMarketDepth::new();
    book.add_buy_order(1, tick_of(100.00), 5, 0).unwrap();
    book.delete_order(1, 1).unwrap();
    assert_eq!(book.bid_qty_at_tick(10000), 0);
    assert_eq!(book.best_bid_tick(), INVALID_MIN);
}

#[test]
fn modify_in_place_adjusts_level() {
    let mut book = L3MBOMarketDepth::new();
    book.add_buy_order(1, tick_of(100.00), 5, 0).unwrap();
    let r = book.modify_order(1, tick_of(100.00), 8, 1).unwrap();
    assert_eq!(r, (BUY, 10000, 10000));
    assert_eq!(book.bid_qty_at_tick(10000), 8);
}

#[test]
fn add_sell_and_best_ask() {
    let mut book = L3MBOMarketDepth::new();
    let r = book.add_sell_order(1, tick_of(100.50), 4, 0).unwrap();
    assert_eq!(r, (INVALID_MAX, 10050));
    let r = book.add_sell_order(2, tick_of(100.25), 1, 0).unwrap();
    assert_eq!(r, (10050, 10025));
    assert_eq!(book.best_ask_tick(), 10025);
    assert_eq!(book.ask_qty_at_tick(10050), 4);
    assert_eq!(book.ask_qty_at_tick(10025), 1);
}

#[test]
fn duplicate_id_is_rejected_unchanged() {
    let mut book = L3MBOMarketDepth::new();
    book.add_buy_order(1, 10000, 5, 0).unwrap();
    let r = book.add_buy_order(1, 9999, 7, 0);
    assert_eq!(r, Err(BookError::OrderIdExist));
    assert_eq!(book.bid_qty_at_tick(10000), 5);
    assert_eq!(book.bid_qty_at_tick(9999), 0);
}

#[test]
fn missing_id_is_not_found() {
    let mut book = L3MBOMarketDepth::new();
    assert_eq!(book.delete_order(42, 0), Err(BookError::OrderNotFound));
    assert_eq!(book.modify_order(42, 10000, 1, 0), Err(BookError::OrderNotFound));
}

#[test]
fn add_via_market_order_aggregates_level() {
    let mut book = L3MBOMarketDepth::new();
    book.add(MarketOrder { order_id: 1, side: Side::Buy, price_tick: 10000, qty: 5 })
        .unwrap();
    book.add(MarketOrder { order_id: 2, side: Side::Buy, price_tick: 10000, qty: 3 })
        .unwrap();
    assert_eq!(book.bid_qty_at_tick(10000), 8);
    let r = book.add(MarketOrder { order_id: 2, side: Side::Buy, price_tick: 10000, qty: 3 });
    assert_eq!(r, Err(BookError::OrderIdExist));
    assert_eq!(book.bid_qty_at_tick(10000), 8);
}

#[test]
fn modify_moves_level_and_refreshes_best() {
    let mut book = L3MBOMarketDepth::new();
    book.add_buy_order(1, 10000, 5, 0).unwrap();
    book.add_buy_order(2, 9900, 2, 0).unwrap();
    // Repricing the best order downward empties its level; the best is
    // refreshed from the ladder.
    let r = book.modify_order(1, 9950, 5, 1).unwrap();
    assert_eq!(r, (BUY, 10000, 9950));
    assert_eq!(book.bid_qty_at_tick(10000), 0);
    assert_eq!(book.bid_qty_at_tick(9950), 5);
    assert_eq!(book.best_bid_tick(), 9950);
}

#[test]
fn modify_moves_ask_level_on_ask_side() {
    let mut book = L3MBOMarketDepth::new();
    book.add_sell_order(1, 10050, 4, 0).unwrap();
    book.add_sell_order(2, 10100, 2, 0).unwrap();
    let r = book.modify_order(1, 10200, 4, 1).unwrap();
    assert_eq!(r, (SELL, 10050, 10100));
    // The emptied ask level is removed from the ask side; the bid side is
    // untouched.
    assert_eq!(book.ask_qty_at_tick(10050), 0);
    assert_eq!(book.ask_qty_at_tick(10200), 4);
    assert_eq!(book.best_ask_tick(), 10100);
    assert_eq!(book.best_bid_tick(), INVALID_MIN);
}

#[test]
fn deleting_all_orders_empties_the_book() {
    let mut book = L3MBOMarketDepth::new();
    book.add_buy_order(1, 10000, 5, 0).unwrap();
    book.add_buy_order(2, 9950, 2, 0).unwrap();
    book.add_sell_order(3, 10050, 1, 0).unwrap();
    book.delete_order(2, 1).unwrap();
    book.delete_order(1, 1).unwrap();
    book.delete_order(3, 1).unwrap();
    assert_eq!(book.best_bid_tick(), INVALID_MIN);
    assert_eq!(book.best_ask_tick(), INVALID_MAX);
    assert_eq!(book.bid_qty_at_tick(10000), 0);
    assert_eq!(book.bid_qty_at_tick(9950), 0);
    assert_eq!(book.ask_qty_at_tick(10050), 0);
}

#[test]
fn add_then_delete_round_trips() {
    let mut book = L3MBOMarketDepth::new();
    book.add_buy_order(1, 10000, 5, 0).unwrap();
    book.add_buy_order(2, 10000, 3, 0).unwrap();
    book.delete_order(2, 1).unwrap();
    // Back to the prior state: the level holds the first order alone and
    // the freed id can be used again.
    assert_eq!(book.bid_qty_at_tick(10000), 5);
    assert_eq!(book.best_bid_tick(), 10000);
    book.add_buy_order(2, 10000, 3, 0).unwrap();
    assert_eq!(book.bid_qty_at_tick(10000), 8);
}

#[test]
fn ladder_walks_in_ascending_tick_order() {
    let mut book = L3MBOMarketDepth::new();
    book.add_buy_order(1, 10000, 5, 0).unwrap();
    book.add_buy_order(2, 9950, 2, 0).unwrap();
    book.add_buy_order(3, 10000, 1, 0).unwrap();
    assert_eq!(book.bid_depth.len(), 2);
    assert_eq!(book.bid_depth.level_at(0), (9950, 2));
    assert_eq!(book.bid_depth.level_at(1), (10000, 6));
    assert_eq!(book.bid_depth.max_tick(), 10000);
    assert_eq!(book.bid_depth.min_tick(), 9950);
    assert_eq!(book.ask_depth.len(), 0);
}

#[test]
fn clear_depth_clears_one_side() {
    let mut book = L3MBOMarketDepth::new();
    book.add_buy_order(1, 10000, 5, 0).unwrap();
    book.add_buy_order(2, 9950, 2, 0).unwrap();
    book.add_sell_order(3, 10050, 1, 0).unwrap();
    book.clear_depth(BUY, 0);
    assert_eq!(book.best_bid_tick(), INVALID_MIN);
    assert_eq!(book.bid_qty_at_tick(10000), 0);
    // The ask side is untouched.
    assert_eq!(book.best_ask_tick(), 10050);
    assert_eq!(book.ask_qty_at_tick(10050), 1);
    // The cleared side's orders are gone with their levels.
    assert_eq!(book.delete_order(1, 1), Err(BookError::OrderNotFound));
    assert_eq!(book.delete_order(3, 1), Ok(()));
}

#[test]
fn clear_depth_other_side_clears_asks() {
    let mut book = L3MBOMarketDepth::new();
    book.add_buy_order(1, 10000, 5, 0).unwrap();
    book.add_sell_order(2, 10050, 1, 0).unwrap();
    book.clear_depth(SELL, 0);
    assert_eq!(book.best_ask_tick(), INVALID_MAX);
    assert_eq!(book.ask_qty_at_tick(10050), 0);
    assert_eq!(book.best_bid_tick(), 10000);
    assert_eq!(book.bid_qty_at_tick(10000), 5);
}
