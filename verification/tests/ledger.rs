use chronos_dex::orders::DexError;
use chronos_dex::orders::OrderSide;
use chronos_dex::orders::OrderStatus;
use chronos_dex::orders::cancel_order;
use chronos_dex::orders::initialize_market;
use chronos_dex::orders::place_order;

#[test]
fn market_starts_empty() {
    let m = initialize_market(7, 100, 200);
    assert_eq!(m.authority, 7);
    assert_eq!(m.base_mint, 100);
    assert_eq!(m.quote_mint, 200);
    assert_eq!(m.current_batch_id, 0);
    assert_eq!(m.total_volume, 0);
    assert_eq!(m.last_clearing_price, 0);
}

#[test]
fn place_order_tags_current_batch() {
    let mut m = initialize_market(7, 100, 200);
    m.current_batch_id = 3;
    let o = place_order(&m, 42, OrderSide::Buy, 1_500_000, 80, 1_060, 1_000).unwrap();
    assert_eq!(o.market, 7);
    assert_eq!(o.trader, 42);
    assert_eq!(o.side, OrderSide::Buy);
    assert_eq!(o.price, 1_500_000);
    assert_eq!(o.amount, 80);
    assert_eq!(o.filled_amount, 0);
    assert_eq!(o.slot_reservation_time, 1_060);
    assert_eq!(o.status, OrderStatus::Open);
    assert_eq!(o.created_at, 1_000);
    assert_eq!(o.batch_id, 3);
}

#[test]
fn place_order_past_slot_rejected() {
    let m = initialize_market(7, 100, 200);
    let now: i64 = 1_000;
    let r = place_order(&m, 42, OrderSide::Sell, 1_000_000, 10, now - 1, now);
    assert_eq!(r, Err(DexError::InvalidSlotReservation));
}

#[test]
fn place_order_slot_at_now_accepted() {
    let m = initialize_market(7, 100, 200);
    let now: i64 = 1_000;
    assert!(place_order(&m, 42, OrderSide::Sell, 1_000_000, 10, now, now).is_ok());
}

#[test]
fn cancel_order_by_owner() {
    let m = initialize_market(7, 100, 200);
    let mut o = place_order(&m, 42, OrderSide::Buy, 1_000_000, 10, 1_100, 1_000).unwrap();
    assert_eq!(cancel_order(&mut o, 42), Ok(()));
    assert_eq!(o.status, OrderStatus::Cancelled);
    assert_eq!(o.filled_amount, 0);
}

#[test]
fn cancel_order_wrong_trader_rejected() {
    let m = initialize_market(7, 100, 200);
    let mut o = place_order(&m, 42, OrderSide::Buy, 1_000_000, 10, 1_100, 1_000).unwrap();
    let before = o;
    assert_eq!(cancel_order(&mut o, 43), Err(DexError::Unauthorized));
    assert_eq!(o, before);
    assert_eq!(o.status, OrderStatus::Open);
}

#[test]
fn cancel_order_partially_filled_allowed() {
    let m = initialize_market(7, 100, 200);
    let mut o = place_order(&m, 42, OrderSide::Buy, 1_000_000, 10, 1_100, 1_000).unwrap();
    o.filled_amount = 4;
    o.status = OrderStatus::PartiallyFilled;
    assert_eq!(cancel_order(&mut o, 42), Ok(()));
    assert_eq!(o.status, OrderStatus::Cancelled);
}

#[test]
fn cancel_order_terminal_states_rejected() {
    let m = initialize_market(7, 100, 200);
    let mut o = place_order(&m, 42, OrderSide::Buy, 1_000_000, 10, 1_100, 1_000).unwrap();
    o.status = OrderStatus::Filled;
    o.filled_amount = 10;
    assert_eq!(cancel_order(&mut o, 42), Err(DexError::OrderNotOpen));
    assert_eq!(o.status, OrderStatus::Filled);
    o.status = OrderStatus::Cancelled;
    assert_eq!(cancel_order(&mut o, 42), Err(DexError::OrderNotOpen));
    assert_eq!(o.status, OrderStatus::Cancelled);
}
