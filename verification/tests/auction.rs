use chronos_dex::gate::RaikuReservationType;
use chronos_dex::gate::SlotReservation;
use chronos_dex::gate::confirm_slot_reservation;
use chronos_dex::gate::initialize;
use chronos_dex::gate::reserve_raiku_slot;
use chronos_dex::matching::execute_batch_auction;
use chronos_dex::matching::match_batch;
use chronos_dex::orders::DexError;
use chronos_dex::orders::Market;
use chronos_dex::orders::Order;
use chronos_dex::orders::OrderSide;
use chronos_dex::orders::initialize_market;
use chronos_dex::orders::place_order;

const AUTH: u64 = 7;
const NOW: i64 = 1_000;

fn market() -> Market {
    initialize_market(AUTH, 100, 200)
}

fn confirmed_reservation(slot_time: i64) -> SlotReservation {
    let mut orch = initialize(9);
    let mut res =
        reserve_raiku_slot(&mut orch, 3, slot_time, RaikuReservationType::AOT, 1, NOW).unwrap();
    let id = res.raiku_confirmation_id;
    confirm_slot_reservation(&mut res, id).unwrap();
    res
}

fn order(m: &Market, trader: u64, side: OrderSide, price: u64, amount: u64, slot: i64) -> Order {
    place_order(m, trader, side, price, amount, slot, NOW).unwrap()
}

#[test]
fn single_pair_clears_at_price_nearest_previous() {
    let mut m = market();
    let res = confirmed_reservation(NOW + 20);
    let orders = vec![
        order(&m, 0, OrderSide::Buy, 100, 50, NOW + 10),
        order(&m, 1, OrderSide::Sell, 90, 50, NOW + 5),
    ];
    let plan = execute_batch_auction(&mut m, &orders, &res, AUTH, NOW + 5).unwrap();
    // Both 90 and 100 match the full 50 with no imbalance; with no previous
    // clearing price recorded the lower price 90 is nearer and wins.
    assert_eq!(plan.clearing_price, Some(90));
    assert_eq!(plan.volume, 50);
    assert_eq!(plan.buy_fills, vec![50, 0]);
    assert_eq!(plan.sell_fills, vec![0, 50]);
    assert_eq!(plan.trades.len(), 1);
    assert_eq!(plan.trades[0].buyer, 0);
    assert_eq!(plan.trades[0].seller, 1);
    assert_eq!(plan.trades[0].quantity, 50);
    assert_eq!(plan.trades[0].price, 90);
    assert_eq!(m.current_batch_id, 1);
    assert_eq!(m.last_clearing_price, 90);
    // The auction itself moves no assets and fills no orders yet.
    assert_eq!(m.total_volume, 0);
}

#[test]
fn previous_clearing_price_steers_ties() {
    let mut m = market();
    m.last_clearing_price = 100;
    let res = confirmed_reservation(NOW + 20);
    let orders = vec![
        order(&m, 0, OrderSide::Buy, 100, 50, NOW + 10),
        order(&m, 1, OrderSide::Sell, 90, 50, NOW + 5),
    ];
    let plan = execute_batch_auction(&mut m, &orders, &res, AUTH, NOW + 5).unwrap();
    assert_eq!(plan.clearing_price, Some(100));
}

#[test]
fn no_crossing_price_leaves_book_open_but_advances_batch() {
    let mut m = market();
    let res = confirmed_reservation(NOW + 20);
    let orders = vec![
        order(&m, 0, OrderSide::Buy, 80, 50, NOW + 10),
        order(&m, 1, OrderSide::Sell, 100, 50, NOW + 5),
    ];
    let plan = execute_batch_auction(&mut m, &orders, &res, AUTH, NOW + 5).unwrap();
    assert_eq!(plan.clearing_price, None);
    assert_eq!(plan.volume, 0);
    assert_eq!(plan.trades.len(), 0);
    assert_eq!(plan.buy_fills, vec![0, 0]);
    assert_eq!(m.current_batch_id, 1);
    assert_eq!(m.last_clearing_price, 0);
}

#[test]
fn empty_book_still_advances_batch() {
    let mut m = market();
    let res = confirmed_reservation(NOW + 20);
    let orders: Vec<Order> = vec![];
    let plan = execute_batch_auction(&mut m, &orders, &res, AUTH, NOW + 5).unwrap();
    assert_eq!(plan.clearing_price, None);
    assert_eq!(m.current_batch_id, 1);
}

#[test]
fn wrong_authority_rejected() {
    let mut m = market();
    let res = confirmed_reservation(NOW + 20);
    let orders: Vec<Order> = vec![];
    let r = execute_batch_auction(&mut m, &orders, &res, AUTH + 1, NOW + 5);
    assert_eq!(r.unwrap_err(), DexError::Unauthorized);
    assert_eq!(m.current_batch_id, 0);
}

#[test]
fn unconfirmed_or_elapsed_reservation_rejected() {
    let mut m = market();
    let mut orch = initialize(9);
    let pending =
        reserve_raiku_slot(&mut orch, 3, NOW + 20, RaikuReservationType::AOT, 1, NOW).unwrap();
    let orders: Vec<Order> = vec![];
    let r = execute_batch_auction(&mut m, &orders, &pending, AUTH, NOW + 5);
    assert_eq!(r.unwrap_err(), DexError::InvalidSlotReservation);
    let confirmed = confirmed_reservation(NOW + 20);
    let late = execute_batch_auction(&mut m, &orders, &confirmed, AUTH, NOW + 100);
    assert_eq!(late.unwrap_err(), DexError::InvalidSlotReservation);
    assert_eq!(m.current_batch_id, 0);
}

#[test]
fn marginal_level_shares_pro_rata_with_leftover_to_earliest() {
    // Two buys at the marginal price 100 with remaining 30 and 11; the sell
    // side offers 20. Floors are 20*30/41 = 14 and 20*11/41 = 5; the one
    // leftover unit goes to the earlier-reserved buy.
    let m = market();
    let orders = vec![
        order(&m, 0, OrderSide::Buy, 100, 30, NOW + 5),
        order(&m, 1, OrderSide::Buy, 100, 11, NOW + 6),
        order(&m, 2, OrderSide::Sell, 100, 20, NOW + 1),
    ];
    let plan = match_batch(&orders, 0, 0).unwrap();
    assert_eq!(plan.clearing_price, Some(100));
    assert_eq!(plan.volume, 20);
    assert_eq!(plan.buy_fills, vec![15, 5, 0]);
    assert_eq!(plan.sell_fills, vec![0, 0, 20]);
}

#[test]
fn leftover_prefers_earlier_reservation_regardless_of_book_order() {
    // Same sizes, but the later book entry holds the earlier reservation.
    let m = market();
    let orders = vec![
        order(&m, 0, OrderSide::Buy, 100, 11, NOW + 6),
        order(&m, 1, OrderSide::Buy, 100, 30, NOW + 5),
        order(&m, 2, OrderSide::Sell, 100, 20, NOW + 1),
    ];
    let plan = match_batch(&orders, 0, 0).unwrap();
    assert_eq!(plan.buy_fills, vec![5, 15, 0]);
}

#[test]
fn strict_orders_fill_before_marginal_by_reservation_time() {
    // Both buys bid 100 but only 5 units are on offer at 90; the clearing
    // price settles at 90 and the earlier-reserved buy fills first.
    let m = market();
    let orders = vec![
        order(&m, 0, OrderSide::Buy, 100, 10, NOW + 9),
        order(&m, 1, OrderSide::Buy, 100, 10, NOW + 4),
        order(&m, 2, OrderSide::Sell, 90, 5, NOW + 1),
    ];
    let plan = match_batch(&orders, 0, 0).unwrap();
    assert_eq!(plan.clearing_price, Some(90));
    assert_eq!(plan.volume, 5);
    assert_eq!(plan.buy_fills, vec![0, 5, 0]);
}

#[test]
fn strictly_better_prices_fill_fully_before_the_marginal_level() {
    // The buy at 110 clears above the marginal level 100: it fills in full
    // and only the rest is shared at 100.
    let m = market();
    let orders = vec![
        order(&m, 0, OrderSide::Buy, 110, 10, NOW + 2),
        order(&m, 1, OrderSide::Buy, 100, 10, NOW + 3),
        order(&m, 2, OrderSide::Sell, 100, 15, NOW + 1),
    ];
    let plan = match_batch(&orders, 0, 0).unwrap();
    assert_eq!(plan.clearing_price, Some(100));
    assert_eq!(plan.volume, 15);
    assert_eq!(plan.buy_fills, vec![10, 5, 0]);
    assert_eq!(plan.sell_fills, vec![0, 0, 15]);
}

#[test]
fn every_trade_carries_the_one_clearing_price() {
    let m = market();
    let orders = vec![
        order(&m, 0, OrderSide::Buy, 120, 10, NOW + 2),
        order(&m, 1, OrderSide::Buy, 110, 10, NOW + 3),
        order(&m, 2, OrderSide::Sell, 90, 7, NOW + 4),
        order(&m, 3, OrderSide::Sell, 100, 13, NOW + 5),
    ];
    let plan = match_batch(&orders, 0, 0).unwrap();
    let p = plan.clearing_price.unwrap();
    assert!(plan.trades.len() >= 2);
    let mut total: u64 = 0;
    let mut k: usize = 0;
    while k < plan.trades.len() {
        assert_eq!(plan.trades[k].price, p);
        total += plan.trades[k].quantity;
        k += 1;
    }
    assert_eq!(total, plan.volume);
}

#[test]
fn rerunning_the_auction_gives_the_same_plan() {
    let m = market();
    let orders = vec![
        order(&m, 0, OrderSide::Buy, 105, 9, NOW + 2),
        order(&m, 1, OrderSide::Buy, 100, 14, NOW + 3),
        order(&m, 2, OrderSide::Sell, 95, 6, NOW + 4),
        order(&m, 3, OrderSide::Sell, 100, 11, NOW + 5),
    ];
    let plan1 = match_batch(&orders, 0, 0).unwrap();
    let plan2 = match_batch(&orders, 0, 0).unwrap();
    assert_eq!(plan1.clearing_price, plan2.clearing_price);
    assert_eq!(plan1.volume, plan2.volume);
    assert_eq!(plan1.buy_fills, plan2.buy_fills);
    assert_eq!(plan1.sell_fills, plan2.sell_fills);
    assert_eq!(plan1.trades, plan2.trades);
}

#[test]
fn unmatched_orders_roll_forward_into_later_batches() {
    let mut m = market();
    // Batch 0: a lone buy finds no counterparty.
    let buy = order(&m, 0, OrderSide::Buy, 100, 10, NOW + 10);
    assert_eq!(buy.batch_id, 0);
    let res = confirmed_reservation(NOW + 20);
    let orders0 = vec![buy];
    let plan0 = execute_batch_auction(&mut m, &orders0, &res, AUTH, NOW + 5).unwrap();
    assert_eq!(plan0.clearing_price, None);
    assert_eq!(m.current_batch_id, 1);
    // Batch 1: a sell arrives; the old buy is still eligible and matches.
    let sell = order(&m, 1, OrderSide::Sell, 100, 10, NOW + 30);
    assert_eq!(sell.batch_id, 1);
    let orders1 = vec![buy, sell];
    let res1 = confirmed_reservation(NOW + 40);
    let plan1 = execute_batch_auction(&mut m, &orders1, &res1, AUTH, NOW + 25).unwrap();
    assert_eq!(plan1.clearing_price, Some(100));
    assert_eq!(plan1.volume, 10);
    assert_eq!(plan1.buy_fills, vec![10, 0]);
}
