use chronos_dex::gate::RaikuReservationType;
use chronos_dex::gate::ReservationStatus;
use chronos_dex::gate::SlotReservation;
use chronos_dex::gate::confirm_slot_reservation;
use chronos_dex::gate::initialize;
use chronos_dex::gate::reserve_raiku_slot;
use chronos_dex::matching::execute_batch_auction;
use chronos_dex::orders::DexError;
use chronos_dex::orders::Market;
use chronos_dex::orders::Order;
use chronos_dex::orders::OrderSide;
use chronos_dex::orders::OrderStatus;
use chronos_dex::orders::initialize_market;
use chronos_dex::orders::place_order;
use chronos_dex::settlement::TokenAccount;
use chronos_dex::settlement::settle_batch;
use chronos_dex::settlement::settle_trade;

const AUTH: u64 = 7;
const NOW: i64 = 1_000;

fn confirmed_reservation(slot_time: i64) -> SlotReservation {
    let mut orch = initialize(9);
    let mut res =
        reserve_raiku_slot(&mut orch, 3, slot_time, RaikuReservationType::AOT, 1, NOW).unwrap();
    let id = res.raiku_confirmation_id;
    confirm_slot_reservation(&mut res, id).unwrap();
    res
}

/// One buy at 2.0 quote/base against one sell at 1.0: clears at 1_000_000
/// (fixed-point 1.0) for the full 50 base units, owing 50 quote units.
fn crossed_book() -> (Market, Vec<Order>) {
    let m = initialize_market(AUTH, 100, 200);
    let orders = vec![
        place_order(&m, 0, OrderSide::Buy, 2_000_000, 50, NOW + 10, NOW).unwrap(),
        place_order(&m, 1, OrderSide::Sell, 1_000_000, 50, NOW + 5, NOW).unwrap(),
    ];
    (m, orders)
}

#[test]
fn settle_trade_moves_base_and_quote() {
    let mut m = initialize_market(AUTH, 100, 200);
    let mut buyer_base = TokenAccount { owner: 0, amount: 5 };
    let mut buyer_quote = TokenAccount { owner: 0, amount: 1_000 };
    let mut seller_base = TokenAccount { owner: 1, amount: 80 };
    let mut seller_quote = TokenAccount { owner: 1, amount: 3 };
    // 50 base at 2.5 quote per base: 50 * 2_500_000 / 1_000_000 = 125 quote.
    let r = settle_trade(
        &mut m,
        &mut buyer_base,
        &mut buyer_quote,
        &mut seller_base,
        &mut seller_quote,
        50,
        2_500_000,
    );
    assert_eq!(r, Ok(()));
    assert_eq!(buyer_base.amount, 55);
    assert_eq!(seller_base.amount, 30);
    assert_eq!(buyer_quote.amount, 875);
    assert_eq!(seller_quote.amount, 128);
    assert_eq!(m.total_volume, 50);
}

#[test]
fn settle_trade_rounds_quote_down() {
    let mut m = initialize_market(AUTH, 100, 200);
    let mut buyer_base = TokenAccount { owner: 0, amount: 0 };
    let mut buyer_quote = TokenAccount { owner: 0, amount: 10 };
    let mut seller_base = TokenAccount { owner: 1, amount: 10 };
    let mut seller_quote = TokenAccount { owner: 1, amount: 0 };
    // 3 base at 0.5 quote per base owes floor(1.5) = 1 quote.
    let r = settle_trade(
        &mut m,
        &mut buyer_base,
        &mut buyer_quote,
        &mut seller_base,
        &mut seller_quote,
        3,
        500_000,
    );
    assert_eq!(r, Ok(()));
    assert_eq!(buyer_quote.amount, 9);
    assert_eq!(seller_quote.amount, 1);
}

#[test]
fn settle_trade_insufficient_base_rejected_untouched() {
    let mut m = initialize_market(AUTH, 100, 200);
    let mut buyer_base = TokenAccount { owner: 0, amount: 5 };
    let mut buyer_quote = TokenAccount { owner: 0, amount: 1_000 };
    let mut seller_base = TokenAccount { owner: 1, amount: 49 };
    let mut seller_quote = TokenAccount { owner: 1, amount: 3 };
    let r = settle_trade(
        &mut m,
        &mut buyer_base,
        &mut buyer_quote,
        &mut seller_base,
        &mut seller_quote,
        50,
        1_000_000,
    );
    assert_eq!(r, Err(DexError::InsufficientLiquidity));
    assert_eq!(buyer_base.amount, 5);
    assert_eq!(buyer_quote.amount, 1_000);
    assert_eq!(seller_base.amount, 49);
    assert_eq!(seller_quote.amount, 3);
    assert_eq!(m.total_volume, 0);
}

#[test]
fn settle_trade_quote_overflow_rejected() {
    let mut m = initialize_market(AUTH, 100, 200);
    let mut buyer_base = TokenAccount { owner: 0, amount: 0 };
    let mut buyer_quote = TokenAccount { owner: 0, amount: u64::MAX };
    let mut seller_base = TokenAccount { owner: 1, amount: u64::MAX };
    let mut seller_quote = TokenAccount { owner: 1, amount: 0 };
    let r = settle_trade(
        &mut m,
        &mut buyer_base,
        &mut buyer_quote,
        &mut seller_base,
        &mut seller_quote,
        u64::MAX,
        u64::MAX,
    );
    assert_eq!(r, Err(DexError::ArithmeticOverflow));
    assert_eq!(m.total_volume, 0);
}

#[test]
fn settle_batch_applies_fills_transfers_and_volume() {
    let (mut m, mut orders) = crossed_book();
    let res = confirmed_reservation(NOW + 20);
    let plan = execute_batch_auction(&mut m, &orders, &res, AUTH, NOW + 5).unwrap();
    assert_eq!(plan.clearing_price, Some(1_000_000));
    // Balances indexed by trader id: buyer is trader 0, seller trader 1.
    let mut base = vec![0u64, 50u64];
    let mut quote = vec![50u64, 0u64];
    let mut gate = confirmed_reservation(NOW + 20);
    let r = settle_batch(&mut m, &mut orders, &mut gate, &plan, &mut base, &mut quote, NOW + 5);
    assert_eq!(r, Ok(()));
    assert_eq!(base, vec![50, 0]);
    assert_eq!(quote, vec![0, 50]);
    assert_eq!(orders[0].filled_amount, 50);
    assert_eq!(orders[0].status, OrderStatus::Filled);
    assert_eq!(orders[1].filled_amount, 50);
    assert_eq!(orders[1].status, OrderStatus::Filled);
    assert_eq!(m.total_volume, 50);
    assert_eq!(gate.status, ReservationStatus::Executed);
}

#[test]
fn settle_batch_partial_fill_status() {
    let m0 = initialize_market(AUTH, 100, 200);
    let mut m = m0;
    let mut orders = vec![
        place_order(&m, 0, OrderSide::Buy, 1_000_000, 80, NOW + 10, NOW).unwrap(),
        place_order(&m, 1, OrderSide::Sell, 1_000_000, 30, NOW + 5, NOW).unwrap(),
    ];
    let res = confirmed_reservation(NOW + 20);
    let plan = execute_batch_auction(&mut m, &orders, &res, AUTH, NOW + 5).unwrap();
    assert_eq!(plan.volume, 30);
    let mut base = vec![0u64, 30u64];
    let mut quote = vec![30u64, 0u64];
    let mut gate = confirmed_reservation(NOW + 20);
    settle_batch(&mut m, &mut orders, &mut gate, &plan, &mut base, &mut quote, NOW + 5).unwrap();
    assert_eq!(orders[0].filled_amount, 30);
    assert_eq!(orders[0].status, OrderStatus::PartiallyFilled);
    assert_eq!(orders[1].status, OrderStatus::Filled);
}

#[test]
fn settle_batch_second_leg_failure_rolls_everything_back() {
    let (mut m, mut orders) = crossed_book();
    let res = confirmed_reservation(NOW + 20);
    let plan = execute_batch_auction(&mut m, &orders, &res, AUTH, NOW + 5).unwrap();
    let market_before = m;
    let orders_before = orders.clone();
    // The seller can provide the base leg, but the buyer is one quote unit
    // short for the second leg.
    let mut base = vec![0u64, 50u64];
    let mut quote = vec![49u64, 0u64];
    let mut gate = confirmed_reservation(NOW + 20);
    let r = settle_batch(&mut m, &mut orders, &mut gate, &plan, &mut base, &mut quote, NOW + 5);
    assert_eq!(r, Err(DexError::InsufficientLiquidity));
    // No leg's effect is observable: balances, orders and market stand as
    // before the attempt.
    assert_eq!(base, vec![0, 50]);
    assert_eq!(quote, vec![49, 0]);
    assert_eq!(orders, orders_before);
    assert_eq!(m, market_before);
    assert_eq!(gate.status, ReservationStatus::Failed);
}

#[test]
fn settle_batch_without_executable_reservation_rejected() {
    let (mut m, mut orders) = crossed_book();
    let res = confirmed_reservation(NOW + 20);
    let plan = execute_batch_auction(&mut m, &orders, &res, AUTH, NOW + 5).unwrap();
    let mut base = vec![0u64, 50u64];
    let mut quote = vec![50u64, 0u64];
    let mut orch = initialize(9);
    let mut pending =
        reserve_raiku_slot(&mut orch, 3, NOW + 20, RaikuReservationType::JIT, 1, NOW).unwrap();
    let r = settle_batch(&mut m, &mut orders, &mut pending, &plan, &mut base, &mut quote, NOW + 5);
    assert_eq!(r, Err(DexError::InvalidSlotReservation));
    assert_eq!(pending.status, ReservationStatus::Pending);
    assert_eq!(base, vec![0, 50]);
    assert_eq!(orders[0].status, OrderStatus::Open);
}
