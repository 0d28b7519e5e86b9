//! Order-book ledger: markets, orders, and the operations that create and
//! cancel orders. A market is identified by its authority; orders carry the
//! batch id they were placed into and are matched at batch boundaries.

use vstd::prelude::*;

verus! {

#[derive(Clone, Copy, PartialEq, Eq, Structural, Debug)]
pub enum OrderSide {
    Buy,
    Sell,
}

#[derive(Clone, Copy, PartialEq, Eq, Structural, Debug)]
pub enum OrderStatus {
    Open,
    PartiallyFilled,
    Filled,
    Cancelled,
}

#[derive(Clone, Copy, PartialEq, Eq, Structural, Debug)]
pub enum DexError {
    InvalidSlotReservation,
    OrderNotOpen,
    Unauthorized,
    InsufficientLiquidity,
    ArithmeticOverflow,
}

/// One market for a base/quote pair. `current_batch_id` is the batch that
/// newly placed orders join; `last_clearing_price` feeds the stability
/// tie-break of the next auction.
#[derive(Clone, Copy, PartialEq, Eq, Structural, Debug)]
pub struct Market {
    pub authority: u64,
    pub base_mint: u64,
    pub quote_mint: u64,
    pub current_batch_id: u64,
    pub total_volume: u64,
    pub last_clearing_price: u64,
}

/// A resting order. `market` holds the authority of the market it belongs
/// to; `batch_id` is fixed at placement and never changes afterwards.
#[derive(Clone, Copy, PartialEq, Eq, Structural, Debug)]
pub struct Order {
    pub market: u64,
    pub trader: u64,
    pub side: OrderSide,
    pub price: u64,
    pub amount: u64,
    pub filled_amount: u64,
    pub slot_reservation_time: i64,
    pub status: OrderStatus,
    pub created_at: i64,
    pub batch_id: u64,
}

/// An order never has more filled than requested.
pub open spec fn order_wf(o: Order) -> bool {
    o.filled_amount <= o.amount
}

/// Orders that may still be matched or cancelled.
pub open spec fn order_live(o: Order) -> bool {
    o.status == OrderStatus::Open || o.status == OrderStatus::PartiallyFilled
}

/// Base units of the order still unfilled.
pub open spec fn remaining(o: Order) -> int {
    o.amount - o.filled_amount
}

/// The only status transitions an order may take: Open may move to
/// PartiallyFilled, Filled or Cancelled; PartiallyFilled may move to Filled
/// or Cancelled; Filled and Cancelled are terminal. Staying put is allowed.
pub open spec fn status_step_ok(pre: OrderStatus, post: OrderStatus) -> bool {
    ||| post == pre
    ||| (pre == OrderStatus::Open && (post == OrderStatus::PartiallyFilled
            || post == OrderStatus::Filled || post == OrderStatus::Cancelled))
    ||| (pre == OrderStatus::PartiallyFilled && (post == OrderStatus::Filled
            || post == OrderStatus::Cancelled))
}

/// The order as it stands after `f` more base units fill: `filled_amount`
/// grows by `f`, and the status moves to Filled or PartiallyFilled. A zero
/// fill leaves the order untouched.
pub open spec fn apply_fill(o: Order, f: u64) -> Order {
    if f == 0 {
        o
    } else {
        Order {
            filled_amount: (o.filled_amount + f) as u64,
            status: if o.filled_amount + f == o.amount {
                OrderStatus::Filled
            } else {
                OrderStatus::PartiallyFilled
            },
            ..o
        }
    }
}

/// Applying a fill within the remaining amount keeps the order well formed
/// and only takes allowed status transitions.
pub proof fn lemma_apply_fill_ok(o: Order, f: u64)
    requires
        order_wf(o),
        f > 0 ==> order_live(o),
        f <= remaining(o),
    ensures
        order_wf(apply_fill(o, f)),
        status_step_ok(o.status, apply_fill(o, f).status),
        remaining(apply_fill(o, f)) == remaining(o) - f,
{
}

pub fn initialize_market(authority: u64, base_mint: u64, quote_mint: u64) -> (m: Market)
    ensures
        m == (Market {
            authority,
            base_mint,
            quote_mint,
            current_batch_id: 0,
            total_volume: 0,
            last_clearing_price: 0,
        }),
{
    Market {
        authority,
        base_mint,
        quote_mint,
        current_batch_id: 0,
        total_volume: 0,
        last_clearing_price: 0,
    }
}

/// Places an order into the market's current batch. A reservation time in
/// the past is rejected and no order comes into being.
pub fn place_order(
    market: &Market,
    trader: u64,
    side: OrderSide,
    price: u64,
    amount: u64,
    slot_reservation_time: i64,
    now: i64,
) -> (r: Result<Order, DexError>)
    ensures
        match r {
            Result::Ok(o) => slot_reservation_time >= now && o == (Order {
                market: market.authority,
                trader,
                side,
                price,
                amount,
                filled_amount: 0,
                slot_reservation_time,
                status: OrderStatus::Open,
                created_at: now,
                batch_id: market.current_batch_id,
            }),
            Result::Err(e) => e == DexError::InvalidSlotReservation
                && slot_reservation_time < now,
        },
        r is Ok ==> order_wf(r->Ok_0) && order_live(r->Ok_0),
{
    if slot_reservation_time < now {
        return Result::Err(DexError::InvalidSlotReservation);
    }
    Result::Ok(Order {
        market: market.authority,
        trader,
        side,
        price,
        amount,
        filled_amount: 0,
        slot_reservation_time,
        status: OrderStatus::Open,
        created_at: now,
        batch_id: market.current_batch_id,
    })
}

/// Cancels a live order. Only the owning trader may cancel, and only while
/// the order is Open or PartiallyFilled; cancellation is terminal and the
/// order is thereafter excluded from matching. Nothing else changes.
pub fn cancel_order(order: &mut Order, trader: u64) -> (r: Result<(), DexError>)
    ensures
        match r {
            Result::Ok(()) => order_live(*old(order)) && trader == old(order).trader
                && *final(order) == (Order { status: OrderStatus::Cancelled, ..*old(order) }),
            Result::Err(e) => *final(order) == *old(order) && (
                if !order_live(*old(order)) {
                    e == DexError::OrderNotOpen
                } else {
                    e == DexError::Unauthorized && trader != old(order).trader
                }
            ),
        },
        status_step_ok(old(order).status, final(order).status),
{
    match order.status {
        OrderStatus::Open | OrderStatus::PartiallyFilled => {},
        _ => {
            return Result::Err(DexError::OrderNotOpen);
        },
    }
    if order.trader != trader {
        return Result::Err(DexError::Unauthorized);
    }
    order.status = OrderStatus::Cancelled;
    Result::Ok(())
}

} // verus!
