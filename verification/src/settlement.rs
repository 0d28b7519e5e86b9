//! Settlement executor: turns matched trades into asset transfers at the
//! uniform clearing price and applies the fills to the order book. The
//! seller provides base, the buyer provides quote. A whole batch settles
//! all-or-nothing: when any transfer cannot be made, nothing at all
//! changes hands and every order keeps its pre-batch state.

use vstd::prelude::*;
use crate::gate::ReservationStatus;
use crate::gate::SlotReservation;
use crate::gate::is_executable;
use crate::gate::is_executable_spec;
use crate::matching::MatchPlan;
use crate::matching::Trade;
use crate::matching::book_wf;
use crate::matching::plan_ok;
use crate::orders::DexError;
use crate::orders::Market;
use crate::orders::Order;
use crate::orders::OrderSide;
use crate::orders::OrderStatus;
use crate::orders::apply_fill;
use crate::orders::order_wf;
use crate::orders::remaining;
use crate::orders::status_step_ok;

verus! {

/// A token balance held by a trader, in base or quote units.
#[derive(Clone, Copy, PartialEq, Eq, Structural, Debug)]
pub struct TokenAccount {
    pub owner: u64,
    pub amount: u64,
}

/// Prices are fixed-point integers carrying this many quote units per
/// whole quote asset.
pub const PRICE_PRECISION: u64 = 1_000_000;

/// Quote units owed for `amount` base units at fixed-point `price`,
/// rounded down.
pub open spec fn quote_amount_of(amount: u64, price: u64) -> int {
    (amount * price) / (PRICE_PRECISION as int)
}

/// The fill a plan assigns to the order at position `i`.
pub open spec fn fill_of(plan: MatchPlan, s: Seq<Order>, i: int) -> u64 {
    if s[i].side == OrderSide::Buy {
        plan.buy_fills@[i]
    } else {
        plan.sell_fills@[i]
    }
}

/// The balance vectors after the trades from position `k` on are applied
/// in order, each trade moving base from the seller to the buyer and
/// quote from the buyer to the seller; or the error of the first transfer
/// that cannot be made. Balances are indexed by trader id.
pub open spec fn apply_trades_from(
    s: Seq<Order>,
    ts: Seq<Trade>,
    k: int,
    base: Seq<u64>,
    quote: Seq<u64>,
) -> Result<(Seq<u64>, Seq<u64>), DexError>
    decreases ts.len() - k,
{
    if k < 0 || k >= ts.len() {
        Result::Ok((base, quote))
    } else {
        let t = ts[k];
        let b = s[t.buyer as int].trader as int;
        let sl = s[t.seller as int].trader as int;
        let q = quote_amount_of(t.quantity, t.price);
        if q > u64::MAX {
            Result::Err(DexError::ArithmeticOverflow)
        } else if base[sl] < t.quantity || quote[b] < q {
            Result::Err(DexError::InsufficientLiquidity)
        } else {
            let base1 = base.update(sl, (base[sl] - t.quantity) as u64);
            let quote1 = quote.update(b, (quote[b] - q) as u64);
            if base1[b] + t.quantity > u64::MAX || quote1[sl] + q > u64::MAX {
                Result::Err(DexError::ArithmeticOverflow)
            } else {
                apply_trades_from(
                    s,
                    ts,
                    k + 1,
                    base1.update(b, (base1[b] + t.quantity) as u64),
                    quote1.update(sl, (quote1[sl] + q) as u64),
                )
            }
        }
    }
}

/// Every trade of the plan names traders whose balances exist in the
/// vectors.
pub open spec fn traders_in_range(
    s: Seq<Order>,
    ts: Seq<Trade>,
    base: Seq<u64>,
    quote: Seq<u64>,
) -> bool {
    forall|k: int|
        0 <= k < ts.len() ==> {
            let t = #[trigger] ts[k];
            &&& (t.buyer as int) < s.len()
            &&& (t.seller as int) < s.len()
            &&& (s[t.buyer as int].trader as int) < base.len()
            &&& (s[t.buyer as int].trader as int) < quote.len()
            &&& (s[t.seller as int].trader as int) < base.len()
            &&& (s[t.seller as int].trader as int) < quote.len()
        }
}

/// Settlement moves assets but neither creates nor destroys them: when a
/// trade list applies in full, the total base and the total quote across
/// all balances are exactly what they were before.
pub proof fn lemma_settlement_conserves_totals(
    s: Seq<Order>,
    ts: Seq<Trade>,
    k: int,
    base: Seq<u64>,
    quote: Seq<u64>,
)
    requires
        traders_in_range(s, ts, base, quote),
    ensures
        match apply_trades_from(s, ts, k, base, quote) {
            Result::Ok(bq) => crate::matching::fsum(bq.0) == crate::matching::fsum(base)
                && crate::matching::fsum(bq.1) == crate::matching::fsum(quote),
            Result::Err(_) => true,
        },
    decreases ts.len() - k,
{
    if 0 <= k < ts.len() {
        let t = ts[k];
        let b = s[t.buyer as int].trader as int;
        let sl = s[t.seller as int].trader as int;
        let q = quote_amount_of(t.quantity, t.price);
        if q <= u64::MAX && base[sl] >= t.quantity && quote[b] >= q {
            let base1 = base.update(sl, (base[sl] - t.quantity) as u64);
            let quote1 = quote.update(b, (quote[b] - q) as u64);
            if base1[b] + t.quantity <= u64::MAX && quote1[sl] + q <= u64::MAX {
                let base2 = base1.update(b, (base1[b] + t.quantity) as u64);
                let quote2 = quote1.update(sl, (quote1[sl] + q) as u64);
                crate::matching::lemma_fsum_update(base, sl, (base[sl] - t.quantity) as u64);
                crate::matching::lemma_fsum_update(base1, b, (base1[b] + t.quantity) as u64);
                crate::matching::lemma_fsum_update(quote, b, (quote[b] - q) as u64);
                crate::matching::lemma_fsum_update(quote1, sl, (quote1[sl] + q) as u64);
                assert(crate::matching::fsum(base2) == crate::matching::fsum(base));
                assert(crate::matching::fsum(quote2) == crate::matching::fsum(quote));
                assert(traders_in_range(s, ts, base2, quote2));
                lemma_settlement_conserves_totals(s, ts, k + 1, base2, quote2);
            }
        }
    }
}

fn copy_balances(v: &Vec<u64>) -> (c: Vec<u64>)
    ensures
        c@ == v@,
{
    let mut c: Vec<u64> = Vec::new();
    let mut i: usize = 0;
    while i < v.len()
        invariant
            i <= v.len(),
            c@.len() == i as int,
            forall|j: int| 0 <= j < i ==> #[trigger] c@[j] == v@[j],
        decreases v.len() - i,
    {
        c.push(v[i]);
        i = i + 1;
    }
    proof {
        assert(c@ =~= v@);
    }
    c
}

/// Settles one matched trade between four token accounts: `amount` base
/// units move from the seller to the buyer and the rounded-down quote
/// amount moves from the buyer to the seller, and the market's cumulative
/// volume grows by `amount`. Any failed check leaves every account and the
/// market exactly as they were.
pub fn settle_trade(
    market: &mut Market,
    buyer_base: &mut TokenAccount,
    buyer_quote: &mut TokenAccount,
    seller_base: &mut TokenAccount,
    seller_quote: &mut TokenAccount,
    amount: u64,
    price: u64,
) -> (r: Result<(), DexError>)
    ensures
        ({
            let q = quote_amount_of(amount, price);
            match r {
                Result::Ok(()) => {
                    &&& q <= u64::MAX
                    &&& old(seller_base).amount >= amount
                    &&& old(buyer_quote).amount >= q
                    &&& old(buyer_base).amount + amount <= u64::MAX
                    &&& old(seller_quote).amount + q <= u64::MAX
                    &&& old(market).total_volume + amount <= u64::MAX
                    &&& *final(buyer_base) == (TokenAccount {
                        amount: (old(buyer_base).amount + amount) as u64,
                        ..*old(buyer_base)
                    })
                    &&& *final(seller_base) == (TokenAccount {
                        amount: (old(seller_base).amount - amount) as u64,
                        ..*old(seller_base)
                    })
                    &&& *final(buyer_quote) == (TokenAccount {
                        amount: (old(buyer_quote).amount - q) as u64,
                        ..*old(buyer_quote)
                    })
                    &&& *final(seller_quote) == (TokenAccount {
                        amount: (old(seller_quote).amount + q) as u64,
                        ..*old(seller_quote)
                    })
                    &&& *final(market) == (Market {
                        total_volume: (old(market).total_volume + amount) as u64,
                        ..*old(market)
                    })
                },
                Result::Err(e) => {
                    &&& *final(market) == *old(market)
                    &&& *final(buyer_base) == *old(buyer_base)
                    &&& *final(buyer_quote) == *old(buyer_quote)
                    &&& *final(seller_base) == *old(seller_base)
                    &&& *final(seller_quote) == *old(seller_quote)
                    &&& (if q > u64::MAX {
                        e == DexError::ArithmeticOverflow
                    } else if old(seller_base).amount < amount || old(buyer_quote).amount < q {
                        e == DexError::InsufficientLiquidity
                    } else {
                        e == DexError::ArithmeticOverflow && (old(buyer_base).amount + amount
                            > u64::MAX || old(seller_quote).amount + q > u64::MAX || old(
                            market,
                        ).total_volume + amount > u64::MAX)
                    })
                },
            }
        }),
{
    proof {
        assert((amount as int) * (price as int) <= (u64::MAX as int) * (u64::MAX as int))
            by (nonlinear_arith)
            requires
                amount as int <= u64::MAX as int,
                price as int <= u64::MAX as int,
                amount as int >= 0,
                price as int >= 0,
        ;
    }
    let wide: u128 = (amount as u128) * (price as u128);
    let q128: u128 = wide / (PRICE_PRECISION as u128);
    if q128 > u64::MAX as u128 {
        return Result::Err(DexError::ArithmeticOverflow);
    }
    let q: u64 = q128 as u64;
    if seller_base.amount < amount || buyer_quote.amount < q {
        return Result::Err(DexError::InsufficientLiquidity);
    }
    if amount > u64::MAX - buyer_base.amount || q > u64::MAX - seller_quote.amount || amount
        > u64::MAX - market.total_volume {
        return Result::Err(DexError::ArithmeticOverflow);
    }
    seller_base.amount = seller_base.amount - amount;
    buyer_base.amount = buyer_base.amount + amount;
    buyer_quote.amount = buyer_quote.amount - q;
    seller_quote.amount = seller_quote.amount + q;
    market.total_volume = market.total_volume + amount;
    Result::Ok(())
}

/// Settles a whole matched batch atomically, gated on the batch's slot
/// reservation. Every trade's transfers are checked against scratch
/// balances first; only when all of them go through are the balances
/// committed, the fills applied to the orders, the market's volume grown
/// by the matched volume, and the reservation marked Executed. When any
/// transfer fails, the orders, balances and market are left untouched and
/// the reservation is marked Failed; when the reservation is not
/// executable, nothing at all changes.
pub fn settle_batch(
    market: &mut Market,
    orders: &mut Vec<Order>,
    reservation: &mut SlotReservation,
    plan: &MatchPlan,
    base_bal: &mut Vec<u64>,
    quote_bal: &mut Vec<u64>,
    now: i64,
) -> (r: Result<(), DexError>)
    requires
        book_wf(old(orders)@),
        plan_ok(old(orders)@, *plan),
        traders_in_range(old(orders)@, plan.trades@, old(base_bal)@, old(quote_bal)@),
        old(market).total_volume + plan.volume <= u64::MAX,
    ensures
        match r {
            Result::Ok(()) => {
                &&& is_executable_spec(*old(reservation), now)
                &&& apply_trades_from(old(orders)@, plan.trades@, 0, old(base_bal)@, old(quote_bal)@)
                    == Result::<(Seq<u64>, Seq<u64>), DexError>::Ok(
                    (final(base_bal)@, final(quote_bal)@),
                )
                &&& final(orders)@.len() == old(orders)@.len()
                &&& forall|i: int|
                    0 <= i < old(orders)@.len() ==> final(orders)@[i] == apply_fill(
                        old(orders)@[i],
                        fill_of(*plan, old(orders)@, i),
                    )
                &&& book_wf(final(orders)@)
                &&& forall|i: int|
                    0 <= i < old(orders)@.len() ==> status_step_ok(
                        old(orders)@[i].status,
                        #[trigger] final(orders)@[i].status,
                    )
                &&& *final(market) == (Market {
                    total_volume: (old(market).total_volume + plan.volume) as u64,
                    ..*old(market)
                })
                &&& *final(reservation) == (SlotReservation {
                    status: ReservationStatus::Executed,
                    ..*old(reservation)
                })
            },
            Result::Err(e) => {
                &&& *final(market) == *old(market)
                &&& final(orders)@ == old(orders)@
                &&& final(base_bal)@ == old(base_bal)@
                &&& final(quote_bal)@ == old(quote_bal)@
                &&& (if !is_executable_spec(*old(reservation), now) {
                    e == DexError::InvalidSlotReservation && *final(reservation) == *old(
                        reservation,
                    )
                } else {
                    &&& apply_trades_from(
                        old(orders)@,
                        plan.trades@,
                        0,
                        old(base_bal)@,
                        old(quote_bal)@,
                    ) == Result::<(Seq<u64>, Seq<u64>), DexError>::Err(e)
                    &&& *final(reservation) == (SlotReservation {
                        status: ReservationStatus::Failed,
                        ..*old(reservation)
                    })
                })
            },
        },
{
    let ghost s = orders@;
    let ghost base0 = base_bal@;
    let ghost quote0 = quote_bal@;
    if !is_executable(reservation, now) {
        return Result::Err(DexError::InvalidSlotReservation);
    }
    let mut nb = copy_balances(base_bal);
    let mut nq = copy_balances(quote_bal);
    let mut k: usize = 0;
    let nt = plan.trades.len();
    let nbl: usize = nb.len();
    while k < nt
        invariant
            s == old(orders)@,
            orders@ == s,
            nbl as int == base0.len(),
            *reservation == *old(reservation),
            is_executable_spec(*old(reservation), now),
            base0 == old(base_bal)@,
            quote0 == old(quote_bal)@,
            base_bal@ == base0,
            quote_bal@ == quote0,
            nt == plan.trades@.len(),
            0 <= k <= nt,
            traders_in_range(s, plan.trades@, base0, quote0),
            nb@.len() == base0.len(),
            nq@.len() == quote0.len(),
            apply_trades_from(s, plan.trades@, 0, base0, quote0) == apply_trades_from(
                s,
                plan.trades@,
                k as int,
                nb@,
                nq@,
            ),
        decreases nt - k,
    {
        let t = plan.trades[k];
        let ghost nb_in = nb@;
        let ghost nq_in = nq@;
        proof {
            assert(plan.trades@[k as int] == t);
            assert((s[t.buyer as int].trader as int) < base0.len());
            assert((s[t.seller as int].trader as int) < base0.len());
            assert((t.quantity as int) * (t.price as int) <= (u64::MAX as int) * (u64::MAX as int))
                by (nonlinear_arith)
                requires
                    t.quantity as int <= u64::MAX as int,
                    t.price as int <= u64::MAX as int,
                    t.quantity as int >= 0,
                    t.price as int >= 0,
            ;
        }
        let wide: u128 = (t.quantity as u128) * (t.price as u128);
        let q128: u128 = wide / (PRICE_PRECISION as u128);
        proof {
            assert(q128 as int == quote_amount_of(t.quantity, t.price));
        }
        if q128 > u64::MAX as u128 {
            proof {
                assert(apply_trades_from(s, plan.trades@, k as int, nb_in, nq_in)
                    == Result::<(Seq<u64>, Seq<u64>), DexError>::Err(DexError::ArithmeticOverflow));
            }
            crate::gate::mark_reservation_failed(reservation);
            return Result::Err(DexError::ArithmeticOverflow);
        }
        let q: u64 = q128 as u64;
        proof {
            assert((s[t.buyer as int].trader as int) < nbl as int);
            assert((s[t.seller as int].trader as int) < nbl as int);
        }
        let bt = orders[t.buyer].trader as usize;
        let st = orders[t.seller].trader as usize;
        proof {
            assert(bt as int == s[t.buyer as int].trader as int);
            assert(st as int == s[t.seller as int].trader as int);
        }
        if nb[st] < t.quantity || nq[bt] < q {
            proof {
                assert(apply_trades_from(s, plan.trades@, k as int, nb_in, nq_in)
                    == Result::<(Seq<u64>, Seq<u64>), DexError>::Err(
                    DexError::InsufficientLiquidity,
                ));
            }
            crate::gate::mark_reservation_failed(reservation);
            return Result::Err(DexError::InsufficientLiquidity);
        }
        nb.set(st, nb[st] - t.quantity);
        nq.set(bt, nq[bt] - q);
        proof {
            assert(nb@ == nb_in.update(st as int, (nb_in[st as int] - t.quantity) as u64));
            assert(nq@ == nq_in.update(bt as int, (nq_in[bt as int] - q) as u64));
        }
        if t.quantity > u64::MAX - nb[bt] || q > u64::MAX - nq[st] {
            proof {
                assert(apply_trades_from(s, plan.trades@, k as int, nb_in, nq_in)
                    == Result::<(Seq<u64>, Seq<u64>), DexError>::Err(DexError::ArithmeticOverflow));
            }
            crate::gate::mark_reservation_failed(reservation);
            return Result::Err(DexError::ArithmeticOverflow);
        }
        nb.set(bt, nb[bt] + t.quantity);
        nq.set(st, nq[st] + q);
        k = k + 1;
    }
    // Every transfer goes through: commit balances, fills and volume.
    let n = orders.len();
    let ghost mid_orders = orders@;
    let mut i: usize = 0;
    while i < n
        invariant
            n == orders@.len(),
            s == old(orders)@,
            orders@.len() == s.len(),
            book_wf(s),
            plan_ok(s, *plan),
            0 <= i <= n,
            forall|j: int|
                0 <= j < i ==> #[trigger] orders@[j] == apply_fill(s[j], fill_of(*plan, s, j)),
            forall|j: int| i <= j < n ==> #[trigger] orders@[j] == s[j],
        decreases n - i,
    {
        let o = orders[i];
        let f = match o.side {
            OrderSide::Buy => plan.buy_fills[i],
            OrderSide::Sell => plan.sell_fills[i],
        };
        proof {
            assert(f == fill_of(*plan, s, i as int));
            assert(f <= remaining(s[i as int]));
        }
        if f > 0 {
            let nf = o.filled_amount + f;
            let new_status = if nf == o.amount {
                OrderStatus::Filled
            } else {
                OrderStatus::PartiallyFilled
            };
            orders.set(i, Order { filled_amount: nf, status: new_status, ..o });
        }
        i = i + 1;
    }
    proof {
        assert forall|j: int| 0 <= j < s.len() implies order_wf(#[trigger] orders@[j])
            && status_step_ok(s[j].status, orders@[j].status) by {
            crate::orders::lemma_apply_fill_ok(s[j], fill_of(*plan, s, j));
        }
    }
    *base_bal = nb;
    *quote_bal = nq;
    market.total_volume = market.total_volume + plan.volume;
    reservation.status = ReservationStatus::Executed;
    Result::Ok(())
}

} // verus!
