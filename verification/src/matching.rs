//! Batch auction matching engine. At a batch boundary the engine selects
//! the live orders eligible for the batch, finds the uniform clearing price
//! that maximizes matched volume over the book's limit prices (ties broken
//! by smaller demand/supply imbalance, then by nearness to the previous
//! batch's clearing price, then by the lower price), allocates fills
//! pro-rata at the marginal price level with priority by earlier slot
//! reservation, and pairs the fills into trades for settlement. Unmatched
//! orders stay live and roll forward into later batches.

use vstd::prelude::*;
use crate::gate::SlotReservation;
use crate::gate::is_executable;
use crate::gate::is_executable_spec;
use crate::orders::DexError;
use crate::orders::Market;
use crate::orders::Order;
use crate::orders::OrderSide;
use crate::orders::OrderStatus;
use crate::orders::order_live;
use crate::orders::order_wf;
use crate::orders::remaining;
use crate::sums::lemma_sum_idx_from_congruent;
use crate::sums::lemma_sum_idx_from_nonneg;
use crate::sums::lemma_sum_idx_perm;
use crate::sums::lemma_sum_idx_split;
use crate::sums::lemma_sum_pos_add;
use crate::sums::lemma_sum_pos_le;
use crate::sums::lemma_sum_pos_lt;
use crate::sums::lemma_sum_pos_nonneg;
use crate::sums::lemma_sum_pos_congruent;
use crate::sums::lemma_sum_pos_pos;
use crate::sums::lemma_sum_pos_prefix_le;
use crate::sums::lemma_sum_pos_update;
use crate::sums::lemma_sum_pos_upper;
use crate::sums::sum_idx_from;
use crate::sums::sum_idx_upto;
use crate::sums::sum_pos;
use vstd::arithmetic::div_mod::lemma_div_is_ordered;
use vstd::arithmetic::div_mod::lemma_div_multiples_vanish;
use vstd::arithmetic::div_mod::lemma_div_of0;
use vstd::arithmetic::div_mod::lemma_div_by_multiple;
use vstd::arithmetic::div_mod::lemma_div_pos_is_pos;
use vstd::arithmetic::div_mod::lemma_fundamental_div_mod;
use vstd::arithmetic::div_mod::lemma_multiply_divide_le;
use vstd::arithmetic::mul::lemma_mul_inequality;
use vstd::arithmetic::mul::lemma_mul_is_commutative;
use vstd::arithmetic::mul::lemma_mul_is_distributive_add;
use vstd::arithmetic::mul::lemma_mul_nonnegative;

verus! {

/// Every order of a book has no more filled than requested.
pub open spec fn book_wf(s: Seq<Order>) -> bool {
    forall|i: int| 0 <= i < s.len() ==> order_wf(#[trigger] s[i])
}

/// Orders the engine considers when clearing `batch`: live orders placed
/// into this batch or an earlier one. Unmatched orders roll forward across
/// batches indefinitely; they never expire by age.
pub open spec fn eligible(o: Order, batch: u64) -> bool {
    order_live(o) && o.batch_id <= batch
}

/// Whether the order's limit admits execution at price `p`: a Buy fills
/// only at a price at or below its limit, a Sell only at or above.
pub open spec fn crosses(o: Order, p: u64) -> bool {
    if o.side == OrderSide::Buy {
        o.price >= p
    } else {
        o.price <= p
    }
}

/// Whether the order's limit is strictly better than `p` for its side.
pub open spec fn strictly_better(o: Order, p: u64) -> bool {
    if o.side == OrderSide::Buy {
        o.price > p
    } else {
        o.price < p
    }
}

#[derive(Clone, Copy, PartialEq, Eq, Structural, Debug)]
pub enum PriceClass {
    Crossing,
    Strict,
    Marginal,
}

pub open spec fn in_class(o: Order, p: u64, cls: PriceClass) -> bool {
    match cls {
        PriceClass::Crossing => crosses(o, p),
        PriceClass::Strict => strictly_better(o, p),
        PriceClass::Marginal => o.price == p,
    }
}

/// Positional weight: the remaining amount of order `i` when it is an
/// eligible order of `side` in the given price class, else zero.
pub open spec fn class_w(
    s: Seq<Order>,
    batch: u64,
    side: OrderSide,
    p: u64,
    cls: PriceClass,
) -> spec_fn(int) -> int {
    |i: int|
        if 0 <= i < s.len() && s[i].side == side && eligible(s[i], batch) && in_class(
            s[i],
            p,
            cls,
        ) {
            remaining(s[i])
        } else {
            0
        }
}

/// Total remaining amount of eligible `side` orders in the price class.
pub open spec fn class_depth(s: Seq<Order>, batch: u64, side: OrderSide, p: u64, cls: PriceClass) -> int {
    sum_pos(class_w(s, batch, side, p, cls), s.len() as int)
}

/// Cumulative demand: remaining of eligible Buy orders willing to pay `p`.
pub open spec fn demand_at(s: Seq<Order>, batch: u64, p: u64) -> int {
    class_depth(s, batch, OrderSide::Buy, p, PriceClass::Crossing)
}

/// Cumulative supply: remaining of eligible Sell orders asking at most `p`.
pub open spec fn supply_at(s: Seq<Order>, batch: u64, p: u64) -> int {
    class_depth(s, batch, OrderSide::Sell, p, PriceClass::Crossing)
}

/// Total remaining amount of all eligible orders of one side.
pub open spec fn side_depth(s: Seq<Order>, batch: u64, side: OrderSide) -> int {
    class_depth(
        s,
        batch,
        side,
        if side == OrderSide::Buy {
            0
        } else {
            u64::MAX
        },
        PriceClass::Crossing,
    )
}

/// Volume matched at price `p`: the smaller of demand and supply there.
pub open spec fn volume_at(s: Seq<Order>, batch: u64, p: u64) -> int {
    let d = demand_at(s, batch, p);
    let su = supply_at(s, batch, p);
    if d <= su {
        d
    } else {
        su
    }
}

/// Unmatched volume at price `p`: how far demand and supply miss each
/// other.
pub open spec fn imbalance_at(s: Seq<Order>, batch: u64, p: u64) -> int {
    let d = demand_at(s, batch, p);
    let su = supply_at(s, batch, p);
    if d >= su {
        d - su
    } else {
        su - d
    }
}

pub open spec fn price_dist(a: u64, b: u64) -> int {
    if a >= b {
        a - b
    } else {
        b - a
    }
}

/// The total preference order on candidate clearing prices: larger matched
/// volume first, then smaller imbalance, then nearer the previous batch's
/// clearing price, and finally the lower price. `price_pref(.., p1, p2)`
/// says `p1` is at least as preferred as `p2`.
pub open spec fn price_pref(s: Seq<Order>, batch: u64, prev: u64, p1: u64, p2: u64) -> bool {
    let v1 = volume_at(s, batch, p1);
    let v2 = volume_at(s, batch, p2);
    let i1 = imbalance_at(s, batch, p1);
    let i2 = imbalance_at(s, batch, p2);
    let d1 = price_dist(p1, prev);
    let d2 = price_dist(p2, prev);
    if v1 != v2 {
        v1 > v2
    } else if i1 != i2 {
        i1 < i2
    } else if d1 != d2 {
        d1 < d2
    } else {
        p1 <= p2
    }
}

/// Whether `q` is the limit price of some eligible order of the batch.
pub open spec fn is_limit_price(s: Seq<Order>, batch: u64, q: u64) -> bool {
    exists|i: int| 0 <= i < s.len() && eligible(#[trigger] s[i], batch) && s[i].price == q
}

/// The preference order is total: of any two prices one is at least as
/// preferred as the other.
pub proof fn lemma_pref_total(s: Seq<Order>, batch: u64, prev: u64, p1: u64, p2: u64)
    ensures
        price_pref(s, batch, prev, p1, p2) || price_pref(s, batch, prev, p2, p1),
{
}

/// The preference order is transitive.
pub proof fn lemma_pref_trans(s: Seq<Order>, batch: u64, prev: u64, p1: u64, p2: u64, p3: u64)
    requires
        price_pref(s, batch, prev, p1, p2),
        price_pref(s, batch, prev, p2, p3),
    ensures
        price_pref(s, batch, prev, p1, p3),
{
}

/// At most one clearing price: two prices each at least as preferred as
/// the other are the same price. Together with the engine choosing a most
/// preferred limit price, the batch has a single clearing price, and
/// re-running the choice on the same book yields it again.
pub proof fn lemma_clearing_price_unique(s: Seq<Order>, batch: u64, prev: u64, p1: u64, p2: u64)
    requires
        price_pref(s, batch, prev, p1, p2),
        price_pref(s, batch, prev, p2, p1),
    ensures
        p1 == p2,
{
}

/// Depth in any crossing class is below the side's whole depth.
proof fn lemma_depth_le_side(s: Seq<Order>, batch: u64, side: OrderSide, p: u64, cls: PriceClass)
    requires
        book_wf(s),
    ensures
        0 <= class_depth(s, batch, side, p, cls) <= side_depth(s, batch, side),
{
    let w1 = class_w(s, batch, side, p, cls);
    let w2 = class_w(
        s,
        batch,
        side,
        if side == OrderSide::Buy {
            0
        } else {
            u64::MAX
        },
        PriceClass::Crossing,
    );
    assert(forall|i: int| 0 <= i < s.len() as int ==> #[trigger] w1(i) <= #[trigger] w2(i));
    lemma_sum_pos_le(w1, w2, s.len() as int);
    assert(forall|i: int| 0 <= i < s.len() as int ==> #[trigger] w1(i) >= 0);
    lemma_sum_pos_nonneg(w1, s.len() as int);
}

fn is_live_exec(o: &Order) -> (b: bool)
    ensures
        b == order_live(*o),
{
    o.status == OrderStatus::Open || o.status == OrderStatus::PartiallyFilled
}

fn eligible_exec(o: &Order, batch: u64) -> (b: bool)
    ensures
        b == eligible(*o, batch),
{
    is_live_exec(o) && o.batch_id <= batch
}

/// Sums the remaining amounts of the eligible orders of `side` in the
/// given price class.
fn compute_depth(orders: &Vec<Order>, batch: u64, side: OrderSide, p: u64, cls: PriceClass) -> (d:
    u128)
    requires
        book_wf(orders@),
    ensures
        d as int == class_depth(orders@, batch, side, p, cls),
{
    let ghost w = class_w(orders@, batch, side, p, cls);
    let mut d: u128 = 0;
    let mut i: usize = 0;
    while i < orders.len()
        invariant
            book_wf(orders@),
            0 <= i <= orders.len(),
            w == class_w(orders@, batch, side, p, cls),
            d as int == sum_pos(w, i as int),
        decreases orders.len() - i,
    {
        proof {
            assert(forall|k: int| 0 <= k < orders@.len() ==> #[trigger] w(k) <= u64::MAX as int);
            lemma_sum_pos_upper(w, i as int, u64::MAX as int);
            assert((i as int) * (u64::MAX as int) + (u64::MAX as int) <= u128::MAX as int)
                by (nonlinear_arith)
                requires i as int <= u64::MAX as int;
        }
        let o = orders[i];
        let matches_class: bool = o.side == side && eligible_exec(&o, batch) && (match cls {
            PriceClass::Crossing => if o.side == OrderSide::Buy {
                o.price >= p
            } else {
                o.price <= p
            },
            PriceClass::Strict => if o.side == OrderSide::Buy {
                o.price > p
            } else {
                o.price < p
            },
            PriceClass::Marginal => o.price == p,
        });
        let add_on: u64 = if matches_class {
            o.amount - o.filled_amount
        } else {
            0
        };
        proof {
            assert(w(i as int) == add_on as int);
        }
        d = d + add_on as u128;
        i = i + 1;
    }
    d
}

/// Collects the limit prices of the batch's eligible orders: the candidate
/// clearing prices.
fn collect_limit_prices(orders: &Vec<Order>, batch: u64) -> (ps: Vec<u64>)
    ensures
        forall|j: int| 0 <= j < ps@.len() ==> is_limit_price(orders@, batch, #[trigger] ps@[j]),
        forall|i: int|
            0 <= i < orders@.len() && eligible(#[trigger] orders@[i], batch) ==> ps@.contains(
                orders@[i].price,
            ),
{
    let mut ps: Vec<u64> = Vec::new();
    let mut i: usize = 0;
    while i < orders.len()
        invariant
            0 <= i <= orders.len(),
            forall|j: int| 0 <= j < ps@.len() ==> is_limit_price(orders@, batch, #[trigger] ps@[j]),
            forall|k: int|
                0 <= k < i && eligible(#[trigger] orders@[k], batch) ==> ps@.contains(
                    orders@[k].price,
                ),
        decreases orders.len() - i,
    {
        let o = orders[i];
        let ghost old_ps = ps@;
        if eligible_exec(&o, batch) {
            ps.push(o.price);
            proof {
                assert(ps@.last() == orders@[i as int].price);
                assert forall|q: u64| old_ps.contains(q) implies ps@.contains(q) by {
                    let j = choose|j: int| 0 <= j < old_ps.len() && old_ps[j] == q;
                    assert(ps@[j] == q);
                }
            }
        }
        i = i + 1;
    }
    ps
}

/// Finds the most preferred clearing price among the batch's limit prices,
/// with the matched volume there, or nothing when no price crosses.
fn find_clearing_price(orders: &Vec<Order>, batch: u64, prev: u64) -> (r: Option<(u64, u64)>)
    requires
        book_wf(orders@),
        side_depth(orders@, batch, OrderSide::Buy) <= u64::MAX as int,
        side_depth(orders@, batch, OrderSide::Sell) <= u64::MAX as int,
    ensures
        match r {
            Some(pv) => is_limit_price(orders@, batch, pv.0) && pv.1 as int == volume_at(
                orders@,
                batch,
                pv.0,
            ) && pv.1 > 0 && forall|q: u64|
                is_limit_price(orders@, batch, q) ==> price_pref(orders@, batch, prev, pv.0, q),
            None => forall|q: u64|
                is_limit_price(orders@, batch, q) ==> volume_at(orders@, batch, q) <= 0,
        },
{
    let ps = collect_limit_prices(orders, batch);
    if ps.len() == 0 {
        assert forall|q: u64| is_limit_price(orders@, batch, q) implies volume_at(
            orders@,
            batch,
            q,
        ) <= 0 by {
            let i = choose|i: int|
                0 <= i < orders@.len() && eligible(#[trigger] orders@[i], batch)
                    && orders@[i].price == q;
            assert(ps@.contains(orders@[i].price));
        }
        return None;
    }
    let mut p_best: u64 = ps[0];
    let mut d_best: u128 = compute_depth(orders, batch, OrderSide::Buy, p_best, PriceClass::Crossing);
    let mut s_best: u128 = compute_depth(
        orders,
        batch,
        OrderSide::Sell,
        p_best,
        PriceClass::Crossing,
    );
    let mut k: usize = 1;
    while k < ps.len()
        invariant
            book_wf(orders@),
            1 <= k <= ps@.len(),
            forall|j: int|
                0 <= j < ps@.len() ==> is_limit_price(orders@, batch, #[trigger] ps@[j]),
            is_limit_price(orders@, batch, p_best),
            d_best as int == demand_at(orders@, batch, p_best),
            s_best as int == supply_at(orders@, batch, p_best),
            forall|j: int|
                0 <= j < k ==> price_pref(orders@, batch, prev, p_best, #[trigger] ps@[j]),
        decreases ps@.len() - k,
    {
        let pc = ps[k];
        let dc = compute_depth(orders, batch, OrderSide::Buy, pc, PriceClass::Crossing);
        let sc = compute_depth(orders, batch, OrderSide::Sell, pc, PriceClass::Crossing);
        let vc: u128 = if dc <= sc {
            dc
        } else {
            sc
        };
        let vb: u128 = if d_best <= s_best {
            d_best
        } else {
            s_best
        };
        let ic: u128 = if dc >= sc {
            dc - sc
        } else {
            sc - dc
        };
        let ib: u128 = if d_best >= s_best {
            d_best - s_best
        } else {
            s_best - d_best
        };
        let distc: u64 = if pc >= prev {
            pc - prev
        } else {
            prev - pc
        };
        let distb: u64 = if p_best >= prev {
            p_best - prev
        } else {
            prev - p_best
        };
        let better: bool = if vc != vb {
            vc > vb
        } else if ic != ib {
            ic < ib
        } else if distc != distb {
            distc < distb
        } else {
            pc <= p_best
        };
        proof {
            assert(vc as int == volume_at(orders@, batch, pc));
            assert(vb as int == volume_at(orders@, batch, p_best));
            assert(ic as int == imbalance_at(orders@, batch, pc));
            assert(ib as int == imbalance_at(orders@, batch, p_best));
            assert(distc as int == price_dist(pc, prev));
            assert(distb as int == price_dist(p_best, prev));
            assert(better == price_pref(orders@, batch, prev, pc, p_best));
        }
        if better {
            proof {
                assert forall|j: int| 0 <= j < k implies price_pref(
                    orders@,
                    batch,
                    prev,
                    pc,
                    #[trigger] ps@[j],
                ) by {
                    lemma_pref_trans(orders@, batch, prev, pc, p_best, ps@[j]);
                }
            }
            p_best = pc;
            d_best = dc;
            s_best = sc;
        } else {
            proof {
                lemma_pref_total(orders@, batch, prev, pc, p_best);
            }
        }
        k = k + 1;
    }
    let v128: u128 = if d_best <= s_best {
        d_best
    } else {
        s_best
    };
    if v128 == 0 {
        assert forall|q: u64| is_limit_price(orders@, batch, q) implies volume_at(
            orders@,
            batch,
            q,
        ) <= 0 by {
            let i = choose|i: int|
                0 <= i < orders@.len() && eligible(#[trigger] orders@[i], batch)
                    && orders@[i].price == q;
            assert(ps@.contains(orders@[i].price));
            let j = choose|j: int| 0 <= j < ps@.len() && ps@[j] == q;
            assert(price_pref(orders@, batch, prev, p_best, q));
        }
        None
    } else {
        proof {
            lemma_depth_le_side(orders@, batch, OrderSide::Buy, p_best, PriceClass::Crossing);
        }
        Some((p_best, v128 as u64))
    }
}

/// An eligible order of the given side.
pub open spec fn sel(o: Order, batch: u64, side: OrderSide) -> bool {
    eligible(o, batch) && o.side == side
}

/// Matching priority among orders of one side: better price first (higher
/// for buys, lower for sells), then earlier slot reservation, then earlier
/// position in the book. A reflexive total order on positions.
pub open spec fn prio_le(s: Seq<Order>, side: OrderSide, i: int, j: int) -> bool {
    let a = s[i];
    let b = s[j];
    if a.price != b.price {
        if side == OrderSide::Buy {
            a.price > b.price
        } else {
            a.price < b.price
        }
    } else if a.slot_reservation_time != b.slot_reservation_time {
        a.slot_reservation_time < b.slot_reservation_time
    } else {
        i <= j
    }
}

pub proof fn lemma_prio_total(s: Seq<Order>, side: OrderSide, i: int, j: int)
    ensures
        prio_le(s, side, i, j) || prio_le(s, side, j, i),
{
}

pub proof fn lemma_prio_antisym(s: Seq<Order>, side: OrderSide, i: int, j: int)
    requires
        prio_le(s, side, i, j),
        prio_le(s, side, j, i),
    ensures
        i == j,
{
}

pub proof fn lemma_prio_trans(s: Seq<Order>, side: OrderSide, i: int, j: int, k: int)
    requires
        prio_le(s, side, i, j),
        prio_le(s, side, j, k),
    ensures
        prio_le(s, side, i, k),
{
}

pub open spec fn strict_depth(s: Seq<Order>, batch: u64, side: OrderSide, p: u64) -> int {
    class_depth(s, batch, side, p, PriceClass::Strict)
}

pub open spec fn marg_depth(s: Seq<Order>, batch: u64, side: OrderSide, p: u64) -> int {
    class_depth(s, batch, side, p, PriceClass::Marginal)
}

/// The volume left to the marginal price level after the side's orders
/// with strictly better prices fill.
pub open spec fn marg_pool(s: Seq<Order>, batch: u64, side: OrderSide, p: u64, v: u64) -> int {
    if v <= strict_depth(s, batch, side, p) {
        0
    } else {
        v - strict_depth(s, batch, side, p)
    }
}

/// The rounded-down pro-rata share of marginal order `i`: the marginal
/// pool times the order's remaining size over the marginal level's total
/// remaining size.
pub open spec fn base_share(s: Seq<Order>, batch: u64, side: OrderSide, p: u64, v: u64, i: int) -> int {
    let pool = marg_pool(s, batch, side, p, v);
    let m = marg_depth(s, batch, side, p);
    if m > 0 {
        (pool * remaining(s[i])) / m
    } else {
        0
    }
}

/// Positional weight reading a fill vector.
pub open spec fn fill_w(f: Seq<u64>) -> spec_fn(int) -> int {
    |i: int|
        if 0 <= i < f.len() {
            f[i] as int
        } else {
            0
        }
}

/// Total base units a fill vector allocates.
pub open spec fn fsum(f: Seq<u64>) -> int {
    sum_pos(fill_w(f), f.len() as int)
}

/// Changing one entry of a fill or balance vector changes its total by
/// the difference there.
pub proof fn lemma_fsum_update(f: Seq<u64>, j: int, val: u64)
    requires
        0 <= j < f.len(),
    ensures
        fsum(f.update(j, val)) == fsum(f) - f[j] + val,
{
    assert(f.update(j, val).len() == f.len());
    lemma_sum_pos_update(fill_w(f), fill_w(f.update(j, val)), f.len() as int, j);
}

/// What the allocation of one side's fills guarantees: fills stay within
/// each order's remaining amount, only eligible crossing orders of the side
/// are filled, the fills sum to the matched volume, every marginal order
/// receives at least its rounded-down pro-rata share, and an order receives
/// beyond its guaranteed amount only once every order of higher priority —
/// those ahead of it within its own price class, and for a marginal order
/// every strictly-better-priced order — is filled completely.
pub open spec fn fills_ok(
    s: Seq<Order>,
    batch: u64,
    side: OrderSide,
    p: u64,
    v: u64,
    f: Seq<u64>,
) -> bool {
    &&& f.len() == s.len()
    &&& forall|i: int| 0 <= i < s.len() ==> #[trigger] f[i] <= remaining(s[i])
    &&& forall|i: int|
        0 <= i < s.len() && !(sel(#[trigger] s[i], batch, side) && crosses(s[i], p)) ==> f[i] == 0
    &&& fsum(f) == v
    &&& forall|i: int|
        0 <= i < s.len() && sel(#[trigger] s[i], batch, side) && s[i].price == p ==> f[i]
            >= base_share(s, batch, side, p, v, i)
    &&& forall|i: int, j: int|
        #![trigger f[i], f[j]]
        0 <= i < s.len() && 0 <= j < s.len() && i != j && sel(s[i], batch, side) && sel(
            s[j],
            batch,
            side,
        ) && strictly_better(s[i], p) && strictly_better(s[j], p) && prio_le(s, side, i, j) && f[j]
            > 0 ==> f[i] == remaining(s[i])
    &&& forall|i: int, j: int|
        #![trigger f[i], f[j]]
        0 <= i < s.len() && 0 <= j < s.len() && i != j && sel(s[i], batch, side) && sel(
            s[j],
            batch,
            side,
        ) && s[i].price == p && s[j].price == p && prio_le(s, side, i, j) && f[j] > base_share(
            s,
            batch,
            side,
            p,
            v,
            j,
        ) ==> f[i] == remaining(s[i])
    &&& forall|i: int, j: int|
        #![trigger f[i], f[j]]
        0 <= i < s.len() && 0 <= j < s.len() && sel(s[i], batch, side) && sel(s[j], batch, side)
            && strictly_better(s[i], p) && s[j].price == p && f[j] > base_share(
            s,
            batch,
            side,
            p,
            v,
            j,
        ) ==> f[i] == remaining(s[i])
}

/// Crossing depth splits into the strict and the marginal class.
proof fn lemma_class_split(s: Seq<Order>, batch: u64, side: OrderSide, p: u64)
    ensures
        class_depth(s, batch, side, p, PriceClass::Crossing) == strict_depth(s, batch, side, p)
            + marg_depth(s, batch, side, p),
{
    let w1 = class_w(s, batch, side, p, PriceClass::Strict);
    let w2 = class_w(s, batch, side, p, PriceClass::Marginal);
    let w3 = class_w(s, batch, side, p, PriceClass::Crossing);
    assert(forall|i: int|
        0 <= i < s.len() as int ==> #[trigger] w3(i) == #[trigger] w1(i) + #[trigger] w2(i));
    lemma_sum_pos_add(w1, w2, w3, s.len() as int);
}

/// Floor division distributes sub-additively over addition.
proof fn lemma_div_add_le(a: int, b: int, d: int)
    requires
        a >= 0,
        b >= 0,
        d > 0,
    ensures
        a / d + b / d <= (a + b) / d,
{
    lemma_fundamental_div_mod(a, d);
    lemma_fundamental_div_mod(b, d);
    let q = a / d + b / d;
    assert(d * q == d * (a / d) + d * (b / d)) by {
        lemma_mul_is_distributive_add(d, a / d, b / d);
    }
    assert(d * q <= a + b);
    lemma_div_pos_is_pos(a, d);
    lemma_div_pos_is_pos(b, d);
    lemma_div_multiples_vanish(q, d);
    lemma_div_is_ordered(d * q, a + b, d);
}

fn prio_le_exec(orders: &Vec<Order>, side: OrderSide, i: usize, j: usize) -> (b: bool)
    requires
        i < orders@.len(),
        j < orders@.len(),
    ensures
        b == prio_le(orders@, side, i as int, j as int),
{
    let a = orders[i];
    let c = orders[j];
    if a.price != c.price {
        match side {
            OrderSide::Buy => a.price > c.price,
            OrderSide::Sell => a.price < c.price,
        }
    } else if a.slot_reservation_time != c.slot_reservation_time {
        a.slot_reservation_time < c.slot_reservation_time
    } else {
        i <= j
    }
}

fn find_insert_pos(orders: &Vec<Order>, side: OrderSide, idx: &Vec<usize>, i: usize) -> (pos: usize)
    requires
        i < orders@.len(),
        forall|k: int| 0 <= k < idx@.len() ==> (#[trigger] idx@[k]) < orders@.len(),
    ensures
        pos <= idx@.len(),
        forall|jj: int|
            0 <= jj < pos ==> prio_le(orders@, side, #[trigger] idx@[jj] as int, i as int),
        pos < idx@.len() ==> !prio_le(orders@, side, idx@[pos as int] as int, i as int),
{
    let mut pos: usize = 0;
    while pos < idx.len()
        invariant
            i < orders@.len(),
            forall|k: int| 0 <= k < idx@.len() ==> (#[trigger] idx@[k]) < orders@.len(),
            pos <= idx@.len(),
            forall|jj: int|
                0 <= jj < pos ==> prio_le(orders@, side, #[trigger] idx@[jj] as int, i as int),
        decreases idx@.len() - pos,
    {
        if !prio_le_exec(orders, side, idx[pos], i) {
            return pos;
        }
        pos = pos + 1;
    }
    pos
}

/// The positions of the batch's eligible orders of one side, in matching
/// priority order.
fn sorted_eligible_indices(orders: &Vec<Order>, batch: u64, side: OrderSide) -> (idx: Vec<usize>)
    ensures
        forall|k: int| 0 <= k < idx@.len() ==> (#[trigger] idx@[k]) < orders@.len(),
        forall|k: int|
            0 <= k < idx@.len() ==> sel(orders@[#[trigger] idx@[k] as int], batch, side),
        forall|i: int|
            0 <= i < orders@.len() && sel(#[trigger] orders@[i], batch, side) ==> idx@.contains(
                i as usize,
            ),
        idx@.no_duplicates(),
        forall|k1: int, k2: int|
            0 <= k1 < k2 < idx@.len() ==> prio_le(
                orders@,
                side,
                #[trigger] idx@[k1] as int,
                #[trigger] idx@[k2] as int,
            ),
{
    let mut idx: Vec<usize> = Vec::new();
    let mut i: usize = 0;
    while i < orders.len()
        invariant
            0 <= i <= orders.len(),
            forall|k: int| 0 <= k < idx@.len() ==> (#[trigger] idx@[k]) < i,
            forall|k: int|
                0 <= k < idx@.len() ==> sel(orders@[#[trigger] idx@[k] as int], batch, side),
            forall|i2: int|
                0 <= i2 < i && sel(#[trigger] orders@[i2], batch, side) ==> idx@.contains(
                    i2 as usize,
                ),
            idx@.no_duplicates(),
            forall|k1: int, k2: int|
                0 <= k1 < k2 < idx@.len() ==> prio_le(
                    orders@,
                    side,
                    #[trigger] idx@[k1] as int,
                    #[trigger] idx@[k2] as int,
                ),
        decreases orders.len() - i,
    {
        let o = orders[i];
        let o_sel = eligible_exec(&o, batch) && o.side == side;
        if o_sel {
            let pos = find_insert_pos(orders, side, &idx, i);
            let ghost old_idx = idx@;
            idx.insert(pos, i);
            proof {
                assert(idx@ == old_idx.insert(pos as int, i));
                old_idx.insert_ensures(pos as int, i);
                // Entries keep their values around the insertion point.
                assert(forall|k: int| 0 <= k < pos ==> idx@[k] == old_idx[k]);
                assert(idx@[pos as int] == i);
                assert(forall|k: int|
                    pos < k < idx@.len() ==> idx@[k] == old_idx[k - 1]);
                // No duplicates: the new entry is larger than every old one.
                assert(forall|k: int| 0 <= k < old_idx.len() ==> (#[trigger] old_idx[k]) < i);
                assert(idx@.no_duplicates()) by {
                    assert forall|k1: int, k2: int|
                        0 <= k1 < idx@.len() && 0 <= k2 < idx@.len() && k1 != k2 implies idx@[k1]
                        != idx@[k2] by {}
                }
                // Sortedness across the insertion point.
                assert forall|k1: int, k2: int| 0 <= k1 < k2 < idx@.len() implies prio_le(
                    orders@,
                    side,
                    idx@[k1] as int,
                    idx@[k2] as int,
                ) by {
                    if k1 == pos {
                        // idx@[k2] == old_idx[k2 - 1] with k2 - 1 >= pos
                        if pos < old_idx.len() {
                            lemma_prio_total(orders@, side, i as int, old_idx[pos as int] as int);
                            if k2 - 1 > pos {
                                lemma_prio_trans(
                                    orders@,
                                    side,
                                    i as int,
                                    old_idx[pos as int] as int,
                                    old_idx[k2 - 1] as int,
                                );
                            }
                        }
                    } else if k2 == pos {
                        // k1 < pos: given by the scan
                    } else {
                        // both map to old entries
                    }
                }
            }
        }
        i = i + 1;
    }
    idx
}

/// Positional weight: the rounded-down pro-rata share of each marginal
/// order, zero elsewhere.
pub open spec fn base_w(s: Seq<Order>, batch: u64, side: OrderSide, p: u64, v: u64) -> spec_fn(
    int,
) -> int {
    |i: int|
        if 0 <= i < s.len() && sel(s[i], batch, side) && s[i].price == p {
            base_share(s, batch, side, p, v, i)
        } else {
            0
        }
}

/// Positional weight: how much each marginal order could still take on top
/// of the fills `f`, zero elsewhere.
pub open spec fn head_w(s: Seq<Order>, batch: u64, side: OrderSide, p: u64, f: Seq<u64>) -> spec_fn(
    int,
) -> int {
    |i: int|
        if 0 <= i < s.len() && 0 <= i < f.len() && sel(s[i], batch, side) && s[i].price == p {
            remaining(s[i]) - f[i]
        } else {
            0
        }
}

/// What holds of the fills after the strict price class is served: nothing
/// outside the class is filled, and priority within the class is obeyed.
pub open spec fn strict_fills_ok(
    s: Seq<Order>,
    batch: u64,
    side: OrderSide,
    p: u64,
    f: Seq<u64>,
) -> bool {
    &&& forall|i: int|
        0 <= i < s.len() && !(sel(#[trigger] s[i], batch, side) && strictly_better(s[i], p))
            ==> f[i] == 0
    &&& forall|i: int, j: int|
        #![trigger f[i], f[j]]
        0 <= i < s.len() && 0 <= j < s.len() && i != j && sel(s[i], batch, side) && sel(
            s[j],
            batch,
            side,
        ) && strictly_better(s[i], p) && strictly_better(s[j], p) && prio_le(s, side, i, j) && f[j]
            > 0 ==> f[i] == remaining(s[i])
}

/// Allocates one side's fills at clearing price `p` for matched volume
/// `v`: orders with strictly better prices fill first in priority order;
/// the marginal price level shares what is left pro-rata by remaining
/// size, rounded down; the leftover units go to the earliest-reserved
/// marginal orders, each up to its remaining amount.
#[verifier::rlimit(60)]
fn allocate_fills(orders: &Vec<Order>, batch: u64, side: OrderSide, p: u64, v: u64) -> (fills: Vec<
    u64,
>)
    requires
        book_wf(orders@),
        side_depth(orders@, batch, side) <= u64::MAX as int,
        v as int <= class_depth(orders@, batch, side, p, PriceClass::Crossing),
    ensures
        fills_ok(orders@, batch, side, p, v, fills@),
{
    let ghost s = orders@;
    let n = orders.len();
    let idx = sorted_eligible_indices(orders, batch, side);
    let ghost iidx: Seq<int> = idx@.map_values(|u: usize| u as int);
    proof {
        assert(forall|k: int| 0 <= k < iidx.len() ==> #[trigger] iidx[k] == idx@[k] as int);
        assert(iidx.no_duplicates()) by {
            assert forall|k1: int, k2: int|
                0 <= k1 < iidx.len() && 0 <= k2 < iidx.len() && k1 != k2 implies iidx[k1]
                != iidx[k2] by {
                assert(idx@[k1] != idx@[k2]);
            }
        }
    }
    let ghost sw = class_w(s, batch, side, p, PriceClass::Strict);
    let ghost mw = class_w(s, batch, side, p, PriceClass::Marginal);
    let mut fills: Vec<u64> = Vec::new();
    let mut z: usize = 0;
    while z < n
        invariant
            z <= n,
            fills@.len() == z as int,
            forall|i2: int| 0 <= i2 < z ==> #[trigger] fills@[i2] == 0,
        decreases n - z,
    {
        fills.push(0u64);
        z = z + 1;
    }
    proof {
        lemma_sum_pos_upper(fill_w(fills@), n as int, 0);
        lemma_sum_pos_nonneg(fill_w(fills@), n as int);
        assert(fsum(fills@) == 0);
    }
    // Strict price class: greedy in priority order.
    let mut rem: u64 = v;
    let mut k: usize = 0;
    while k < idx.len()
        invariant
            book_wf(s),
            s == orders@,
            n == orders@.len(),
            forall|kk: int| 0 <= kk < idx@.len() ==> (#[trigger] idx@[kk]) < n,
            forall|kk: int|
                0 <= kk < idx@.len() ==> sel(s[#[trigger] idx@[kk] as int], batch, side),
            forall|i2: int|
                0 <= i2 < n && sel(#[trigger] s[i2], batch, side) ==> idx@.contains(i2 as usize),
            idx@.no_duplicates(),
            forall|k1: int, k2: int|
                0 <= k1 < k2 < idx@.len() ==> prio_le(
                    s,
                    side,
                    #[trigger] idx@[k1] as int,
                    #[trigger] idx@[k2] as int,
                ),
            iidx == idx@.map_values(|u: usize| u as int),
            iidx.len() == idx@.len(),
            forall|kk: int| 0 <= kk < iidx.len() ==> #[trigger] iidx[kk] == idx@[kk] as int,
            iidx.no_duplicates(),
            sw == class_w(s, batch, side, p, PriceClass::Strict),
            fills@.len() == n as int,
            0 <= k <= idx@.len(),
            rem <= v,
            rem as int == (if v as int - sum_idx_upto(sw, iidx, k as int) >= 0 {
                v as int - sum_idx_upto(sw, iidx, k as int)
            } else {
                0
            }),
            fsum(fills@) == v as int - rem as int,
            forall|i2: int| 0 <= i2 < n ==> #[trigger] fills@[i2] <= remaining(s[i2]),
            forall|i2: int|
                0 <= i2 < n && !(sel(#[trigger] s[i2], batch, side) && strictly_better(s[i2], p))
                    ==> fills@[i2] == 0,
            forall|kk: int| k <= kk < iidx.len() ==> fills@[#[trigger] iidx[kk]] == 0,
            rem > 0 ==> forall|kk: int|
                0 <= kk < k && strictly_better(s[#[trigger] iidx[kk]], p) ==> fills@[iidx[kk]]
                    == remaining(s[iidx[kk]]),
            forall|kk1: int, kk2: int|
                #![trigger iidx[kk1], iidx[kk2]]
                0 <= kk1 < kk2 < k && strictly_better(s[iidx[kk1]], p) && strictly_better(
                    s[iidx[kk2]],
                    p,
                ) && fills@[iidx[kk2]] > 0 ==> fills@[iidx[kk1]] == remaining(s[iidx[kk1]]),
        decreases idx@.len() - k,
    {
        let j = idx[k];
        let o = orders[j];
        proof {
            assert(sel(s[j as int], batch, side));
        }
        let is_strict = match side {
            OrderSide::Buy => o.price > p,
            OrderSide::Sell => o.price < p,
        };
        proof {
            assert(is_strict == strictly_better(s[j as int], p));
            assert(iidx[k as int] == j as int);
            assert(sum_idx_upto(sw, iidx, k as int + 1) == sum_idx_upto(sw, iidx, k as int) + sw(
                iidx[k as int],
            ));
        }
        if is_strict {
            let room: u64 = o.amount - o.filled_amount;
            let f: u64 = if rem <= room {
                rem
            } else {
                room
            };
            let ghost old_fills = fills@;
            proof {
                assert(old_fills[j as int] == 0);
                assert(sw(j as int) == room as int);
            }
            fills.set(j, f);
            proof {
                lemma_fsum_update(old_fills, j as int, f);
                assert forall|kk: int| k + 1 <= kk < iidx.len() implies fills@[#[trigger] iidx[kk]]
                    == 0 by {
                    assert(iidx[kk] != j as int);
                }
            }
            rem = rem - f;
        }
        k = k + 1;
    }
    proof {
        assert forall|i2: int| 0 <= i2 < n as int && #[trigger] sw(i2) != 0 implies iidx.contains(
            i2,
        ) by {
            assert(sel(s[i2], batch, side));
            assert(idx@.contains(i2 as usize));
            let kk = choose|kk: int| 0 <= kk < idx@.len() && idx@[kk] == i2 as usize;
            assert(iidx[kk] == i2);
        }
        lemma_sum_idx_perm(sw, iidx, n as int);
        assert(sum_idx_upto(sw, iidx, iidx.len() as int) == strict_depth(s, batch, side, p));
        assert(rem as int == marg_pool(s, batch, side, p, v));
    }
    let pool: u64 = rem;
    let ghost fills_a = fills@;
    proof {
        // Strict-class priority, restated over book positions.
        assert forall|ia: int, ja: int|
            #![trigger fills_a[ia], fills_a[ja]]
            0 <= ia < n as int && 0 <= ja < n as int && ia != ja && sel(s[ia], batch, side) && sel(
                s[ja],
                batch,
                side,
            ) && strictly_better(s[ia], p) && strictly_better(s[ja], p) && prio_le(s, side, ia, ja)
            && fills_a[ja] > 0 implies fills_a[ia] == remaining(s[ia]) by {
            assert(idx@.contains(ia as usize));
            assert(idx@.contains(ja as usize));
            let ka = choose|kk: int| 0 <= kk < idx@.len() && idx@[kk] == ia as usize;
            let kb = choose|kk: int| 0 <= kk < idx@.len() && idx@[kk] == ja as usize;
            assert(iidx[ka] == ia && iidx[kb] == ja);
            if ka > kb {
                assert(prio_le(s, side, ja, ia));
                lemma_prio_antisym(s, side, ia, ja);
            }
            assert(ka < kb);
        }
        assert(strict_fills_ok(s, batch, side, p, fills_a));
        // A positive marginal pool means the strict class is served in full.
        if pool > 0 {
            assert forall|ia: int|
                0 <= ia < n as int && sel(s[ia], batch, side) && strictly_better(
                    s[ia],
                    p,
                ) implies fills_a[ia] == remaining(s[ia]) by {
                assert(idx@.contains(ia as usize));
                let ka = choose|kk: int| 0 <= kk < idx@.len() && idx@[kk] == ia as usize;
                assert(iidx[ka] == ia);
            }
        }
    }
    // Marginal price class: rounded-down pro-rata shares.
    let s128: u128 = compute_depth(orders, batch, side, p, PriceClass::Marginal);
    let ghost bw = base_w(s, batch, side, p, v);
    let mut bsum: u64 = 0;
    let mut i2: usize = 0;
    if pool > 0 {
        proof {
            lemma_class_split(s, batch, side, p);
            assert(pool as int <= marg_depth(s, batch, side, p));
            assert(s128 > 0);
        }
        while i2 < n
            invariant
                book_wf(s),
                s == orders@,
                n == orders@.len(),
                fills@.len() == n as int,
                0 <= i2 <= n,
                pool > 0,
                s128 as int == marg_depth(s, batch, side, p),
                pool as int == marg_pool(s, batch, side, p, v),
                pool as int <= s128 as int,
                bw == base_w(s, batch, side, p, v),
                mw == class_w(s, batch, side, p, PriceClass::Marginal),
                fills_a.len() == n as int,
                strict_fills_ok(s, batch, side, p, fills_a),
                fsum(fills_a) == v as int - pool as int,
                forall|i3: int| 0 <= i3 < n ==> #[trigger] fills_a[i3] <= remaining(s[i3]),
                forall|i3: int|
                    0 <= i3 < n && !(sel(#[trigger] s[i3], batch, side) && s[i3].price == p)
                        ==> fills@[i3] == fills_a[i3],
                forall|i3: int|
                    0 <= i3 < i2 && sel(#[trigger] s[i3], batch, side) && s[i3].price == p
                        ==> fills@[i3] as int == base_share(s, batch, side, p, v, i3),
                forall|i3: int|
                    i2 <= i3 < n && sel(#[trigger] s[i3], batch, side) && s[i3].price == p
                        ==> fills@[i3] == 0,
                forall|i3: int| 0 <= i3 < n ==> #[trigger] fills@[i3] <= remaining(s[i3]),
                bsum as int == sum_pos(bw, i2 as int),
                sum_pos(bw, i2 as int) <= (pool as int * sum_pos(mw, i2 as int)) / (s128 as int),
                fsum(fills@) == (v as int - pool as int) + sum_pos(bw, i2 as int),
            decreases n - i2,
        {
            let o = orders[i2];
            let o_marg = {
                let live = o.status == OrderStatus::Open || o.status
                    == OrderStatus::PartiallyFilled;
                live && o.batch_id <= batch && o.side == side && o.price == p
            };
            proof {
                assert(o_marg == (sel(s[i2 as int], batch, side) && s[i2 as int].price == p));
                assert(forall|i3: int|
                    0 <= i3 < n as int ==> #[trigger] mw(i3) >= 0 && mw(i3) <= u64::MAX as int);
            }
            if o_marg {
                let room: u64 = o.amount - o.filled_amount;
                proof {
                    assert((pool as int) * (room as int) <= (u64::MAX as int) * (u64::MAX as int))
                        by (nonlinear_arith)
                        requires
                            pool as int <= u64::MAX as int,
                            room as int <= u64::MAX as int,
                            pool as int >= 0,
                            room as int >= 0,
                    ;
                }
                let wide: u128 = (pool as u128) * (room as u128);
                let b128: u128 = wide / s128;
                let ghost pooli = pool as int;
                let ghost roomi = room as int;
                let ghost si = s128 as int;
                proof {
                    lemma_mul_inequality(pooli, si, roomi);
                    lemma_multiply_divide_le(pooli * roomi, si, roomi);
                    assert(b128 as int == (pooli * roomi) / si);
                    assert(b128 as int <= roomi);
                    assert(b128 as int == base_share(s, batch, side, p, v, i2 as int));
                    lemma_mul_nonnegative(pooli, roomi);
                    lemma_div_pos_is_pos(pooli * roomi, si);
                }
                let b: u64 = b128 as u64;
                let ghost old_fills = fills@;
                fills.set(i2, b);
                proof {
                    lemma_fsum_update(old_fills, i2 as int, b);
                    assert(old_fills[i2 as int] == 0);
                    assert(bw(i2 as int) == b as int);
                    assert(mw(i2 as int) == roomi);
                    // Advance the pro-rata bound by one position.
                    let bprev = sum_pos(bw, i2 as int);
                    let mprev = sum_pos(mw, i2 as int);
                    assert(sum_pos(bw, i2 as int + 1) == bprev + b as int);
                    assert(sum_pos(mw, i2 as int + 1) == mprev + roomi);
                    assert(forall|i3: int| 0 <= i3 < n as int ==> #[trigger] mw(i3) >= 0);
                    lemma_sum_pos_nonneg(mw, i2 as int);
                    lemma_mul_nonnegative(pooli, mprev);
                    lemma_div_add_le(pooli * mprev, pooli * roomi, si);
                    lemma_mul_is_distributive_add(pooli, mprev, roomi);
                    assert(bprev + b as int <= (pooli * (mprev + roomi)) / si);
                    // The running total stays within the pool.
                    lemma_sum_pos_prefix_le(mw, i2 as int + 1, n as int);
                    assert(sum_pos(mw, n as int) == marg_depth(s, batch, side, p));
                    let mnext = sum_pos(mw, i2 as int + 1);
                    lemma_mul_inequality(mnext, si, pooli);
                    lemma_mul_is_commutative(pooli, mnext);
                    lemma_mul_is_commutative(si, pooli);
                    lemma_multiply_divide_le(pooli * mnext, si, pooli);
                    assert(bprev + b as int <= pooli);
                }
                bsum = bsum + b;
            } else {
                proof {
                    assert(bw(i2 as int) == 0);
                    assert(mw(i2 as int) == 0);
                    assert(sum_pos(bw, i2 as int + 1) == sum_pos(bw, i2 as int));
                    assert(sum_pos(mw, i2 as int + 1) == sum_pos(mw, i2 as int));
                }
            }
            i2 = i2 + 1;
        }
        proof {
            lemma_sum_pos_prefix_le(mw, n as int, n as int);
            assert(sum_pos(mw, n as int) == marg_depth(s, batch, side, p));
            let pooli = pool as int;
            let si = s128 as int;
            lemma_mul_is_commutative(pooli, si);
            lemma_mul_inequality(sum_pos(mw, n as int), si, pooli);
            lemma_mul_is_commutative(si, pooli);
            lemma_multiply_divide_le(pooli * sum_pos(mw, n as int), si, pooli);
            assert(bsum as int <= pooli);
        }
    }
    // Leftover units: earliest-reserved marginal orders first, capped by
    // each order's remaining amount.
    let mut left: u64 = pool - bsum;
    let mut k2: usize = 0;
    proof {
        assert(fsum(fills@) == v as int - left as int);
        if pool > 0 {
            // The marginal headroom over the index walk covers the leftover.
            let hw = head_w(s, batch, side, p, fills@);
            assert forall|i3: int|
                0 <= i3 < n as int && #[trigger] hw(i3) != 0 implies iidx.contains(i3) by {
                assert(sel(s[i3], batch, side));
                assert(idx@.contains(i3 as usize));
                let kk = choose|kk: int| 0 <= kk < idx@.len() && idx@[kk] == i3 as usize;
                assert(iidx[kk] == i3);
            }
            lemma_sum_idx_perm(hw, iidx, n as int);
            lemma_sum_idx_split(hw, iidx, iidx.len() as int);
            let fw2 = |i3: int|
                if 0 <= i3 < n as int && sel(s[i3], batch, side) && s[i3].price == p {
                    fills@[i3] as int
                } else {
                    0
                };
            assert(forall|i3: int|
                0 <= i3 < n as int ==> #[trigger] mw(i3) == hw(i3) + fw2(i3));
            lemma_sum_pos_add(hw, fw2, mw, n as int);
            assert(forall|i3: int|
                0 <= i3 < n as int ==> #[trigger] fw2(i3) == bw(i3));
            lemma_sum_pos_congruent(fw2, bw, n as int);
            assert(sum_pos(hw, n as int) == marg_depth(s, batch, side, p) - bsum as int);
            assert(left as int <= sum_idx_from(hw, iidx, 0));
        } else {
            let hw = head_w(s, batch, side, p, fills@);
            assert(forall|i3: int| #[trigger] hw(i3) >= 0);
            lemma_sum_idx_from_nonneg(hw, iidx, 0);
            // With an empty pool every pro-rata share is zero.
            assert forall|i3: int|
                0 <= i3 < n as int && sel(s[i3], batch, side) && s[i3].price == p implies fills@[i3]
                as int == base_share(s, batch, side, p, v, i3) by {
                let m = marg_depth(s, batch, side, p);
                if m > 0 {
                    assert(marg_pool(s, batch, side, p, v) * remaining(s[i3]) == 0);
                    lemma_div_of0(m);
                }
            }
        }
    }
    while k2 < idx.len()
        invariant
            book_wf(s),
            s == orders@,
            n == orders@.len(),
            fills@.len() == n as int,
            forall|kk: int| 0 <= kk < idx@.len() ==> (#[trigger] idx@[kk]) < n,
            forall|kk: int|
                0 <= kk < idx@.len() ==> sel(s[#[trigger] idx@[kk] as int], batch, side),
            forall|i3: int|
                0 <= i3 < n && sel(#[trigger] s[i3], batch, side) ==> idx@.contains(i3 as usize),
            idx@.no_duplicates(),
            forall|k1: int, k3: int|
                0 <= k1 < k3 < idx@.len() ==> prio_le(
                    s,
                    side,
                    #[trigger] idx@[k1] as int,
                    #[trigger] idx@[k3] as int,
                ),
            iidx.len() == idx@.len(),
            forall|kk: int| 0 <= kk < iidx.len() ==> #[trigger] iidx[kk] == idx@[kk] as int,
            iidx.no_duplicates(),
            0 <= k2 <= idx@.len(),
            fills_a.len() == n as int,
            strict_fills_ok(s, batch, side, p, fills_a),
            forall|i3: int|
                0 <= i3 < n && !(sel(#[trigger] s[i3], batch, side) && s[i3].price == p)
                    ==> fills@[i3] == fills_a[i3],
            forall|i3: int| 0 <= i3 < n ==> #[trigger] fills@[i3] <= remaining(s[i3]),
            forall|i3: int|
                0 <= i3 < n && sel(#[trigger] s[i3], batch, side) && s[i3].price == p
                    ==> fills@[i3] as int >= base_share(s, batch, side, p, v, i3),
            forall|kk: int|
                k2 <= kk < iidx.len() && s[#[trigger] iidx[kk]].price == p ==> fills@[iidx[kk]]
                    as int == base_share(s, batch, side, p, v, iidx[kk]),
            fsum(fills@) == v as int - left as int,
            left <= pool,
            pool == 0 ==> forall|i3: int|
                0 <= i3 < n && sel(#[trigger] s[i3], batch, side) && s[i3].price == p
                    ==> fills@[i3] == 0,
            left as int <= sum_idx_from(head_w(s, batch, side, p, fills@), iidx, k2 as int),
            left > 0 ==> forall|kk: int|
                0 <= kk < k2 && sel(s[#[trigger] iidx[kk]], batch, side) && s[iidx[kk]].price == p
                    ==> fills@[iidx[kk]] == remaining(s[iidx[kk]]),
            forall|kk1: int, kk2x: int|
                #![trigger iidx[kk1], iidx[kk2x]]
                0 <= kk1 < kk2x < k2 && s[iidx[kk1]].price == p && s[iidx[kk2x]].price == p
                    && fills@[iidx[kk2x]] as int > base_share(s, batch, side, p, v, iidx[kk2x])
                    ==> fills@[iidx[kk1]] == remaining(s[iidx[kk1]]),
        decreases idx@.len() - k2,
    {
        let j = idx[k2];
        let o = orders[j];
        proof {
            assert(sel(s[j as int], batch, side));
            assert(iidx[k2 as int] == j as int);
        }
        let ghost hw_old = head_w(s, batch, side, p, fills@);
        if o.price == p {
            let room: u64 = o.amount - o.filled_amount;
            let cur: u64 = fills[j];
            let h: u64 = room - cur;
            let e: u64 = if h <= left {
                h
            } else {
                left
            };
            let ghost old_fills = fills@;
            fills.set(j, cur + e);
            left = left - e;
            proof {
                lemma_fsum_update(old_fills, j as int, (cur + e) as u64);
                assert(hw_old(j as int) == h as int);
                let hw_new = head_w(s, batch, side, p, fills@);
                assert forall|kk: int|
                    k2 as int + 1 <= kk < iidx.len() implies hw_old(#[trigger] iidx[kk]) == hw_new(
                    iidx[kk],
                ) by {
                    assert(iidx[kk] != j as int);
                }
                lemma_sum_idx_from_congruent(hw_new, hw_old, iidx, k2 as int + 1);
                assert(sum_idx_from(hw_old, iidx, k2 as int) == hw_old(j as int) + sum_idx_from(
                    hw_old,
                    iidx,
                    k2 as int + 1,
                ));
                if e < h {
                    assert(left == 0);
                    assert(forall|i3: int| #[trigger] hw_new(i3) >= 0);
                    lemma_sum_idx_from_nonneg(hw_new, iidx, k2 as int + 1);
                }
            }
        } else {
            proof {
                assert(hw_old(j as int) == 0);
                assert(sum_idx_from(hw_old, iidx, k2 as int) == hw_old(j as int) + sum_idx_from(
                    hw_old,
                    iidx,
                    k2 as int + 1,
                ));
            }
        }
        k2 = k2 + 1;
    }
    proof {
        assert(left == 0);
        assert(fsum(fills@) == v as int);
        // Marginal priority, restated over book positions.
        assert forall|ia: int, ja: int|
            #![trigger fills@[ia], fills@[ja]]
            0 <= ia < n as int && 0 <= ja < n as int && ia != ja && sel(s[ia], batch, side) && sel(
                s[ja],
                batch,
                side,
            ) && s[ia].price == p && s[ja].price == p && prio_le(s, side, ia, ja) && fills@[ja]
            as int > base_share(s, batch, side, p, v, ja) implies fills@[ia] == remaining(
            s[ia],
        ) by {
            assert(idx@.contains(ia as usize));
            assert(idx@.contains(ja as usize));
            let ka = choose|kk: int| 0 <= kk < idx@.len() && idx@[kk] == ia as usize;
            let kb = choose|kk: int| 0 <= kk < idx@.len() && idx@[kk] == ja as usize;
            assert(iidx[ka] == ia && iidx[kb] == ja);
            if ka > kb {
                assert(prio_le(s, side, ja, ia));
                lemma_prio_antisym(s, side, ia, ja);
            }
            assert(ka < kb);
        }
        // Cross-class priority: a marginal order holds more than its floor
        // share only when every strictly-better-priced order is full.
        assert forall|ia: int, ja: int|
            #![trigger fills@[ia], fills@[ja]]
            0 <= ia < n as int && 0 <= ja < n as int && sel(s[ia], batch, side) && sel(
                s[ja],
                batch,
                side,
            ) && strictly_better(s[ia], p) && s[ja].price == p && fills@[ja] as int > base_share(
                s,
                batch,
                side,
                p,
                v,
                ja,
            ) implies fills@[ia] == remaining(s[ia]) by {
            if pool == 0 {
                assert(fills@[ja] == 0);
                let m = marg_depth(s, batch, side, p);
                if m > 0 {
                    lemma_mul_nonnegative(marg_pool(s, batch, side, p, v), remaining(s[ja]));
                    lemma_div_pos_is_pos(marg_pool(s, batch, side, p, v) * remaining(s[ja]), m);
                }
                assert(base_share(s, batch, side, p, v, ja) >= 0);
            } else {
                assert(fills@[ia] == fills_a[ia]);
            }
        }
        assert(fills_ok(s, batch, side, p, v, fills@));
    }
    fills
}

/// One matched (buyer, seller, quantity, price) triple. `buyer` and
/// `seller` are positions in the book the plan was computed from.
#[derive(Clone, Copy, PartialEq, Eq, Structural, Debug)]
pub struct Trade {
    pub buyer: usize,
    pub seller: usize,
    pub quantity: u64,
    pub price: u64,
}

/// A valid trade of the batch at clearing price `p`: it pairs an eligible
/// crossing Buy with an eligible crossing Sell, moves at least one unit,
/// and executes at the uniform clearing price.
pub open spec fn trade_ok(s: Seq<Order>, batch: u64, p: u64, t: Trade) -> bool {
    &&& (t.buyer as int) < s.len()
    &&& (t.seller as int) < s.len()
    &&& sel(s[t.buyer as int], batch, OrderSide::Buy) && crosses(s[t.buyer as int], p)
    &&& sel(s[t.seller as int], batch, OrderSide::Sell) && crosses(s[t.seller as int], p)
    &&& t.quantity >= 1
    &&& t.price == p
}

/// Total base units a trade list moves.
pub open spec fn tqsum(ts: Seq<Trade>) -> int
    decreases ts.len(),
{
    if ts.len() == 0 {
        0
    } else {
        tqsum(ts.drop_last()) + ts.last().quantity
    }
}

fn copy_fills(v: &Vec<u64>) -> (c: Vec<u64>)
    ensures
        c@ == v@,
{
    let mut c: Vec<u64> = Vec::new();
    let mut i: usize = 0;
    while i < v.len()
        invariant
            i <= v.len(),
            c@.len() == i as int,
            forall|j: int| 0 <= j < i ==> #[trigger] c@[j] == v@[j],
        decreases v.len() - i,
    {
        c.push(v[i]);
        i = i + 1;
    }
    proof {
        assert(c@ =~= v@);
    }
    c
}

/// Pairs the two sides' fills into trades, walking each side in book
/// order. The trades move exactly the matched volume, all at the clearing
/// price.
fn build_trades(
    orders: &Vec<Order>,
    batch: u64,
    p: u64,
    v: u64,
    buy_fills: &Vec<u64>,
    sell_fills: &Vec<u64>,
) -> (ts: Vec<Trade>)
    requires
        book_wf(orders@),
        fills_ok(orders@, batch, OrderSide::Buy, p, v, buy_fills@),
        fills_ok(orders@, batch, OrderSide::Sell, p, v, sell_fills@),
    ensures
        forall|k: int| 0 <= k < ts@.len() ==> trade_ok(orders@, batch, p, #[trigger] ts@[k]),
        tqsum(ts@) == v as int,
{
    let ghost s = orders@;
    let n = orders.len();
    let mut bf = copy_fills(buy_fills);
    let mut sf = copy_fills(sell_fills);
    let mut ts: Vec<Trade> = Vec::new();
    let mut bi: usize = 0;
    let mut si: usize = 0;
    while bi < n
        invariant
            s == orders@,
            n == orders@.len(),
            book_wf(s),
            fills_ok(s, batch, OrderSide::Buy, p, v, buy_fills@),
            fills_ok(s, batch, OrderSide::Sell, p, v, sell_fills@),
            bf@.len() == n as int,
            sf@.len() == n as int,
            0 <= bi <= n,
            0 <= si <= n,
            forall|i: int| 0 <= i < bi ==> #[trigger] bf@[i] == 0,
            forall|j: int| 0 <= j < si ==> #[trigger] sf@[j] == 0,
            forall|i: int| 0 <= i < n ==> #[trigger] bf@[i] <= buy_fills@[i],
            forall|j: int| 0 <= j < n ==> #[trigger] sf@[j] <= sell_fills@[j],
            fsum(bf@) == fsum(sf@),
            tqsum(ts@) + fsum(bf@) == v as int,
            forall|k: int| 0 <= k < ts@.len() ==> trade_ok(s, batch, p, #[trigger] ts@[k]),
        decreases n - bi, bf@[bi as int], n - si,
    {
        if bf[bi] == 0 {
            bi = bi + 1;
        } else {
            proof {
                // The sell side still holds matching volume somewhere at or
                // beyond `si`.
                let bw2 = fill_w(bf@);
                assert(bw2(bi as int) == bf@[bi as int] as int);
                crate::sums::lemma_sum_pos_elem(bw2, n as int, bi as int);
                assert(fsum(bf@) > 0);
                if si >= n {
                    lemma_sum_pos_upper(fill_w(sf@), n as int, 0);
                    assert(fsum(sf@) <= 0);
                    lemma_sum_pos_nonneg(fill_w(bf@), n as int);
                }
                assert(si < n);
            }
            if sf[si] == 0 {
                si = si + 1;
            } else {
                let bq: u64 = bf[bi];
                let sq: u64 = sf[si];
                let q: u64 = if bq <= sq {
                    bq
                } else {
                    sq
                };
                let ghost old_ts = ts@;
                let ghost old_bf = bf@;
                let ghost old_sf = sf@;
                ts.push(Trade { buyer: bi, seller: si, quantity: q, price: p });
                bf.set(bi, bq - q);
                sf.set(si, sq - q);
                proof {
                    assert(ts@.drop_last() =~= old_ts);
                    assert(tqsum(ts@) == tqsum(old_ts) + q);
                    lemma_fsum_update(old_bf, bi as int, (bq - q) as u64);
                    lemma_fsum_update(old_sf, si as int, (sq - q) as u64);
                    // The new trade is valid: both sides hold a positive fill.
                    assert(buy_fills@[bi as int] > 0);
                    assert(sell_fills@[si as int] > 0);
                    assert(sel(s[bi as int], batch, OrderSide::Buy) && crosses(s[bi as int], p));
                    assert(sel(s[si as int], batch, OrderSide::Sell) && crosses(s[si as int], p));
                }
            }
        }
    }
    proof {
        lemma_sum_pos_upper(fill_w(bf@), n as int, 0);
        lemma_sum_pos_nonneg(fill_w(bf@), n as int);
        assert(fsum(bf@) == 0);
    }
    ts
}

/// The outcome the engine computes for one batch: the uniform clearing
/// price (when any price crosses), the matched volume, per-order fills for
/// each side, and the trades to settle. Nothing is mutated until a plan is
/// applied by settlement.
#[derive(Debug)]
pub struct MatchPlan {
    pub batch_id: u64,
    pub clearing_price: Option<u64>,
    pub volume: u64,
    pub buy_fills: Vec<u64>,
    pub sell_fills: Vec<u64>,
    pub trades: Vec<Trade>,
}

/// Internal consistency of a plan against the book it was computed from:
/// fills respect remaining amounts and the allocation rules, trades are
/// valid pairs at the single clearing price, and the trades move exactly
/// the matched volume. With no clearing price nothing fills and there are
/// no trades — so every trade of a plan carries the plan's one clearing
/// price: the uniform-price property.
pub open spec fn plan_ok(s: Seq<Order>, plan: MatchPlan) -> bool {
    &&& plan.buy_fills@.len() == s.len()
    &&& plan.sell_fills@.len() == s.len()
    &&& match plan.clearing_price {
        Some(p) => {
            &&& plan.volume > 0
            &&& fills_ok(s, plan.batch_id, OrderSide::Buy, p, plan.volume, plan.buy_fills@)
            &&& fills_ok(s, plan.batch_id, OrderSide::Sell, p, plan.volume, plan.sell_fills@)
            &&& forall|k: int|
                0 <= k < plan.trades@.len() ==> trade_ok(s, plan.batch_id, p, #[trigger] plan.trades@[k])
            &&& tqsum(plan.trades@) == plan.volume as int
        },
        None => {
            &&& plan.volume == 0
            &&& forall|i: int| 0 <= i < s.len() ==> #[trigger] plan.buy_fills@[i] == 0
            &&& forall|i: int| 0 <= i < s.len() ==> #[trigger] plan.sell_fills@[i] == 0
            &&& plan.trades@.len() == 0
        },
    }
}

/// The plan clears at the best possible price: when a price crosses, the
/// clearing price is a limit price of the batch that every limit price is
/// at most as preferred as, and the volume is the full matched volume
/// there; when no limit price crosses, there is no clearing price.
pub open spec fn plan_optimal(s: Seq<Order>, prev: u64, plan: MatchPlan) -> bool {
    match plan.clearing_price {
        Some(p) => {
            &&& is_limit_price(s, plan.batch_id, p)
            &&& plan.volume as int == volume_at(s, plan.batch_id, p)
            &&& forall|q: u64|
                is_limit_price(s, plan.batch_id, q) ==> price_pref(s, plan.batch_id, prev, p, q)
        },
        None => forall|q: u64|
            is_limit_price(s, plan.batch_id, q) ==> volume_at(s, plan.batch_id, q) <= 0,
    }
}

/// Two plans that are both sound and optimal for the same book, batch and
/// previous clearing price are the same auction outcome: the clearing
/// price, the matched volume and both sides' fills all agree. Re-running
/// the auction on the same input finds the same clearing.
pub proof fn lemma_plan_price_deterministic(
    s: Seq<Order>,
    prev: u64,
    plan1: MatchPlan,
    plan2: MatchPlan,
)
    requires
        book_wf(s),
        plan1.batch_id == plan2.batch_id,
        plan_ok(s, plan1),
        plan_ok(s, plan2),
        plan_optimal(s, prev, plan1),
        plan_optimal(s, prev, plan2),
    ensures
        plan1.clearing_price == plan2.clearing_price,
        plan1.volume == plan2.volume,
        plan1.buy_fills@ == plan2.buy_fills@,
        plan1.sell_fills@ == plan2.sell_fills@,
{
    let batch = plan1.batch_id;
    match (plan1.clearing_price, plan2.clearing_price) {
        (Some(p1), Some(p2)) => {
            assert(price_pref(s, batch, prev, p1, p2));
            assert(price_pref(s, batch, prev, p2, p1));
            lemma_clearing_price_unique(s, batch, prev, p1, p2);
            lemma_fills_unique(s, batch, OrderSide::Buy, p1, plan1.volume, plan1.buy_fills@, plan2.buy_fills@);
            lemma_fills_unique(s, batch, OrderSide::Sell, p1, plan1.volume, plan1.sell_fills@, plan2.sell_fills@);
        },
        (Some(p1), None) => {
            assert(volume_at(s, batch, p1) <= 0);
        },
        (None, Some(p2)) => {
            assert(volume_at(s, batch, p2) <= 0);
        },
        (None, None) => {
            assert(plan1.buy_fills@ =~= plan2.buy_fills@);
            assert(plan1.sell_fills@ =~= plan2.sell_fills@);
        },
    }
}

proof fn lemma_max_crossing_sell(s: Seq<Order>, batch: u64, q: u64, n: int) -> (c: u64)
    requires
        0 <= n <= s.len(),
        exists|i: int|
            0 <= i < n && sel(#[trigger] s[i], batch, OrderSide::Sell) && s[i].price <= q
                && remaining(s[i]) > 0,
    ensures
        is_limit_price(s, batch, c),
        c <= q,
        forall|i: int|
            0 <= i < n && sel(#[trigger] s[i], batch, OrderSide::Sell) && s[i].price <= q
                && remaining(s[i]) > 0 ==> s[i].price <= c,
    decreases n,
{
    if exists|i: int|
        0 <= i < n - 1 && sel(#[trigger] s[i], batch, OrderSide::Sell) && s[i].price <= q
            && remaining(s[i]) > 0 {
        let c1 = lemma_max_crossing_sell(s, batch, q, n - 1);
        if sel(s[n - 1], batch, OrderSide::Sell) && s[n - 1].price <= q && remaining(s[n - 1]) > 0
            && s[n - 1].price > c1 {
            s[n - 1].price
        } else {
            c1
        }
    } else {
        let j = choose|i: int|
            0 <= i < n && sel(#[trigger] s[i], batch, OrderSide::Sell) && s[i].price <= q
                && remaining(s[i]) > 0;
        assert(j == n - 1);
        s[j].price
    }
}

/// The grid of the batch's limit prices misses nothing: whatever price one
/// proposes, some limit price of an eligible order matches at least as
/// much volume. A plan that clears at the most preferred limit price
/// therefore maximizes matched volume over every price, not only over the
/// grid the engine searches.
pub proof fn lemma_limit_prices_cover_all(s: Seq<Order>, batch: u64, q: u64)
    requires
        book_wf(s),
    ensures
        volume_at(s, batch, q) > 0 ==> exists|c: u64|
            #[trigger] is_limit_price(s, batch, c) && volume_at(s, batch, c) >= volume_at(
                s,
                batch,
                q,
            ),
{
    if volume_at(s, batch, q) > 0 {
        let n = s.len() as int;
        let wq = class_w(s, batch, OrderSide::Sell, q, PriceClass::Crossing);
        lemma_sum_pos_pos(wq, n);
        let j = choose|i: int| 0 <= i < n && #[trigger] wq(i) > 0;
        assert(sel(s[j], batch, OrderSide::Sell) && s[j].price <= q && remaining(s[j]) > 0);
        let c = lemma_max_crossing_sell(s, batch, q, n);
        // Supply is the same at `c` as at `q`: every sell in between holds
        // no stock.
        let wc = class_w(s, batch, OrderSide::Sell, c, PriceClass::Crossing);
        assert forall|i: int| 0 <= i < n implies #[trigger] wq(i) == #[trigger] wc(i) by {
            if sel(s[i], batch, OrderSide::Sell) && s[i].price <= q && remaining(s[i]) > 0 {
                assert(s[i].price <= c);
            }
        }
        lemma_sum_pos_congruent(wq, wc, n);
        // Demand can only grow when the price drops to `c`.
        let dq = class_w(s, batch, OrderSide::Buy, q, PriceClass::Crossing);
        let dc = class_w(s, batch, OrderSide::Buy, c, PriceClass::Crossing);
        assert(forall|i: int| 0 <= i < n ==> #[trigger] dq(i) <= #[trigger] dc(i));
        lemma_sum_pos_le(dq, dc, n);
        assert(volume_at(s, batch, c) >= volume_at(s, batch, q));
    }
}

spec fn strict_fill_w(s: Seq<Order>, batch: u64, side: OrderSide, p: u64, f: Seq<u64>) -> spec_fn(
    int,
) -> int {
    |i: int|
        if 0 <= i < s.len() && 0 <= i < f.len() && sel(s[i], batch, side) && strictly_better(
            s[i],
            p,
        ) {
            f[i] as int
        } else {
            0
        }
}

spec fn marg_fill_w(s: Seq<Order>, batch: u64, side: OrderSide, p: u64, f: Seq<u64>) -> spec_fn(
    int,
) -> int {
    |i: int|
        if 0 <= i < s.len() && 0 <= i < f.len() && sel(s[i], batch, side) && s[i].price == p {
            f[i] as int
        } else {
            0
        }
}

proof fn lemma_base_share_nonneg(s: Seq<Order>, batch: u64, side: OrderSide, p: u64, v: u64, i: int)
    requires
        book_wf(s),
        0 <= i < s.len(),
    ensures
        base_share(s, batch, side, p, v, i) >= 0,
{
    let m = marg_depth(s, batch, side, p);
    if m > 0 {
        lemma_mul_nonnegative(marg_pool(s, batch, side, p, v), remaining(s[i]));
        lemma_div_pos_is_pos(marg_pool(s, batch, side, p, v) * remaining(s[i]), m);
    }
}

proof fn lemma_base_prefix_bound(s: Seq<Order>, batch: u64, side: OrderSide, p: u64, v: u64, k: int)
    requires
        book_wf(s),
        0 <= k <= s.len(),
        marg_depth(s, batch, side, p) > 0,
    ensures
        sum_pos(base_w(s, batch, side, p, v), k) <= (marg_pool(s, batch, side, p, v) * sum_pos(
            class_w(s, batch, side, p, PriceClass::Marginal),
            k,
        )) / marg_depth(s, batch, side, p),
    decreases k,
{
    let bw = base_w(s, batch, side, p, v);
    let mw = class_w(s, batch, side, p, PriceClass::Marginal);
    let pool = marg_pool(s, batch, side, p, v);
    let m = marg_depth(s, batch, side, p);
    if k == 0 {
        lemma_div_of0(m);
    } else {
        lemma_base_prefix_bound(s, batch, side, p, v, k - 1);
        let mprev = sum_pos(mw, k - 1);
        assert(forall|i: int| 0 <= i < s.len() as int ==> #[trigger] mw(i) >= 0);
        lemma_sum_pos_nonneg(mw, k - 1);
        if sel(s[k - 1], batch, side) && s[k - 1].price == p {
            let rem = remaining(s[k - 1]);
            assert(bw(k - 1) == (pool * rem) / m);
            assert(mw(k - 1) == rem);
            lemma_mul_nonnegative(pool, mprev);
            lemma_mul_nonnegative(pool, rem);
            lemma_div_add_le(pool * mprev, pool * rem, m);
            lemma_mul_is_distributive_add(pool, mprev, rem);
        } else {
            assert(bw(k - 1) == 0);
            assert(mw(k - 1) == 0);
        }
    }
}

proof fn lemma_base_sum_bounds(s: Seq<Order>, batch: u64, side: OrderSide, p: u64, v: u64)
    requires
        book_wf(s),
    ensures
        0 <= sum_pos(base_w(s, batch, side, p, v), s.len() as int),
        sum_pos(base_w(s, batch, side, p, v), s.len() as int) <= marg_pool(s, batch, side, p, v),
{
    let n = s.len() as int;
    let bw = base_w(s, batch, side, p, v);
    let mw = class_w(s, batch, side, p, PriceClass::Marginal);
    let pool = marg_pool(s, batch, side, p, v);
    let m = marg_depth(s, batch, side, p);
    assert forall|i: int| 0 <= i < n implies #[trigger] bw(i) >= 0 by {
        lemma_base_share_nonneg(s, batch, side, p, v, i);
    }
    lemma_sum_pos_nonneg(bw, n);
    if m > 0 {
        lemma_base_prefix_bound(s, batch, side, p, v, n);
        assert(sum_pos(mw, n) == m);
        lemma_div_by_multiple(pool, m);
        assert((pool * m) / m == pool);
    } else {
        assert(forall|i: int| 0 <= i < n ==> #[trigger] bw(i) <= 0);
        lemma_sum_pos_upper(bw, n, 0);
    }
}

/// The fills of one side split into the strict and the marginal class:
/// nothing else is filled.
proof fn lemma_fill_split(s: Seq<Order>, batch: u64, side: OrderSide, p: u64, v: u64, f: Seq<u64>)
    requires
        fills_ok(s, batch, side, p, v, f),
    ensures
        v as int == sum_pos(strict_fill_w(s, batch, side, p, f), s.len() as int) + sum_pos(
            marg_fill_w(s, batch, side, p, f),
            s.len() as int,
        ),
{
    let n = s.len() as int;
    let sfw = strict_fill_w(s, batch, side, p, f);
    let mfw = marg_fill_w(s, batch, side, p, f);
    assert(forall|i: int|
        0 <= i < n ==> #[trigger] fill_w(f)(i) == #[trigger] sfw(i) + #[trigger] mfw(i));
    lemma_sum_pos_add(sfw, mfw, fill_w(f), n);
}

/// How much the strict class holds in any valid fill vector is already
/// decided by the book: the whole volume when the strictly-better depth
/// covers it, else that entire depth.
proof fn lemma_strict_sum_pinned(s: Seq<Order>, batch: u64, side: OrderSide, p: u64, v: u64, f: Seq<u64>)
    requires
        book_wf(s),
        fills_ok(s, batch, side, p, v, f),
    ensures
        sum_pos(strict_fill_w(s, batch, side, p, f), s.len() as int) == (
        if v as int <= strict_depth(s, batch, side, p) {
            v as int
        } else {
            strict_depth(s, batch, side, p)
        }),
{
    let n = s.len() as int;
    let sfw = strict_fill_w(s, batch, side, p, f);
    let mfw = marg_fill_w(s, batch, side, p, f);
    let sw = class_w(s, batch, side, p, PriceClass::Strict);
    assert(forall|i: int| 0 <= i < n ==> #[trigger] sfw(i) <= #[trigger] sw(i));
    lemma_sum_pos_le(sfw, sw, n);
    lemma_fill_split(s, batch, side, p, v, f);
    assert(forall|i: int| 0 <= i < n ==> #[trigger] mfw(i) >= 0);
    lemma_sum_pos_nonneg(mfw, n);
    if forall|i: int|
        0 <= i < n && sel(#[trigger] s[i], batch, side) && strictly_better(s[i], p) ==> f[i]
            == remaining(s[i]) {
        assert(forall|i: int| 0 <= i < n ==> #[trigger] sfw(i) == #[trigger] sw(i));
        lemma_sum_pos_congruent(sfw, sw, n);
    } else {
        let u = choose|i: int|
            0 <= i < n && sel(#[trigger] s[i], batch, side) && strictly_better(s[i], p) && f[i]
                != remaining(s[i]);
        assert(f[u] < remaining(s[u]));
        // No marginal order sits above its floor share, so each holds it
        // exactly.
        assert forall|j: int|
            0 <= j < n && sel(s[j], batch, side) && s[j].price == p implies f[j] as int
            == base_share(s, batch, side, p, v, j) by {
            assert(f[u] <= remaining(s[u]) && f[j] <= remaining(s[j]));
            if f[j] as int > base_share(s, batch, side, p, v, j) {
                assert(f[u] == remaining(s[u]));
            }
        }
        let bw = base_w(s, batch, side, p, v);
        assert(forall|i: int| 0 <= i < n ==> #[trigger] mfw(i) == #[trigger] bw(i));
        lemma_sum_pos_congruent(mfw, bw, n);
        lemma_base_sum_bounds(s, batch, side, p, v);
    }
}

proof fn lemma_strict_fill_le(
    s: Seq<Order>,
    batch: u64,
    side: OrderSide,
    p: u64,
    v: u64,
    fa: Seq<u64>,
    fb: Seq<u64>,
    i: int,
)
    requires
        book_wf(s),
        fills_ok(s, batch, side, p, v, fa),
        fills_ok(s, batch, side, p, v, fb),
        sum_pos(strict_fill_w(s, batch, side, p, fa), s.len() as int) == sum_pos(
            strict_fill_w(s, batch, side, p, fb),
            s.len() as int,
        ),
        0 <= i < s.len(),
        sel(s[i], batch, side),
        strictly_better(s[i], p),
    ensures
        fa[i] <= fb[i],
{
    if fa[i] > fb[i] {
        // A strict order holding more in `fa` forces one holding more in
        // `fb`; whichever of the two has priority is then both full and
        // exceeded — impossible.
        let n = s.len() as int;
        let wa = strict_fill_w(s, batch, side, p, fa);
        let wb = strict_fill_w(s, batch, side, p, fb);
        if forall|j: int| 0 <= j < n ==> #[trigger] wb(j) <= #[trigger] wa(j) {
            lemma_sum_pos_lt(wb, wa, n, i);
        }
        let j = choose|j: int| 0 <= j < n && !(#[trigger] wb(j) <= wa(j));
        assert(sel(s[j], batch, side) && strictly_better(s[j], p) && fb[j] > fa[j]);
        lemma_prio_total(s, side, i, j);
        if prio_le(s, side, j, i) {
            assert(fa[i] > 0);
            assert(fa[j] == remaining(s[j]));
            assert(fb[j] <= remaining(s[j]));
        } else {
            assert(fb[j] > 0);
            assert(fb[i] == remaining(s[i]));
            assert(fa[i] <= remaining(s[i]));
        }
    }
}

proof fn lemma_marg_fill_le(
    s: Seq<Order>,
    batch: u64,
    side: OrderSide,
    p: u64,
    v: u64,
    fa: Seq<u64>,
    fb: Seq<u64>,
    i: int,
)
    requires
        book_wf(s),
        fills_ok(s, batch, side, p, v, fa),
        fills_ok(s, batch, side, p, v, fb),
        sum_pos(marg_fill_w(s, batch, side, p, fa), s.len() as int) == sum_pos(
            marg_fill_w(s, batch, side, p, fb),
            s.len() as int,
        ),
        0 <= i < s.len(),
        sel(s[i], batch, side),
        s[i].price == p,
    ensures
        fa[i] <= fb[i],
{
    if fa[i] > fb[i] {
        // Both orders then sit above their floor share on one side each;
        // whichever has priority is both full and exceeded — impossible.
        let n = s.len() as int;
        let wa = marg_fill_w(s, batch, side, p, fa);
        let wb = marg_fill_w(s, batch, side, p, fb);
        if forall|j: int| 0 <= j < n ==> #[trigger] wb(j) <= #[trigger] wa(j) {
            lemma_sum_pos_lt(wb, wa, n, i);
        }
        let j = choose|j: int| 0 <= j < n && !(#[trigger] wb(j) <= wa(j));
        assert(sel(s[j], batch, side) && s[j].price == p && fb[j] > fa[j]);
        assert(fa[i] as int > base_share(s, batch, side, p, v, i));
        assert(fb[j] as int > base_share(s, batch, side, p, v, j));
        lemma_prio_total(s, side, i, j);
        if prio_le(s, side, j, i) {
            assert(fa[j] == remaining(s[j]));
            assert(fb[j] <= remaining(s[j]));
        } else {
            assert(fb[i] == remaining(s[i]));
            assert(fa[i] <= remaining(s[i]));
        }
    }
}

/// The allocation rules admit exactly one fill vector for a given book,
/// batch, side, clearing price and volume. Together with
/// `lemma_plan_price_deterministic` this makes the auction idempotent:
/// re-running it on the same book finds the same clearing price, volume
/// and fills.
pub proof fn lemma_fills_unique(
    s: Seq<Order>,
    batch: u64,
    side: OrderSide,
    p: u64,
    v: u64,
    f1: Seq<u64>,
    f2: Seq<u64>,
)
    requires
        book_wf(s),
        fills_ok(s, batch, side, p, v, f1),
        fills_ok(s, batch, side, p, v, f2),
    ensures
        f1 == f2,
{
    let n = s.len() as int;
    lemma_strict_sum_pinned(s, batch, side, p, v, f1);
    lemma_strict_sum_pinned(s, batch, side, p, v, f2);
    lemma_fill_split(s, batch, side, p, v, f1);
    lemma_fill_split(s, batch, side, p, v, f2);
    assert forall|i: int| 0 <= i < n implies #[trigger] f1[i] == f2[i] by {
        if sel(s[i], batch, side) && strictly_better(s[i], p) {
            lemma_strict_fill_le(s, batch, side, p, v, f1, f2, i);
            lemma_strict_fill_le(s, batch, side, p, v, f2, f1, i);
        } else if sel(s[i], batch, side) && s[i].price == p {
            lemma_marg_fill_le(s, batch, side, p, v, f1, f2, i);
            lemma_marg_fill_le(s, batch, side, p, v, f2, f1, i);
        }
    }
    assert(f1 =~= f2);
}

fn zero_fills(n: usize) -> (c: Vec<u64>)
    ensures
        c@.len() == n as int,
        forall|i: int| 0 <= i < n ==> #[trigger] c@[i] == 0,
{
    let mut c: Vec<u64> = Vec::new();
    let mut i: usize = 0;
    while i < n
        invariant
            i <= n,
            c@.len() == i as int,
            forall|j: int| 0 <= j < i ==> #[trigger] c@[j] == 0,
        decreases n - i,
    {
        c.push(0u64);
        i = i + 1;
    }
    c
}

/// Computes one batch's auction in isolation: the most preferred clearing
/// price over the book's limit prices, the fills of both sides, and the
/// trades. The book itself is not touched.
pub fn match_batch(orders: &Vec<Order>, batch_id: u64, prev_price: u64) -> (r: Result<
    MatchPlan,
    DexError,
>)
    requires
        book_wf(orders@),
    ensures
        match r {
            Result::Ok(plan) => {
                &&& plan.batch_id == batch_id
                &&& plan_ok(orders@, plan)
                &&& plan_optimal(orders@, prev_price, plan)
                &&& side_depth(orders@, batch_id, OrderSide::Buy) <= u64::MAX as int
                &&& side_depth(orders@, batch_id, OrderSide::Sell) <= u64::MAX as int
            },
            Result::Err(e) => e == DexError::ArithmeticOverflow && (side_depth(
                orders@,
                batch_id,
                OrderSide::Buy,
            ) > u64::MAX as int || side_depth(orders@, batch_id, OrderSide::Sell)
                > u64::MAX as int),
        },
{
    // A book whose aggregate remaining amount does not fit the volume type
    // cannot settle into it either: reject it outright.
    let db = compute_depth(orders, batch_id, OrderSide::Buy, 0, PriceClass::Crossing);
    let ds = compute_depth(orders, batch_id, OrderSide::Sell, u64::MAX, PriceClass::Crossing);
    if db > u64::MAX as u128 || ds > u64::MAX as u128 {
        return Result::Err(DexError::ArithmeticOverflow);
    }
    let plan = match find_clearing_price(orders, batch_id, prev_price) {
        None => MatchPlan {
            batch_id,
            clearing_price: None,
            volume: 0,
            buy_fills: zero_fills(orders.len()),
            sell_fills: zero_fills(orders.len()),
            trades: Vec::new(),
        },
        Some((p, v)) => {
            proof {
                lemma_depth_le_side(orders@, batch_id, OrderSide::Sell, p, PriceClass::Crossing);
            }
            let buy_fills = allocate_fills(orders, batch_id, OrderSide::Buy, p, v);
            let sell_fills = allocate_fills(orders, batch_id, OrderSide::Sell, p, v);
            let trades = build_trades(orders, batch_id, p, v, &buy_fills, &sell_fills);
            MatchPlan { batch_id, clearing_price: Some(p), volume: v, buy_fills, sell_fills, trades }
        },
    };
    Result::Ok(plan)
}

/// Runs the batch auction for the market's current batch, gated on the
/// batch's slot reservation: only the market authority may clear, and only
/// while the reservation is executable. On success the plan for the batch
/// comes back, the batch id advances — also over an empty or uncrossed
/// book — and a found clearing price is recorded for the next batch's
/// stability tie-break. The book is not mutated here: settlement applies
/// the plan atomically.
pub fn execute_batch_auction(
    market: &mut Market,
    orders: &Vec<Order>,
    reservation: &SlotReservation,
    authority: u64,
    now: i64,
) -> (r: Result<MatchPlan, DexError>)
    requires
        book_wf(orders@),
        old(market).current_batch_id < u64::MAX,
    ensures
        match r {
            Result::Ok(plan) => {
                &&& authority == old(market).authority
                &&& is_executable_spec(*reservation, now)
                &&& side_depth(orders@, old(market).current_batch_id, OrderSide::Buy)
                    <= u64::MAX as int
                &&& side_depth(orders@, old(market).current_batch_id, OrderSide::Sell)
                    <= u64::MAX as int
                &&& plan.batch_id == old(market).current_batch_id
                &&& plan_ok(orders@, plan)
                &&& plan_optimal(orders@, old(market).last_clearing_price, plan)
                &&& *final(market) == (Market {
                    current_batch_id: (old(market).current_batch_id + 1) as u64,
                    last_clearing_price: match plan.clearing_price {
                        Some(p) => p,
                        None => old(market).last_clearing_price,
                    },
                    ..*old(market)
                })
            },
            Result::Err(e) => *final(market) == *old(market) && (
                if authority != old(market).authority {
                    e == DexError::Unauthorized
                } else if !is_executable_spec(*reservation, now) {
                    e == DexError::InvalidSlotReservation
                } else {
                    e == DexError::ArithmeticOverflow && (side_depth(
                        orders@,
                        old(market).current_batch_id,
                        OrderSide::Buy,
                    ) > u64::MAX as int || side_depth(
                        orders@,
                        old(market).current_batch_id,
                        OrderSide::Sell,
                    ) > u64::MAX as int)
                }
            ),
        },
{
    if authority != market.authority {
        return Result::Err(DexError::Unauthorized);
    }
    if !is_executable(reservation, now) {
        return Result::Err(DexError::InvalidSlotReservation);
    }
    let plan = match match_batch(orders, market.current_batch_id, market.last_clearing_price) {
        Result::Ok(plan) => plan,
        Result::Err(e) => {
            return Result::Err(e);
        },
    };
    market.current_batch_id = market.current_batch_id + 1;
    match plan.clearing_price {
        Some(p) => {
            market.last_clearing_price = p;
        },
        None => {},
    }
    Result::Ok(plan)
}

} // verus!
