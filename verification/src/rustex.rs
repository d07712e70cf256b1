//! The exchange: two sides of resting orders and the matching of incoming
//! orders against them.
//!
//! Buy orders rest on the buyer side and sell orders on the seller side.  Each
//! side is a sorted list of `(price, key, stamp, unfilled)` items.  On the
//! seller side the key is the order's id, so the front holds the cheapest,
//! then oldest (smallest id) offer; on the buyer side the key is
//! `u64::MAX - id`, so the back holds the dearest bid and, among equal prices,
//! the smallest id.  The stamp counts down with every insertion, so that a new
//! item goes before every item with the same price and key, as it does in the
//! list when only price and id are compared.

pub mod laws;
pub mod records;

use vstd::prelude::*;
use skiplist::OrderedSkipList;
use crate::book::{
    BookItem, Resting, insertion_point, item_lt, items, items_sorted, lemma_insert_sorted,
    list_back, list_front, list_insert, list_pop_back, list_pop_front, new_list,
};
use crate::decimal::{
    BigDec, Comparison, SCALE_LIMIT, compare, value_below, dec_den, dec_eq, dec_num, dec_le, dec_lt, dec_zero, difference, divide,
    multiply, pow10, quick_one, short_quotient, ref_difference, ref_product, subtract_from_ref, quotient, scale_within, scaled, subtract,
};
use self::laws::{conserves, lemma_total_steps, side_total, side_worth};
use self::records::{
    MatchResult, MatchResultRole, MatchView, OrderAction, OrderRec, OrderState, OrderView,
    floor_spec, floor_with_prec, match_views, shifted_trunc,
};

verus! {

/// An item of a side of the market, as plain values.
pub type ItemView = ((int, int), u64, u64, (int, int));

/// Bound on the scales of the prices and amounts that the exchange holds:
/// `2^56`.  Matching multiplies a price by an amount (adding two scales) and
/// divides by a price (raising a scale by up to the divisor's digits plus the
/// 100 digits of `bigdecimal`'s precision), and every scale that reaches
/// `bigdecimal` must stay within `2^60` so that its `i64` scale arithmetic
/// cannot overflow.  The bound leaves room for a few such steps; the orders it
/// leaves out carry exponents beyond `±7.2e16` (such as `1e-80000000000000000`).
pub open spec fn sane_limit() -> int {
    0x100_0000_0000_0000
}

/// The two sides of the market as plain values: the items of each side and
/// the stamp that the next insertion on that side receives.
pub struct ExchangeView {
    pub buys: Seq<ItemView>,
    pub buy_stamp: u64,
    pub sells: Seq<ItemView>,
    pub sell_stamp: u64,
}

/// A price and an amount fit the exchange's bounds.
pub open spec fn item_sane(e: ItemView) -> bool {
    &&& scale_within(e.0, sane_limit())
    &&& scale_within(e.3, sane_limit())
    &&& -pow10(sane_limit() as nat) < e.0.0 < pow10(sane_limit() as nat)
}

/// A side of the market is sorted, its stamps lie above the next stamp, and
/// its prices and amounts fit the bounds.
pub open spec fn side_wf(s: Seq<ItemView>, stamp: u64) -> bool {
    &&& items_sorted(s)
    &&& forall|i: int| 0 <= i < s.len() ==> (#[trigger] s[i]).2 > stamp
    &&& forall|i: int| 0 <= i < s.len() ==> item_sane(#[trigger] s[i])
}

/// Both sides of the market are well formed.
pub open spec fn exchange_wf(ex: ExchangeView) -> bool {
    side_wf(ex.buys, ex.buy_stamp) && side_wf(ex.sells, ex.sell_stamp)
}

/// An incoming order's price and amount fit the exchange's bounds.
pub open spec fn order_sane(o: OrderView) -> bool {
    &&& scale_within(o.price, sane_limit())
    &&& scale_within(o.unfilled, sane_limit())
    &&& -pow10(sane_limit() as nat) < o.price.0 < pow10(sane_limit() as nat)
    &&& -pow10(sane_limit() as nat) < o.unfilled.0 < pow10(sane_limit() as nat)
}

/// The one input on which matching divides by zero: a market buy with a
/// negative amount left, facing a best offer at price zero.
pub open spec fn divides_by_zero(ex: ExchangeView, o: OrderView) -> bool {
    &&& o.action is BuyMarket
    &&& dec_lt(o.unfilled, dec_zero())
    &&& ex.sells.len() > 0
    &&& ex.sells[0].0.0 == 0
}

/// The key under which an order rests on its side.
pub open spec fn rest_key(action: OrderAction, id: u64) -> u64 {
    if action.sells() {
        id
    } else {
        (u64::MAX - id) as u64
    }
}

/// The best bid is at least the order's price, or the order takes any price.
pub open spec fn buyer_matches(o: OrderView, buys: Seq<ItemView>) -> bool {
    buys.len() > 0 && (dec_le(o.price, buys.last().0) || !o.action.limited())
}

/// The best offer is at most the order's price, or the order takes any price.
pub open spec fn seller_matches(o: OrderView, sells: Seq<ItemView>) -> bool {
    sells.len() > 0 && (dec_le(sells[0].0, o.price) || !o.action.limited())
}

/// The opposite side holds an order that the incoming order trades with.
pub open spec fn crosses(o: OrderView, opp: Seq<ItemView>) -> bool {
    if o.action.sells() {
        buyer_matches(o, opp)
    } else {
        seller_matches(o, opp)
    }
}

/// The best item of the opposite side.
pub open spec fn best(o: OrderView, opp: Seq<ItemView>) -> ItemView {
    if o.action.sells() {
        opp.last()
    } else {
        opp[0]
    }
}

/// The opposite side without its best item.
pub open spec fn without_best(o: OrderView, opp: Seq<ItemView>) -> Seq<ItemView> {
    if o.action.sells() {
        opp.drop_last()
    } else {
        opp.drop_first()
    }
}

/// The result reported for a resting order that was matched.
pub open spec fn maker_result(o: OrderView, m: ItemView, state: OrderState, amount: (int, int)) -> MatchView {
    MatchView {
        role: MatchResultRole::Maker,
        id: if o.action.sells() { (u64::MAX - m.1) as u64 } else { m.1 },
        action: if o.action.sells() { OrderAction::BuyLimit } else { OrderAction::SellLimit },
        price: m.0,
        state,
        amount,
    }
}

/// What the matching loop leaves behind: the opposite side and its next stamp,
/// what is left of the incoming order (as the loop computes it and as its
/// record holds it), and the results of the makers.
pub struct RunOutcome {
    pub opp: Seq<ItemView>,
    pub stamp: u64,
    pub unfilled: (int, int),
    pub record_unfilled: (int, int),
    pub results: Seq<MatchView>,
}

/// The matching loop: while the best resting order of the opposite side
/// crosses, take it out and fill against it.  `unfilled` is what the loop
/// keeps of the incoming order, `record` what its record holds.
pub open spec fn match_run(o: OrderView, opp: Seq<ItemView>, stamp: u64, unfilled: (int, int), record: (int, int)) -> RunOutcome
    decreases opp.len(),
{
    if !crosses(o, opp) {
        RunOutcome { opp, stamp, unfilled, record_unfilled: record, results: Seq::empty() }
    } else {
        let m = best(o, opp);
        let rest = without_best(o, opp);
        let buy_market = o.action is BuyMarket;
        let avail = if buy_market { ref_product(m.3, m.0) } else { m.3 };
        let u = difference(unfilled, avail);
        if dec_lt(dec_zero(), u) {
            let next = match_run(o, rest, stamp, u, difference(record, avail));
            RunOutcome {
                results: seq![maker_result(o, m, OrderState::Filled, floor_spec(m.3, 18))] + next.results,
                ..next
            }
        } else if dec_lt(u, dec_zero()) {
            let filled = if buy_market { floor_spec(quotient(record, m.0), 18) } else { record };
            let left = difference(m.3, filled);
            let back = (m.0, m.1, stamp, left);
            RunOutcome {
                opp: rest.insert(insertion_point(rest, back) as int, back),
                stamp: (stamp - 1) as u64,
                unfilled: if buy_market { ref_difference(record, ref_product(filled, m.0)) } else { dec_zero() },
                record_unfilled: record,
                results: seq![maker_result(o, m, OrderState::PartialFilled, floor_spec(filled, 18))],
            }
        } else {
            RunOutcome {
                opp: rest,
                stamp,
                unfilled: u,
                record_unfilled: record,
                results: seq![maker_result(o, m, OrderState::Filled, floor_spec(m.3, 18))],
            }
        }
    }
}

/// The division of a market buy's partial fill is exact: where the run stops
/// on an offer that it does not take whole, what is left divided by the
/// offer's price has an exact form with a mantissa of at most 100 digits, and
/// that form cut to 18 digits after the point has fewer than 100 digits.  (Past
/// that, `bigdecimal` rounds the quotient.)
pub open spec fn exact_fill(o: OrderView, opp: Seq<ItemView>, up: (int, int), record: (int, int)) -> bool
    decreases opp.len(),
{
    if !crosses(o, opp) {
        true
    } else {
        let m = best(o, opp);
        let avail = if o.action is BuyMarket { ref_product(m.3, m.0) } else { m.3 };
        let u = difference(up, avail);
        if dec_lt(dec_zero(), u) {
            exact_fill(o, without_best(o, opp), u, difference(record, avail))
        } else if dec_lt(u, dec_zero()) {
            exists|q: (int, int)| #[trigger] short_quotient(record, m.0, q) && -pow10(100) < shifted_trunc(q, 18) < pow10(100)
        } else {
            true
        }
    }
}

/// The opposite side of the market for an order, and its next stamp.
pub open spec fn opposite(ex: ExchangeView, o: OrderView) -> (Seq<ItemView>, u64) {
    if o.action.sells() {
        (ex.buys, ex.buy_stamp)
    } else {
        (ex.sells, ex.sell_stamp)
    }
}

/// The run of the matching loop for an incoming order.
pub open spec fn run_of(ex: ExchangeView, o: OrderView) -> RunOutcome {
    match_run(o, opposite(ex, o).0, opposite(ex, o).1, o.unfilled, o.unfilled)
}

/// The state reported for the incoming order.
pub open spec fn taker_state(limited: bool, fully_filled: bool, nothing_matched: bool) -> OrderState {
    if fully_filled {
        OrderState::Filled
    } else if limited {
        if nothing_matched { OrderState::Submitted } else { OrderState::PartialFilled }
    } else {
        if nothing_matched { OrderState::Canceled } else { OrderState::PartialCanceled }
    }
}

/// The incoming order rests on its side after the match.
pub open spec fn rests(ex: ExchangeView, o: OrderView) -> bool {
    o.action.limited() && !dec_eq(run_of(ex, o).unfilled, dec_zero())
}

/// The results of processing an order: the makers' results, then the taker's.
pub open spec fn process_results(ex: ExchangeView, o: OrderView) -> Seq<MatchView> {
    let run = run_of(ex, o);
    run.results.push(
        MatchView {
            role: MatchResultRole::Taker,
            id: o.id,
            action: o.action,
            price: o.price,
            state: taker_state(
                o.action.limited(),
                dec_eq(run.unfilled, dec_zero()),
                run.results.len() == 0,
            ),
            amount: run.unfilled,
        },
    )
}

/// A side after an order is added to it (at its insertion point) or not.
pub open spec fn with_rest(s: Seq<ItemView>, stamp: u64, add: bool, e: ItemView) -> (Seq<ItemView>, u64) {
    if add {
        (s.insert(insertion_point(s, e) as int, e), (stamp - 1) as u64)
    } else {
        (s, stamp)
    }
}

/// The exchange after processing an order.
pub open spec fn process_book(ex: ExchangeView, o: OrderView) -> ExchangeView {
    let run = run_of(ex, o);
    if o.action.sells() {
        let own = with_rest(ex.sells, ex.sell_stamp, rests(ex, o), (o.price, rest_key(o.action, o.id), ex.sell_stamp, run.record_unfilled));
        ExchangeView { buys: run.opp, buy_stamp: run.stamp, sells: own.0, sell_stamp: own.1 }
    } else {
        let own = with_rest(ex.buys, ex.buy_stamp, rests(ex, o), (o.price, rest_key(o.action, o.id), ex.buy_stamp, run.record_unfilled));
        ExchangeView { buys: own.0, buy_stamp: own.1, sells: run.opp, sell_stamp: run.stamp }
    }
}

/// The plain values of a sequence of results after one more is pushed.
proof fn lemma_views_push(s: Seq<MatchResult>, x: MatchResult)
    ensures
        match_views(s.push(x)) == match_views(s).push(x@),
{
    assert(match_views(s.push(x)) =~= match_views(s).push(x@));
}

/// A sequence without its last element.
spec fn old_ret_of(s: Seq<MatchResult>) -> Seq<MatchResult> {
    s.drop_last()
}

/// Moving one result from what is still to come to what is done.
proof fn lemma_results_step(all: Seq<MatchView>, done: Seq<MatchView>, v: MatchView, next: Seq<MatchView>)
    requires
        done.len() <= all.len(),
        done == all.take(done.len() as int),
        all.skip(done.len() as int) == seq![v] + next,
    ensures
        done.len() + 1 <= all.len(),
        done.push(v) == all.take(done.len() + 1int),
        all.skip(done.len() + 1int) == next,
        next.len() == 0 ==> done.push(v) == all,
{
    let n = done.len() as int;
    assert(all.skip(n).len() == next.len() + 1);
    assert(all.skip(n)[0] == v);
    assert(all[n] == v);
    assert(done.push(v) =~= all.take(n + 1));
    assert(all.skip(n + 1) =~= all.skip(n).drop_first());
    assert((seq![v] + next).drop_first() =~= next);
    if next.len() == 0 {
        assert(all.take(n + 1) =~= all);
    }
}

/// Taking the best item out of a well-formed side leaves a well-formed side;
/// the item fits the bounds and carries a stamp above the side's next stamp.
proof fn lemma_remove_best(o: OrderView, opp: Seq<ItemView>, stamp: u64)
    requires
        side_wf(opp, stamp),
        crosses(o, opp),
    ensures
        side_wf(without_best(o, opp), stamp),
        item_sane(best(o, opp)),
        best(o, opp).2 > stamp,
{
    let rest = without_best(o, opp);
    let k = if o.action.sells() { opp.len() - 1 } else { 0 };
    assert(opp[k] == best(o, opp));
    if o.action.sells() {
        assert forall|i: int| 0 <= i < rest.len() implies rest[i] == opp[i] by {}
    } else {
        assert forall|i: int| 0 <= i < rest.len() implies rest[i] == opp[i + 1] by {}
    }
}

/// Putting an item stamped with the side's next stamp on a well-formed side
/// leaves a well-formed side with the following stamp.
proof fn lemma_reinsert(rest: Seq<ItemView>, stamp: u64, x: ItemView)
    requires
        side_wf(rest, stamp),
        item_sane(x),
        x.2 == stamp,
        stamp > 0,
    ensures
        side_wf(rest.insert(insertion_point(rest, x) as int, x), (stamp - 1) as u64),
{
    lemma_insert_sorted(rest, x);
    crate::book::lemma_insertion_point(rest, x);
    let p = insertion_point(rest, x) as int;
    let ins = rest.insert(p, x);
    assert forall|i: int| 0 <= i < ins.len() implies (#[trigger] ins[i]).2 > (stamp - 1) as u64 && item_sane(ins[i]) by {
        if i < p {
            assert(ins[i] == rest[i]);
        } else if i > p {
            assert(ins[i] == rest[i - 1]);
        }
    }
}

/// When a market buy falls short on a resting offer, that offer's price is not
/// zero: a zero price makes the offer worth zero, which leaves the buy's
/// amount as it was, and only the first offer can meet a negative amount.
proof fn lemma_nonzero_divisor(
    ex0: ExchangeView,
    o0: OrderView,
    before: ExchangeView,
    done: nat,
    up: (int, int),
    m: ItemView,
    avail: (int, int),
    u: (int, int),
)
    requires
        o0.action is BuyMarket,
        !divides_by_zero(ex0, o0),
        done > 0 ==> dec_lt(dec_zero(), up),
        done == 0 ==> up == o0.unfilled && before == ex0,
        m == best(o0, before.sells),
        before.sells.len() > 0,
        avail == ref_product(m.3, m.0),
        dec_num(avail) * (dec_den(m.3) * dec_den(m.0)) == dec_num(m.3) * dec_num(m.0) * dec_den(avail),
        dec_num(u) * (dec_den(up) * dec_den(avail)) == (dec_num(up) * dec_den(avail) - dec_num(avail)
            * dec_den(up)) * dec_den(u),
        dec_lt(u, dec_zero()),
    ensures
        m.0.0 != 0,
{
    if m.0.0 == 0 {
        crate::decimal::lemma_product_with_zero(m.3, m.0, avail);
        crate::decimal::lemma_difference_with_zero(up, avail, u);
        assert(dec_den(dec_zero()) == 1);
        assert(dec_num(dec_zero()) == 0);
        assert(dec_num(u) < 0);
        assert(dec_num(up) < 0);
        if done == 0 {
            assert(m == ex0.sells[0]);
            assert(dec_lt(o0.unfilled, dec_zero()));
        }
    }
}

/// Every amount left on a side is above zero.
pub open spec fn amounts_positive(s: Seq<ItemView>) -> bool {
    forall|i: int| 0 <= i < s.len() ==> dec_lt(dec_zero(), (#[trigger] s[i]).3)
}

/// When `0 < rec < m3 * price` with `m3 > 0`, an exact quotient `rec / price`
/// lies between zero and `m3`.
proof fn lemma_quotient_below(rec: (int, int), price: (int, int), m3: (int, int), avail: (int, int), q: (int, int))
    requires
        dec_lt(dec_zero(), rec),
        dec_lt(rec, avail),
        dec_num(avail) * (dec_den(m3) * dec_den(price)) == dec_num(m3) * dec_num(price) * dec_den(avail),
        dec_lt(dec_zero(), m3),
        dec_num(q) * dec_num(price) * dec_den(rec) == dec_num(rec) * dec_den(q) * dec_den(price),
    ensures
        dec_le(dec_zero(), q),
        dec_lt(q, m3),
{
    crate::decimal::lemma_den_positive(rec);
    crate::decimal::lemma_den_positive(price);
    crate::decimal::lemma_den_positive(m3);
    crate::decimal::lemma_den_positive(avail);
    crate::decimal::lemma_den_positive(q);
    assert(dec_num(dec_zero()) == 0 && dec_den(dec_zero()) == 1);
    let (nr, dr, na, da, nm, dm, np, dp, nq, dq) = (dec_num(rec), dec_den(rec), dec_num(avail), dec_den(avail),
        dec_num(m3), dec_den(m3), dec_num(price), dec_den(price), dec_num(q), dec_den(q));
    assert(nr > 0) by (nonlinear_arith)
        requires
            0 * dr < nr * 1,
    ;
    assert(nm > 0) by (nonlinear_arith)
        requires
            0 * dm < nm * 1,
    ;
    assert(na > 0) by (nonlinear_arith)
        requires
            nr * da < na * dr,
            nr > 0,
            da > 0,
            dr > 0,
    ;
    assert(np > 0) by (nonlinear_arith)
        requires
            na * (dm * dp) == nm * np * da,
            na > 0,
            dm > 0,
            dp > 0,
            nm > 0,
            da > 0,
    ;
    assert(nq > 0) by (nonlinear_arith)
        requires
            nq * np * dr == nr * dq * dp,
            nr > 0,
            dq > 0,
            dp > 0,
            np > 0,
            dr > 0,
    ;
    // nq * dm * (np * dr * da) == nr * dq * dp * dm * da < na * dr * dq * dp * dm == nm * np * da * dr * dq
    assert(nq * dm * (np * dr * da) == (nq * np * dr) * (dm * da)) by (nonlinear_arith);
    assert((nr * dq * dp) * (dm * da) == (nr * da) * (dq * dp * dm)) by (nonlinear_arith);
    assert(nq * dm * (np * dr * da) == (nr * da) * (dq * dp * dm));
    assert((nr * da) * (dq * dp * dm) < (na * dr) * (dq * dp * dm)) by (nonlinear_arith)
        requires
            nr * da < na * dr,
            dq > 0,
            dp > 0,
            dm > 0,
    ;
    assert((na * dr) * (dq * dp * dm) == (na * (dm * dp)) * (dr * dq)) by (nonlinear_arith);
    assert((nm * np * da) * (dr * dq) == (nm * dq) * (np * dr * da)) by (nonlinear_arith);
    assert((na * dr) * (dq * dp * dm) == (nm * dq) * (np * dr * da));
    assert(nq * dm < nm * dq) by (nonlinear_arith)
        requires
            nq * dm * (np * dr * da) < (nm * dq) * (np * dr * da),
            np > 0,
            dr > 0,
            da > 0,
    ;
    assert(0 * dq <= nq * 1);
}

/// A difference of a smaller from a larger value is above zero.
proof fn lemma_positive_difference(a: (int, int), b: (int, int), r: (int, int))
    requires
        dec_num(r) * (dec_den(a) * dec_den(b)) == (dec_num(a) * dec_den(b) - dec_num(b) * dec_den(a)) * dec_den(r),
        dec_lt(b, a),
    ensures
        dec_lt(dec_zero(), r),
{
    crate::decimal::lemma_den_positive(a);
    crate::decimal::lemma_den_positive(b);
    crate::decimal::lemma_den_positive(r);
    assert(dec_num(dec_zero()) == 0 && dec_den(dec_zero()) == 1);
    let (na, nb, nr, da, db, dr) = (dec_num(a), dec_num(b), dec_num(r), dec_den(a), dec_den(b), dec_den(r));
    assert(0 * dr < nr * 1) by (nonlinear_arith)
        requires
            nr * (da * db) == (na * db - nb * da) * dr,
            nb * da < na * db,
            da > 0,
            db > 0,
            dr > 0,
    ;
}

/// The lowest scale of an amount in play during matching: `-2^58`.
pub open spec fn low_limit() -> int {
    0x400_0000_0000_0000
}

/// The largest magnitude, in digits, of an operand that `multiply` may
/// normalize.
pub open spec fn norm_digits() -> nat {
    0x1000_0000_0000_0000
}

/// A resting item's worth (amount times price): its operands fit
/// `multiply`, and its scale stays within the bounds of matching.
proof fn lemma_worth_fits(m: ItemView, w: nat)
    requires
        item_sane(m),
        -pow10(w) < m.3.0 < pow10(w),
        w <= width_limit(),
    ensures
        quick_one(m.0) ==> -pow10(norm_digits()) < m.3.0 < pow10(norm_digits()),
        quick_one(m.3) ==> -pow10(norm_digits()) < m.0.0 < pow10(norm_digits()),
        -low_limit() <= ref_product(m.3, m.0).1 <= 2 * sane_limit(),
{
    crate::decimal::lemma_pow10_monotone(w, norm_digits());
    crate::decimal::lemma_pow10_monotone(sane_limit() as nat, norm_digits());
    crate::decimal::lemma_normalized_scale(m.3);
    crate::decimal::lemma_normalized_scale(m.0);
    crate::decimal::lemma_normalized_lower(m.3, w);
    crate::decimal::lemma_normalized_lower(m.0, sane_limit() as nat);
}

/// A market buy's payment (filled times price): its scale stays within the
/// bounds of matching.
proof fn lemma_pay_fits(filled: (int, int), price: (int, int))
    requires
        filled.1 == 0 || 17 <= filled.1 <= 119,
        scale_within(price, sane_limit()),
        -pow10(sane_limit() as nat) < price.0 < pow10(sane_limit() as nat),
        quick_one(price) ==> -pow10(norm_digits()) < filled.0 < pow10(norm_digits()),
    ensures
        quick_one(filled) ==> -pow10(norm_digits()) < price.0 < pow10(norm_digits()),
        -SCALE_LIMIT <= ref_product(filled, price).1 <= 2 * sane_limit(),
{
    crate::decimal::lemma_pow10_monotone(sane_limit() as nat, norm_digits());
    crate::decimal::lemma_normalized_scale(filled);
    crate::decimal::lemma_normalized_scale(price);
    crate::decimal::lemma_normalized_lower(price, sane_limit() as nat);
    if quick_one(price) {
        crate::decimal::lemma_normalized_lower(filled, norm_digits());
    }
}

/// A difference below zero means the first operand is below the second.
proof fn lemma_negative_difference(a: (int, int), b: (int, int), u: (int, int))
    requires
        dec_num(u) * (dec_den(a) * dec_den(b)) == (dec_num(a) * dec_den(b) - dec_num(b) * dec_den(a)) * dec_den(u),
        dec_lt(u, dec_zero()),
    ensures
        dec_lt(a, b),
{
    crate::decimal::lemma_den_positive(a);
    crate::decimal::lemma_den_positive(b);
    crate::decimal::lemma_den_positive(u);
    assert(dec_num(dec_zero()) == 0 && dec_den(dec_zero()) == 1);
    let (na, nb, nu, da, db, du) = (dec_num(a), dec_num(b), dec_num(u), dec_den(a), dec_den(b), dec_den(u));
    assert(na * db < nb * da) by (nonlinear_arith)
        requires
            nu * (da * db) == (na * db - nb * da) * du,
            nu * 1 < 0 * du,
            da > 0,
            db > 0,
            du > 0,
    ;
}

/// A product by a factor that passes the quick test for one denotes the other
/// factor.
proof fn lemma_times_one(a: (int, int), one: (int, int), r: (int, int))
    requires
        quick_one(one),
        dec_num(r) * (dec_den(a) * dec_den(one)) == dec_num(a) * dec_num(one) * dec_den(r),
    ensures
        dec_eq(r, a),
{
    crate::decimal::lemma_den_positive(one);
    let (nr, na, dr, da, d1) = (dec_num(r), dec_num(a), dec_den(r), dec_den(a), dec_den(one));
    assert(dec_num(one) == d1);
    assert(nr * da == na * dr) by (nonlinear_arith)
        requires
            nr * (da * d1) == na * d1 * dr,
            d1 > 0,
    ;
}

/// `10^a + 10^b < 10^c` when both `a` and `b` are below `c`.
proof fn lemma_pow10_sum(a: nat, b: nat, c: nat)
    requires
        a < c,
        b < c,
    ensures
        pow10(a) + pow10(b) < pow10(c),
{
    crate::decimal::lemma_pow10_monotone(a, (c - 1) as nat);
    crate::decimal::lemma_pow10_monotone(b, (c - 1) as nat);
    crate::decimal::lemma_pow10_positive((c - 1) as nat);
    assert(pow10(c) == 10 * pow10((c - 1) as nat));
}

/// One full fill: the amount left drops by what the maker had (or, for a
/// market buy, by its worth).
proof fn lemma_conserve_step(buy_market: bool, up: (int, int), m: ItemView, avail: (int, int), u: (int, int))
    requires
        item_sane(m),
        up.1 <= if buy_market { 2 * sane_limit() } else { sane_limit() },
        !buy_market ==> avail == m.3,
        buy_market ==> avail.1 <= 2 * sane_limit(),
        buy_market ==> dec_num(avail) * (dec_den(m.3) * dec_den(m.0)) == dec_num(m.3) * dec_num(m.0) * dec_den(avail),
        u.1 <= up.1 || u.1 <= avail.1,
        dec_num(u) * (dec_den(up) * dec_den(avail)) == (dec_num(up) * dec_den(avail) - dec_num(avail) * dec_den(up)) * dec_den(u),
    ensures
        !buy_market ==> scaled(u, sane_limit()) == scaled(up, sane_limit()) - scaled(m.3, sane_limit()),
        buy_market ==> scaled(u, 2 * sane_limit()) == scaled(up, 2 * sane_limit())
            - scaled(m.0, sane_limit()) * scaled(m.3, sane_limit()),
{
    let k = sane_limit();
    if buy_market {
        crate::decimal::lemma_scaled_product(m.3, m.0, avail, k);
        crate::decimal::lemma_scaled_difference(up, avail, u, 2 * k);
        assert(scaled(m.3, k) * scaled(m.0, k) == scaled(m.0, k) * scaled(m.3, k)) by (nonlinear_arith);
    } else {
        crate::decimal::lemma_scaled_difference(up, avail, u, k);
    }
}

/// A partial fill: the maker keeps `left == m.3 - filled`, and the order is
/// left with zero (or, for a market buy, with `up - filled * price`).
proof fn lemma_conserve_partial(
    buy_market: bool,
    up: (int, int),
    m: ItemView,
    filled: (int, int),
    left: (int, int),
    p: (int, int),
    u: (int, int),
)
    requires
        item_sane(m),
        up.1 <= if buy_market { 2 * sane_limit() } else { sane_limit() },
        !buy_market ==> scale_within(up, sane_limit()),
        !buy_market ==> filled == up && u == dec_zero(),
        buy_market ==> filled.1 == 0 || 17 <= filled.1 <= 119,
        left.1 <= m.3.1 || left.1 <= filled.1,
        dec_num(left) * (dec_den(m.3) * dec_den(filled)) == (dec_num(m.3) * dec_den(filled) - dec_num(filled)
            * dec_den(m.3)) * dec_den(left),
        buy_market ==> p.1 <= 2 * sane_limit(),
        buy_market ==> dec_num(p) * (dec_den(filled) * dec_den(m.0)) == dec_num(filled) * dec_num(m.0) * dec_den(p),
        buy_market ==> u.1 <= up.1 || u.1 <= p.1,
        buy_market ==> dec_num(u) * (dec_den(up) * dec_den(p)) == (dec_num(up) * dec_den(p) - dec_num(p) * dec_den(up)) * dec_den(u),
    ensures
        !buy_market ==> scaled(left, sane_limit()) == scaled(m.3, sane_limit()) - scaled(up, sane_limit())
            && scaled(u, sane_limit()) == 0,
        buy_market ==> scaled(m.0, sane_limit()) * scaled(m.3, sane_limit()) - scaled(m.0, sane_limit())
            * scaled(left, sane_limit()) == scaled(up, 2 * sane_limit()) - scaled(u, 2 * sane_limit()),
{
    let k = sane_limit();
    crate::decimal::lemma_scaled_difference(m.3, filled, left, k);
    if buy_market {
        crate::decimal::lemma_scaled_product(filled, m.0, p, k);
        crate::decimal::lemma_scaled_difference(up, p, u, 2 * k);
        let (a, b, c) = (scaled(m.0, k), scaled(m.3, k), scaled(filled, k));
        assert(a * b - a * (b - c) == c * a) by (nonlinear_arith);
    } else {
        crate::decimal::lemma_dec_order(dec_zero(), dec_zero(), dec_zero());
        crate::decimal::lemma_scaled_zero(dec_zero(), k);
    }
}

/// Taking the first or the last item out of a well-formed side leaves a
/// well-formed side.
proof fn lemma_side_drop(s: Seq<ItemView>, stamp: u64)
    requires
        side_wf(s, stamp),
    ensures
        s.len() > 0 ==> side_wf(s.drop_last(), stamp) && side_wf(s.drop_first(), stamp),
{
    if s.len() > 0 {
        let a = s.drop_last();
        let b = s.drop_first();
        assert forall|i: int| 0 <= i < a.len() implies a[i] == s[i] by {}
        assert forall|i: int| 0 <= i < b.len() implies b[i] == s[i + 1] by {}
    }
}

/// One side of the market.
pub struct OrderBook {
    list: OrderedSkipList<BookItem>,
    price: Option<BigDec>,
    stamp: u64,
    width: u128,
}

/// Every amount of `s` has a mantissa of fewer than `w` decimal digits.
pub open spec fn amounts_within(s: Seq<ItemView>, w: nat) -> bool {
    forall|i: int| 0 <= i < s.len() ==> -pow10(w) < (#[trigger] s[i]).3.0 < pow10(w)
}

/// The largest width of the amounts' mantissas for which matching is proved
/// to keep every scale within `bigdecimal`'s `i64` arithmetic: `2^57` digits.
pub open spec fn width_limit() -> nat {
    0x200_0000_0000_0000
}

impl OrderBook {
    pub closed spec fn items(&self) -> Seq<ItemView> {
        items(self.list)
    }

    pub closed spec fn stamp(&self) -> u64 {
        self.stamp
    }

    /// The side's price field, as plain values (it starts unset and nothing
    /// sets it).
    pub closed spec fn price(&self) -> Option<(int, int)> {
        match self.price {
            Some(p) => Some(p@),
            None => None,
        }
    }

    /// A bound on the number of decimal digits of the amounts' mantissas.
    pub closed spec fn width(&self) -> nat {
        self.width as nat
    }

    fn new() -> (b: OrderBook)
        ensures
            b.items() == Seq::<ItemView>::empty(),
            b.stamp() == u64::MAX,
            b.price() is None,
            b.width() == 0,
    {
        OrderBook { list: new_list(65536), price: None, stamp: u64::MAX, width: 0 }
    }

    /// Puts an order on this side, stamped with the side's next stamp.
    fn insert(&mut self, price: BigDec, key: u64, unfilled: BigDec)
        requires
            items_sorted(old(self).items()),
            old(self).stamp() > 0,
            amounts_within(old(self).items(), old(self).width()),
        ensures
            ({
                let e = (price@, key, old(self).stamp(), unfilled@);
                final(self).items() == old(self).items().insert(insertion_point(old(self).items(), e) as int, e)
            }),
            final(self).stamp() == old(self).stamp() - 1,
            final(self).price() == old(self).price(),
            old(self).width() <= final(self).width(),
            final(self).width() <= old(self).width() || final(self).width() == 10 * unfilled.digits@.len(),
            amounts_within(final(self).items(), final(self).width()),
        no_unwind
    {
        let n = unfilled.digits.len();
        let w: u128 = 10 * (n as u128);
        proof {
            crate::decimal::lemma_limbs_bound(unfilled.digits@);
            crate::decimal::lemma_pow10_monotone((10 * unfilled.digits@.len()) as nat, w as nat);
            let wmax: nat = if self.width >= w { self.width as nat } else { w as nat };
            crate::decimal::lemma_pow10_monotone(w as nat, wmax);
            crate::decimal::lemma_pow10_monotone(self.width as nat, wmax);
        }
        let ghost old_items = self.items();
        let e = Resting { price, key, seq: self.stamp, unfilled };
        list_insert(&mut self.list, e);
        self.stamp = self.stamp - 1;
        if w > self.width {
            self.width = w;
        }
        proof {
            let p = insertion_point(old_items, e@) as int;
            crate::book::lemma_insertion_point(old_items, e@);
            assert forall|i: int| 0 <= i < self.items().len() implies
                -pow10(self.width as nat) < (#[trigger] self.items()[i]).3.0 < pow10(self.width as nat) by {
                if i < p {
                    assert(self.items()[i] == old_items[i]);
                } else if i > p {
                    assert(self.items()[i] == old_items[i - 1]);
                }
            }
        }
    }
}

/// The exchange: the buyers' and the sellers' sides.
pub struct Exchange {
    buyer: OrderBook,
    seller: OrderBook,
}

impl View for Exchange {
    type V = ExchangeView;

    closed spec fn view(&self) -> ExchangeView {
        ExchangeView {
            buys: self.buyer.items(),
            buy_stamp: self.buyer.stamp(),
            sells: self.seller.items(),
            sell_stamp: self.seller.stamp(),
        }
    }
}

/// The report of one match, made from a resting order.
fn make_result(m: &Resting, taker_sells: bool, state: OrderState, amount: &BigDec) -> (r: MatchResult)
    requires
        scale_within(amount@, SCALE_LIMIT as int),
    ensures
        r@ == (MatchView {
            role: MatchResultRole::Maker,
            id: if taker_sells { (u64::MAX - m.key) as u64 } else { m.key },
            action: if taker_sells { OrderAction::BuyLimit } else { OrderAction::SellLimit },
            price: m.price@,
            state,
            amount: floor_spec(amount@, 18),
        }),
{
    MatchResult {
        id: if taker_sells { u64::MAX - m.key } else { m.key },
        role: MatchResultRole::Maker,
        action: if taker_sells { OrderAction::BuyLimit } else { OrderAction::SellLimit },
        price: m.price.duplicate(),
        state,
        amount: floor_with_prec(amount, 18),
    }
}

impl Exchange {
    /// Both sides of the exchange are always well formed.
    #[verifier::type_invariant]
    spec fn inv(self) -> bool {
        &&& exchange_wf(self@)
        &&& amounts_within(self@.buys, self.buyer.width())
        &&& amounts_within(self@.sells, self.seller.width())
    }

    /// The amounts on both sides have mantissas of at most `width_limit()`
    /// digits.
    pub closed spec fn widths_fit(&self) -> bool {
        self.buyer.width() <= width_limit() && self.seller.width() <= width_limit()
    }

    /// The digit bounds of the buyers' and the sellers' amounts.  Each starts
    /// at zero and grows when an amount with more digits is put on its side.
    pub closed spec fn widths(&self) -> (nat, nat) {
        (self.buyer.width(), self.seller.width())
    }

    /// The price fields of the buyers' and the sellers' sides.
    pub closed spec fn prices(&self) -> (Option<(int, int)>, Option<(int, int)>) {
        (self.buyer.price(), self.seller.price())
    }

    /// An exchange with no resting orders.
    pub fn new() -> (r: Exchange)
        ensures
            r.prices() == (None::<(int, int)>, None::<(int, int)>),
            r.widths() == (0nat, 0nat),
            r.widths_fit(),
            r@.buys == Seq::<ItemView>::empty(),
            r@.sells == Seq::<ItemView>::empty(),
            r@.buy_stamp == u64::MAX,
            r@.sell_stamp == u64::MAX,
    {
        Exchange { buyer: OrderBook::new(), seller: OrderBook::new() }
    }

    /// Both sides can still take an order (each insertion uses up a stamp), and
    /// the amounts resting on them are within the digits that matching is
    /// proved for.
    pub fn has_room(&self) -> (r: bool)
        ensures
            r == (self@.buy_stamp > 0 && self@.sell_stamp > 0 && self.widths_fit()),
    {
        self.buyer.stamp > 0 && self.seller.stamp > 0 && self.buyer.width <= 0x200_0000_0000_0000
            && self.seller.width <= 0x200_0000_0000_0000
    }

    /// Processing `o` would divide by zero: a market buy with a negative
    /// amount left, facing a best offer at price zero.
    pub fn would_divide_by_zero(&self, o: &OrderRec) -> (r: bool)
        ensures
            r == divides_by_zero(self@, o@),
    {
        if o.action != OrderAction::BuyMarket {
            return false;
        }
        let zero = BigDec::zero();
        proof {
            crate::decimal::lemma_zero_value(o.unfilled_amount@);
        }
        if compare(&o.unfilled_amount, &zero) != Comparison::Less {
            return false;
        }
        match list_front(&self.seller.list) {
            None => false,
            Some(f) => {
                proof {
                    crate::decimal::lemma_zero_value(f.price@);
                }
                compare(&f.price, &zero) == Comparison::Equal
            },
        }
    }

    /// Takes the best bid out if the order trades with it.
    fn lookup_buyer(&mut self, o: &OrderRec) -> (r: Option<Resting>)
        ensures
            final(self).buyer.width() == old(self).buyer.width(),
            final(self).seller.width() == old(self).seller.width(),
            final(self).prices() == old(self).prices(),
            buyer_matches(o@, old(self)@.buys) ==> r is Some && r.unwrap()@ == old(self)@.buys.last()
                && final(self)@ == (ExchangeView { buys: old(self)@.buys.drop_last(), ..old(self)@ }),
            !buyer_matches(o@, old(self)@.buys) ==> r is None && final(self)@ == old(self)@,
    {
        proof {
            use_type_invariant(&*self);
            lemma_side_drop(self@.buys, self@.buy_stamp);
        }
        match list_back(&self.buyer.list) {
            Some(b) => {
                let c = compare(&b.price, &o.price);
                if c == Comparison::Greater || c == Comparison::Equal || o.action.is_market() {
                    proof {
                        crate::decimal::lemma_dec_order(o.price@, b.price@, b.price@);
                    }
                    list_pop_back(&mut self.buyer.list)
                } else {
                    proof {
                        crate::decimal::lemma_dec_order(o.price@, b.price@, b.price@);
                    }
                    None
                }
            },
            None => None,
        }
    }

    /// Puts a buy order on the buyers' side.
    fn add_buyer(&mut self, o: OrderRec)
        requires
            old(self)@.buy_stamp > 0,
            item_sane((o.price@, (u64::MAX - o.id) as u64, old(self)@.buy_stamp, o.unfilled_amount@)),
        ensures
            old(self).widths().0 <= final(self).widths().0,
            final(self).widths().1 == old(self).widths().1,
            final(self).prices() == old(self).prices(),
            ({
                let e = (o.price@, (u64::MAX - o.id) as u64, old(self)@.buy_stamp, o.unfilled_amount@);
                final(self)@ == (ExchangeView {
                    buys: old(self)@.buys.insert(insertion_point(old(self)@.buys, e) as int, e),
                    buy_stamp: (old(self)@.buy_stamp - 1) as u64,
                    ..old(self)@
                })
            }),
    {
        proof {
            use_type_invariant(&*self);
            lemma_reinsert(self@.buys, self@.buy_stamp, (o.price@, (u64::MAX - o.id) as u64, self@.buy_stamp, o.unfilled_amount@));
        }
        self.buyer.insert(o.price, u64::MAX - o.id, o.unfilled_amount);
    }

    /// Takes the best offer out if the order trades with it.
    fn lookup_seller(&mut self, o: &OrderRec) -> (r: Option<Resting>)
        ensures
            final(self).buyer.width() == old(self).buyer.width(),
            final(self).seller.width() == old(self).seller.width(),
            final(self).prices() == old(self).prices(),
            seller_matches(o@, old(self)@.sells) ==> r is Some && r.unwrap()@ == old(self)@.sells[0]
                && final(self)@ == (ExchangeView { sells: old(self)@.sells.drop_first(), ..old(self)@ }),
            !seller_matches(o@, old(self)@.sells) ==> r is None && final(self)@ == old(self)@,
    {
        proof {
            use_type_invariant(&*self);
            lemma_side_drop(self@.sells, self@.sell_stamp);
        }
        match list_front(&self.seller.list) {
            Some(f) => {
                let c = compare(&f.price, &o.price);
                if c == Comparison::Less || c == Comparison::Equal || o.action.is_market() {
                    proof {
                        crate::decimal::lemma_dec_order(f.price@, o.price@, o.price@);
                    }
                    list_pop_front(&mut self.seller.list)
                } else {
                    proof {
                        crate::decimal::lemma_dec_order(f.price@, o.price@, o.price@);
                    }
                    None
                }
            },
            None => None,
        }
    }

    /// Puts a sell order on the sellers' side.
    fn add_seller(&mut self, o: OrderRec)
        requires
            old(self)@.sell_stamp > 0,
            item_sane((o.price@, o.id, old(self)@.sell_stamp, o.unfilled_amount@)),
        ensures
            old(self).widths().1 <= final(self).widths().1,
            final(self).widths().0 == old(self).widths().0,
            final(self).prices() == old(self).prices(),
            ({
                let e = (o.price@, o.id, old(self)@.sell_stamp, o.unfilled_amount@);
                final(self)@ == (ExchangeView {
                    sells: old(self)@.sells.insert(insertion_point(old(self)@.sells, e) as int, e),
                    sell_stamp: (old(self)@.sell_stamp - 1) as u64,
                    ..old(self)@
                })
            }),
    {
        proof {
            use_type_invariant(&*self);
            lemma_reinsert(self@.sells, self@.sell_stamp, (o.price@, o.id, self@.sell_stamp, o.unfilled_amount@));
        }
        self.seller.insert(o.price, o.id, o.unfilled_amount);
    }

    /// Matches an incoming order against the opposite side, best price first,
    /// then puts what is left of a limit order on its own side.  Returns a
    /// result for each resting order it traded with, in the order of the
    /// trades, followed by the result of the incoming order.
    #[verifier::rlimit(80)]
    #[verifier::spinoff_prover]
    pub fn process(&mut self, o: OrderRec) -> (r: Box<Vec<MatchResult>>)
        requires
            old(self)@.buy_stamp > 0,
            old(self)@.sell_stamp > 0,
            order_sane(o@),
            !divides_by_zero(old(self)@, o@),
            old(self).widths_fit(),
        ensures
            match_views(r@) == process_results(old(self)@, o@),
            final(self)@ == process_book(old(self)@, o@),
            exchange_wf(final(self)@),
            conserves(old(self)@, o@),
            final(self).prices() == old(self).prices(),
            old(self).widths().0 <= final(self).widths().0,
            old(self).widths().1 <= final(self).widths().1,
            final(self)@.buy_stamp == old(self)@.buy_stamp ==> final(self).widths().0 == old(self).widths().0,
            final(self)@.sell_stamp == old(self)@.sell_stamp ==> final(self).widths().1 == old(self).widths().1,
            o@.action is BuyMarket && dec_lt(dec_zero(), o@.unfilled) && amounts_positive(old(self)@.buys)
                && amounts_positive(old(self)@.sells) && exact_fill(o@, old(self)@.sells, o@.unfilled, o@.unfilled)
                ==> amounts_positive(final(self)@.buys) && amounts_positive(final(self)@.sells),
            !(o@.action is BuyMarket) && dec_lt(dec_zero(), o@.unfilled) && amounts_positive(old(self)@.buys)
                && amounts_positive(old(self)@.sells) ==> amounts_positive(final(self)@.buys)
                && amounts_positive(final(self)@.sells),
    {
        proof {
            use_type_invariant(&*self);
        }
        let ghost ex0 = self@;
        let ghost prices0 = self.prices();
        let ghost widths0 = self.widths();
        let ghost pos = !(o@.action is BuyMarket) && dec_lt(dec_zero(), o@.unfilled) && amounts_positive(self@.buys)
            && amounts_positive(self@.sells);
        let ghost posm = o@.action is BuyMarket && dec_lt(dec_zero(), o@.unfilled) && amounts_positive(self@.buys)
            && amounts_positive(self@.sells) && exact_fill(o@, self@.sells, o@.unfilled, o@.unfilled);
        let ghost o0 = o@;
        let ghost run0 = run_of(ex0, o0);
        let mut ret: Vec<MatchResult> = Vec::new();
        let id = o.id;
        let action = o.action;
        let price = o.price.duplicate();
        let mut unfilled = o.unfilled_amount.duplicate();
        let mut mo = o;
        let selling = action.is_selling();
        let buy_market = action == OrderAction::BuyMarket;
        proof {
            assert(match_views(ret@) =~= run0.results.take(0));
        }
        loop
            invariant_except_break
                self.widths() == widths0,
                pos ==> !buy_market && amounts_positive(opposite(self@, o0).0) && dec_lt(dec_zero(), unfilled@),
                pos ==> amounts_positive(ex0.buys) && amounts_positive(ex0.sells),
                posm ==> buy_market && amounts_positive(opposite(self@, o0).0) && dec_lt(dec_zero(), unfilled@)
                    && exact_fill(o0, opposite(self@, o0).0, unfilled@, mo.unfilled_amount@),
                posm ==> amounts_positive(ex0.buys) && amounts_positive(ex0.sells),
                self.prices() == prices0,
                mo.id == o0.id,
                mo.action == o0.action,
                mo.price@ == o0.price,
                selling == o0.action.sells(),
                buy_market == (o0.action is BuyMarket),
                exchange_wf(ex0),
                order_sane(o0),
                !divides_by_zero(ex0, o0),
                opposite(ex0, o0).1 > 0,
                ret@.len() <= run0.results.len(),
                match_views(ret@) == run0.results.take(ret@.len() as int),
                match_run(o0, opposite(self@, o0).0, opposite(self@, o0).1, unfilled@, mo.unfilled_amount@).results
                    == run0.results.skip(ret@.len() as int),
                match_run(o0, opposite(self@, o0).0, opposite(self@, o0).1, unfilled@, mo.unfilled_amount@).opp == run0.opp,
                match_run(o0, opposite(self@, o0).0, opposite(self@, o0).1, unfilled@, mo.unfilled_amount@).stamp == run0.stamp,
                match_run(o0, opposite(self@, o0).0, opposite(self@, o0).1, unfilled@, mo.unfilled_amount@).unfilled == run0.unfilled,
                match_run(o0, opposite(self@, o0).0, opposite(self@, o0).1, unfilled@, mo.unfilled_amount@).record_unfilled
                    == run0.record_unfilled,
                opposite(self@, o0).1 == opposite(ex0, o0).1,
                side_wf(opposite(self@, o0).0, opposite(self@, o0).1),
                selling ==> self@.sells == ex0.sells && self@.sell_stamp == ex0.sell_stamp,
                !selling ==> self@.buys == ex0.buys && self@.buy_stamp == ex0.buy_stamp,
                self.widths_fit(),
                !buy_market ==> scale_within(unfilled@, sane_limit()),
                !buy_market ==> scale_within(mo.unfilled_amount@, sane_limit()),
                buy_market ==> -low_limit() <= unfilled@.1 <= 2 * sane_limit(),
                buy_market ==> -low_limit() <= mo.unfilled_amount@.1 <= 2 * sane_limit(),
                ret@.len() > 0 ==> dec_lt(dec_zero(), unfilled@),
                ret@.len() == 0 ==> unfilled@ == o0.unfilled && mo.unfilled_amount@ == o0.unfilled && self@ == ex0,
                unfilled@ == mo.unfilled_amount@,
                !buy_market ==> side_total(opposite(ex0, o0).0) - side_total(opposite(self@, o0).0)
                    == scaled(o0.unfilled, sane_limit()) - scaled(unfilled@, sane_limit()),
                buy_market ==> side_worth(opposite(ex0, o0).0) - side_worth(opposite(self@, o0).0)
                    == scaled(o0.unfilled, 2 * sane_limit()) - scaled(unfilled@, 2 * sane_limit()),
            ensures
                widths0.0 <= self.widths().0,
                widths0.1 <= self.widths().1,
                self@.buy_stamp == ex0.buy_stamp ==> self.widths().0 == widths0.0,
                self@.sell_stamp == ex0.sell_stamp ==> self.widths().1 == widths0.1,
                pos ==> !buy_market && amounts_positive(opposite(self@, o0).0) && amounts_positive(ex0.buys)
                    && amounts_positive(ex0.sells),
                posm ==> buy_market && amounts_positive(opposite(self@, o0).0) && amounts_positive(ex0.buys)
                    && amounts_positive(ex0.sells),
                pos && !dec_eq(unfilled@, dec_zero()) ==> dec_lt(dec_zero(), unfilled@)
                    && mo.unfilled_amount@ == unfilled@,
                self.prices() == prices0,
                !buy_market ==> side_total(opposite(ex0, o0).0) - side_total(opposite(self@, o0).0)
                    == scaled(o0.unfilled, sane_limit()) - scaled(unfilled@, sane_limit()),
                buy_market ==> side_worth(opposite(ex0, o0).0) - side_worth(opposite(self@, o0).0)
                    == scaled(o0.unfilled, 2 * sane_limit()) - scaled(unfilled@, 2 * sane_limit()),
                mo.id == o0.id,
                mo.action == o0.action,
                mo.price@ == o0.price,
                match_views(ret@) == run0.results,
                opposite(self@, o0) == (run0.opp, run0.stamp),
                unfilled@ == run0.unfilled,
                mo.unfilled_amount@ == run0.record_unfilled,
                side_wf(opposite(self@, o0).0, opposite(self@, o0).1),
                selling ==> self@.sells == ex0.sells && self@.sell_stamp == ex0.sell_stamp,
                !selling ==> self@.buys == ex0.buys && self@.buy_stamp == ex0.buy_stamp,
                !buy_market ==> scale_within(mo.unfilled_amount@, sane_limit()),
            decreases opposite(self@, o0).0.len(),
        {
            let ghost before = self@;
            let ghost opp = opposite(before, o0).0;
            let ghost stamp = opposite(before, o0).1;
            let ghost up = unfilled@;
            let ghost rec = mo.unfilled_amount@;
            let ghost cur = match_run(o0, opp, stamp, up, rec);
            proof {
                use_type_invariant(&*self);
            }
            let ghost w: nat = if selling { self.buyer.width() } else { self.seller.width() };
            assert(amounts_within(opp, w));
            let m = if selling {
                self.lookup_buyer(&mo)
            } else {
                self.lookup_seller(&mo)
            };
            let m = match m {
                Some(m) => m,
                None => {
                    proof {
                        assert(!crosses(o0, opp));
                        assert(cur.results =~= Seq::<MatchView>::empty());
                        assert(run0.results.skip(ret@.len() as int).len() == 0);
                        assert(ret@.len() == run0.results.len());
                        assert(run0.results =~= run0.results.take(ret@.len() as int));
                    }
                    break;
                },
            };
            proof {
                assert(crosses(o0, opp));
                lemma_remove_best(o0, opp, stamp);
                lemma_total_steps(o0, opp, 0, m@);
                let k = if selling { opp.len() - 1 } else { 0 };
                assert(m@ == opp[k]);
                lemma_worth_fits(m@, w);
                if pos || posm {
                    let rest = opposite(self@, o0).0;
                    assert forall|i: int| 0 <= i < rest.len() implies dec_lt(dec_zero(), (#[trigger] rest[i]).3) by {
                        if selling {
                            assert(rest[i] == opp[i]);
                        } else {
                            assert(rest[i] == opp[i + 1]);
                        }
                    }
                    assert(dec_lt(dec_zero(), m@.3));
                }
            }
            let avail = if buy_market {
                multiply(&m.unfilled, &m.price)
            } else {
                m.unfilled.duplicate()
            };
            let prev = unfilled;
            unfilled = subtract(&prev, &avail);
            let zero = BigDec::zero();
            let c = compare(&unfilled, &zero);
            if c == Comparison::Greater {
                mo.unfilled_amount = subtract(&mo.unfilled_amount, &avail);
                let res = make_result(&m, selling, OrderState::Filled, &m.unfilled);
                proof {
                    lemma_conserve_step(buy_market, up, m@, avail@, unfilled@);
                }
                let ghost done = match_views(ret@);
                ret.push(res);
                proof {
                    lemma_views_push(ret@.drop_last(), res);
                    assert(ret@.drop_last() =~= old_ret_of(ret@));
                    let next = match_run(o0, opposite(self@, o0).0, stamp, unfilled@, mo.unfilled_amount@);
                    assert(cur.results == seq![res@] + next.results);
                    lemma_results_step(run0.results, done, res@, next.results);
                }
            } else if c == Comparison::Less {
                let ghost u_neg = unfilled@;
                proof {
                    if buy_market {
                        lemma_nonzero_divisor(ex0, o0, before, ret@.len(), up, m@, avail@, unfilled@);
                    }
                }
                let filled = if buy_market {
                    let q = divide(&mo.unfilled_amount, &m.price);
                    let f = floor_with_prec(&q, 18);
                    proof {
                        if quick_one(m.price@) {
                            let big: nat = low_limit() as nat;
                            if ret@.len() == 0 {
                                crate::decimal::lemma_value_below_of_mantissa(rec, sane_limit() as nat, sane_limit() as nat);
                                crate::decimal::lemma_value_below_mono(rec, (2 * sane_limit()) as nat, big);
                            } else {
                                lemma_negative_difference(up, avail@, unfilled@);
                                lemma_times_one(m.unfilled@, m.price@, avail@);
                                crate::decimal::lemma_dec_order(up, avail@, m.unfilled@);
                                crate::decimal::lemma_dec_order(up, m.unfilled@, m.unfilled@);
                                crate::decimal::lemma_value_below_of_mantissa(m.unfilled@, w, sane_limit() as nat);
                                crate::decimal::lemma_value_below_le(up, m.unfilled@, w + sane_limit() as nat);
                                crate::decimal::lemma_value_below_mono(up, w + sane_limit() as nat, big);
                            }
                            assert(q@ == rec);
                            assert(value_below(q@, big));
                            lemma_pow10_sum(big + 18, 100, norm_digits());
                        }
                        if posm {
                            let m3 = m.unfilled@;
                            let pr = m.price@;
                            assert(exact_fill(o0, opp, up, rec));
                            let qx = choose|qx: (int, int)| #[trigger] short_quotient(rec, pr, qx) && -pow10(100) < shifted_trunc(qx, 18) < pow10(100);
                            assert(short_quotient(rec, pr, qx));
                            assert(dec_eq(q@, qx));
                            lemma_negative_difference(up, avail@, u_neg);
                            lemma_quotient_below(rec, pr, m3, avail@, qx);
                            self::laws::lemma_shifted_trunc_value(q@, qx, 18);
                            crate::decimal::lemma_dec_order(dec_zero(), qx, q@);
                            crate::decimal::lemma_dec_order(q@, qx, m3);
                            self::laws::lemma_floored_le(q@, 18);
                            crate::decimal::lemma_dec_order(f@, self::records::floored(q@, 18), q@);
                            crate::decimal::lemma_dec_order(f@, q@, m3);
                            assert(dec_lt(f@, m3));
                        }
                    }
                    f
                } else {
                    mo.unfilled_amount.duplicate()
                };
                proof {
                    if buy_market {
                        lemma_pay_fits(filled@, m.price@);
                    }
                }
                let left = subtract(&m.unfilled, &filled);
                let pay = if buy_market {
                    multiply(&filled, &m.price)
                } else {
                    BigDec::zero()
                };
                unfilled = if buy_market {
                    subtract_from_ref(&mo.unfilled_amount, pay)
                } else {
                    BigDec::zero()
                };
                let res = make_result(&m, selling, OrderState::PartialFilled, &filled);
                proof {
                    lemma_reinsert(opposite(self@, o0).0, stamp, (m.price@, m.key, stamp, left@));
                    let rest = opposite(self@, o0).0;
                    let x = (m.price@, m.key, stamp, left@);
                    crate::book::lemma_insertion_point(rest, x);
                    lemma_total_steps(o0, rest, insertion_point(rest, x) as int, x);
                    lemma_conserve_partial(buy_market, up, m@, filled@, left@, pay@, unfilled@);
                    use_type_invariant(&*self);
                    if pos || posm {
                        if pos {
                            lemma_negative_difference(up, m.unfilled@, u_neg);
                        }
                        lemma_positive_difference(m.unfilled@, filled@, left@);
                        let p = insertion_point(rest, x) as int;
                        let ins = rest.insert(p, x);
                        assert forall|i: int| 0 <= i < ins.len() implies dec_lt(dec_zero(), (#[trigger] ins[i]).3) by {
                            if i < p {
                                assert(ins[i] == rest[i]);
                            } else if i > p {
                                assert(ins[i] == rest[i - 1]);
                            }
                        }
                    }
                }
                if selling {
                    self.buyer.insert(m.price, m.key, left);
                } else {
                    self.seller.insert(m.price, m.key, left);
                }
                let ghost done = match_views(ret@);
                ret.push(res);
                proof {
                    lemma_views_push(ret@.drop_last(), res);
                    assert(ret@.drop_last() =~= old_ret_of(ret@));
                    assert(cur.results == seq![res@] + Seq::<MatchView>::empty());
                    lemma_results_step(run0.results, done, res@, Seq::empty());
                }
                break;
            } else {
                let res = make_result(&m, selling, OrderState::Filled, &m.unfilled);
                proof {
                    lemma_conserve_step(buy_market, up, m@, avail@, unfilled@);
                }
                let ghost done = match_views(ret@);
                ret.push(res);
                proof {
                    lemma_views_push(ret@.drop_last(), res);
                    assert(ret@.drop_last() =~= old_ret_of(ret@));
                    assert(cur.results == seq![res@] + Seq::<MatchView>::empty());
                    lemma_results_step(run0.results, done, res@, Seq::empty());
                }
                break;
            }
        }
        let limited = mo.action.is_limited();
        let fully_filled = compare(&unfilled, &BigDec::zero()) == Comparison::Equal;
        let nothing_matched = ret.len() == 0;
        let state = match (limited, fully_filled, nothing_matched) {
            (_, true, _) => OrderState::Filled,
            (true, false, false) => OrderState::PartialFilled,
            (true, false, true) => OrderState::Submitted,
            (false, false, false) => OrderState::PartialCanceled,
            (false, false, true) => OrderState::Canceled,
        };
        proof {
            assert(ret@.len() == match_views(ret@).len());
        }
        if limited && !fully_filled {
            proof {
                assert(!buy_market);
                if selling {
                    lemma_reinsert(self@.sells, self@.sell_stamp, (mo.price@, rest_key(mo.action, mo.id), self@.sell_stamp, mo.unfilled_amount@));
                } else {
                    lemma_reinsert(self@.buys, self@.buy_stamp, (mo.price@, rest_key(mo.action, mo.id), self@.buy_stamp, mo.unfilled_amount@));
                }
            }
            let ghost own_before = if selling { self@.sells } else { self@.buys };
            let ghost e = (mo.price@, rest_key(mo.action, mo.id), if selling { self@.sell_stamp } else { self@.buy_stamp }, mo.unfilled_amount@);
            self.add_order(mo);
            proof {
                if pos {
                    let p = insertion_point(own_before, e) as int;
                    crate::book::lemma_insertion_point(own_before, e);
                    let ins = own_before.insert(p, e);
                    assert forall|i: int| 0 <= i < ins.len() implies dec_lt(dec_zero(), (#[trigger] ins[i]).3) by {
                        if i < p {
                            assert(ins[i] == own_before[i]);
                        } else if i > p {
                            assert(ins[i] == own_before[i - 1]);
                        }
                    }
                }
            }
        }
        let res = MatchResult {
            id,
            role: MatchResultRole::Taker,
            action,
            price,
            state,
            amount: unfilled,
        };
        let ghost before_push = ret@;
        ret.push(res);
        proof {
            lemma_views_push(before_push, res);
            assert(ret@ == before_push.push(res));
        }
        Box::new(ret)
    }

    /// Puts an order on its own side.
    fn add_order(&mut self, o: OrderRec)
        requires
            o.action.sells() ==> old(self)@.sell_stamp > 0,
            !o.action.sells() ==> old(self)@.buy_stamp > 0,
            item_sane((o.price@, rest_key(o.action, o.id), if o.action.sells() { old(self)@.sell_stamp } else { old(self)@.buy_stamp }, o.unfilled_amount@)),
        ensures
            old(self).widths().0 <= final(self).widths().0,
            old(self).widths().1 <= final(self).widths().1,
            o.action.sells() ==> final(self).widths().0 == old(self).widths().0,
            !o.action.sells() ==> final(self).widths().1 == old(self).widths().1,
            final(self).prices() == old(self).prices(),
            ({
                let e = (o.price@, rest_key(o.action, o.id), if o.action.sells() { old(self)@.sell_stamp } else { old(self)@.buy_stamp }, o.unfilled_amount@);
                final(self)@ == if o.action.sells() {
                    ExchangeView {
                        sells: old(self)@.sells.insert(insertion_point(old(self)@.sells, e) as int, e),
                        sell_stamp: (old(self)@.sell_stamp - 1) as u64,
                        ..old(self)@
                    }
                } else {
                    ExchangeView {
                        buys: old(self)@.buys.insert(insertion_point(old(self)@.buys, e) as int, e),
                        buy_stamp: (old(self)@.buy_stamp - 1) as u64,
                        ..old(self)@
                    }
                }
            }),
    {
        if o.action.is_selling() {
            self.add_seller(o)
        } else {
            self.add_buyer(o)
        }
    }
}

} // verus!
