//! What matching guarantees, proved of the matching run and of `process`.

use vstd::prelude::*;
use crate::book::{insertion_point, item_lt, items_sorted, lemma_insertion_point};
use crate::decimal::{dec_den, dec_eq, dec_le, dec_lt, dec_num, dec_zero, lemma_dec_order, pow10, scaled, truncated};
use super::records::{
    MatchResultRole, MatchView, OrderAction, OrderState, OrderView, action_parse, floored, id_parse, match_parse,
    line_parts, order_parse, priority, quoted_decimal, record_fields, role_parse, shifted_trunc, state_parse,
};
use crate::text::{free_of, join};
use super::records::floor_spec;
use crate::decimal::Comparison;
use super::records::OrderAction::BuyMarket;
use super::{
    ExchangeView, ItemView, best, crosses, exchange_wf, match_run, process_book,
    process_results, rest_key, run_of, sane_limit, side_wf, without_best,
};

verus! {

/// Every bid is priced below every offer.
pub open spec fn no_crossing(ex: ExchangeView) -> bool {
    forall|i: int, j: int|
        0 <= i < ex.buys.len() && 0 <= j < ex.sells.len() ==> dec_lt(#[trigger] ex.buys[i].0, #[trigger] ex.sells[j].0)
}

/// Some item of `s` has price `p`.
pub open spec fn has_price(s: Seq<ItemView>, p: (int, int)) -> bool {
    exists|j: int| 0 <= j < s.len() && s[j].0 == p
}

/// Every price in `t` is a price of `s`.
pub open spec fn prices_within(t: Seq<ItemView>, s: Seq<ItemView>) -> bool {
    forall|i: int| 0 <= i < t.len() ==> has_price(s, #[trigger] t[i].0)
}

/// In a sorted side, a price is at least the first and at most the last.
proof fn lemma_sorted_bounds(s: Seq<ItemView>, i: int)
    requires
        items_sorted(s),
        0 <= i < s.len(),
    ensures
        dec_le(s[0].0, s[i].0),
        dec_le(s[i].0, s.last().0),
{
    lemma_dec_order(s[0].0, s[i].0, s[i].0);
    lemma_dec_order(s[i].0, s.last().0, s.last().0);
    if i > 0 {
        assert(!item_lt(s[i], s[0]));
    }
    if i < s.len() - 1 {
        assert(!item_lt(s.last(), s[i]));
    }
}

/// The side without its best item is sorted, and its prices are prices of the side.
proof fn lemma_without_best(o: OrderView, opp: Seq<ItemView>)
    requires
        items_sorted(opp),
        opp.len() > 0,
    ensures
        items_sorted(without_best(o, opp)),
        prices_within(without_best(o, opp), opp),
        forall|i: int| 0 <= i < without_best(o, opp).len() ==>
            (o.action.sells() ==> dec_le(#[trigger] without_best(o, opp)[i].0, best(o, opp).0))
            && (!o.action.sells() ==> dec_le(best(o, opp).0, without_best(o, opp)[i].0)),
{
    let rest = without_best(o, opp);
    if o.action.sells() {
        assert forall|i: int| 0 <= i < rest.len() implies rest[i] == opp[i] by {}
        assert forall|i: int| 0 <= i < rest.len() implies
            dec_le(#[trigger] rest[i].0, best(o, opp).0) by {
            lemma_sorted_bounds(opp, i);
        }
        assert(prices_within(rest, opp)) by {
            assert forall|i: int| 0 <= i < rest.len() implies has_price(opp, #[trigger] rest[i].0) by {
                assert(rest[i].0 == opp[i].0);
            }
        }
    } else {
        assert forall|i: int| 0 <= i < rest.len() implies rest[i] == opp[i + 1] by {}
        assert forall|i: int| 0 <= i < rest.len() implies
            dec_le(best(o, opp).0, #[trigger] rest[i].0) by {
            lemma_sorted_bounds(opp, i + 1);
        }
        assert(prices_within(rest, opp)) by {
            assert forall|i: int| 0 <= i < rest.len() implies has_price(opp, #[trigger] rest[i].0) by {
                assert(rest[i].0 == opp[i + 1].0);
            }
        }
    }
}

/// The results of a step that fills the best item completely and goes on.
pub open spec fn goes_on(o: OrderView, opp: Seq<ItemView>, up: (int, int)) -> bool {
    let m = best(o, opp);
    let avail = if o.action is BuyMarket { crate::decimal::ref_product(m.3, m.0) } else { m.3 };
    dec_lt(dec_zero(), crate::decimal::difference(up, avail))
}

/// The record's amount after a step that goes on.
pub open spec fn next_record(o: OrderView, opp: Seq<ItemView>, rec: (int, int)) -> (int, int) {
    let m = best(o, opp);
    let avail = if o.action is BuyMarket { crate::decimal::ref_product(m.3, m.0) } else { m.3 };
    crate::decimal::difference(rec, avail)
}

/// The loop's amount after a step that goes on.
pub open spec fn next_unfilled(o: OrderView, opp: Seq<ItemView>, up: (int, int)) -> (int, int) {
    let m = best(o, opp);
    let avail = if o.action is BuyMarket { crate::decimal::ref_product(m.3, m.0) } else { m.3 };
    crate::decimal::difference(up, avail)
}

/// A step that goes on reports the best item first, then the rest of the run.
proof fn lemma_step_on(o: OrderView, opp: Seq<ItemView>, stamp: u64, up: (int, int), rec: (int, int))
    requires
        crosses(o, opp),
        goes_on(o, opp, up),
    ensures
        ({
            let r = match_run(o, opp, stamp, up, rec);
            let next = match_run(o, without_best(o, opp), stamp, next_unfilled(o, opp, up), next_record(o, opp, rec));
            &&& r.results.len() == next.results.len() + 1
            &&& r.results[0].price == best(o, opp).0
            &&& r.results[0].role == MatchResultRole::Maker
            &&& r.results[0].state == OrderState::Filled
            &&& forall|k: int| 0 < k < r.results.len() ==> #[trigger] r.results[k] == next.results[k - 1]
            &&& r.opp == next.opp
            &&& r.unfilled == next.unfilled
        }),
{
    let r = match_run(o, opp, stamp, up, rec);
    let next = match_run(o, without_best(o, opp), stamp, next_unfilled(o, opp, up), next_record(o, opp, rec));
    assert(r.results == seq![r.results[0]] + next.results);
}

/// A step that stops reports the best item alone.
proof fn lemma_step_stop(o: OrderView, opp: Seq<ItemView>, stamp: u64, up: (int, int), rec: (int, int))
    requires
        crosses(o, opp),
        !goes_on(o, opp, up),
    ensures
        ({
            let r = match_run(o, opp, stamp, up, rec);
            &&& r.results.len() == 1
            &&& r.results[0].price == best(o, opp).0
            &&& r.results[0].role == MatchResultRole::Maker
            &&& (r.results[0].state == OrderState::Filled || r.results[0].state == OrderState::PartialFilled)
            &&& o.action.limited() ==> dec_eq(r.unfilled, dec_zero())
        }),
{
    let r = match_run(o, opp, stamp, up, rec);
    let u = next_unfilled(o, opp, up);
    lemma_dec_order(u, dec_zero(), dec_zero());
    lemma_dec_order(dec_zero(), dec_zero(), dec_zero());
}

/// The prices left on the opposite side, and the prices of the makers, are
/// prices that the side had.
pub proof fn lemma_run_prices(o: OrderView, opp: Seq<ItemView>, stamp: u64, up: (int, int), rec: (int, int))
    requires
        items_sorted(opp),
    ensures
        prices_within(match_run(o, opp, stamp, up, rec).opp, opp),
        forall|k: int| 0 <= k < match_run(o, opp, stamp, up, rec).results.len() ==>
            has_price(opp, (#[trigger] match_run(o, opp, stamp, up, rec).results[k]).price),
    decreases opp.len(),
{
    let r = match_run(o, opp, stamp, up, rec);
    if !crosses(o, opp) {
        assert forall|i: int| 0 <= i < r.opp.len() implies has_price(opp, #[trigger] r.opp[i].0) by {
            assert(opp[i].0 == r.opp[i].0);
        }
        return;
    }
    let m = best(o, opp);
    let rest = without_best(o, opp);
    lemma_without_best(o, opp);
    let k0 = if o.action.sells() { opp.len() - 1 } else { 0 };
    assert(opp[k0] == m);
    if goes_on(o, opp, up) {
        let next = match_run(o, rest, stamp, next_unfilled(o, opp, up), next_record(o, opp, rec));
        lemma_step_on(o, opp, stamp, up, rec);
        lemma_run_prices(o, rest, stamp, next_unfilled(o, opp, up), next_record(o, opp, rec));
        assert forall|i: int| 0 <= i < r.opp.len() implies has_price(opp, #[trigger] r.opp[i].0) by {
            assert(has_price(rest, next.opp[i].0));
            let j1 = choose|j1: int| 0 <= j1 < rest.len() && rest[j1].0 == next.opp[i].0;
            assert(has_price(opp, rest[j1].0));
        }
        assert forall|k: int| 0 <= k < r.results.len() implies has_price(opp, (#[trigger] r.results[k]).price) by {
            if k > 0 {
                assert(has_price(rest, next.results[k - 1].price));
                let j1 = choose|j1: int| 0 <= j1 < rest.len() && rest[j1].0 == next.results[k - 1].price;
                assert(has_price(opp, rest[j1].0));
            } else {
                assert(opp[k0].0 == r.results[0].price);
            }
        }
    } else {
        lemma_step_stop(o, opp, stamp, up, rec);
        assert(opp[k0].0 == r.results[0].price);
        let u = next_unfilled(o, opp, up);
        if dec_lt(u, dec_zero()) {
            let buy_market = o.action is BuyMarket;
            let filled = if buy_market {
                super::records::floor_spec(crate::decimal::quotient(rec, m.0), 18)
            } else {
                rec
            };
            let back = (m.0, m.1, stamp, crate::decimal::difference(m.3, filled));
            lemma_insertion_point(rest, back);
            let p = insertion_point(rest, back) as int;
            assert(r.opp == rest.insert(p, back));
            assert forall|i: int| 0 <= i < r.opp.len() implies has_price(opp, #[trigger] r.opp[i].0) by {
                if i < p {
                    assert(r.opp[i] == rest[i]);
                    assert(has_price(opp, rest[i].0));
                } else if i == p {
                    assert(opp[k0].0 == r.opp[i].0);
                } else {
                    assert(r.opp[i] == rest[i - 1]);
                    assert(has_price(opp, rest[i - 1].0));
                }
            }
        } else {
            assert(r.opp == rest);
        }
    }
}

/// A limit order that the run leaves with a nonzero amount no longer crosses.
pub proof fn lemma_run_rest(o: OrderView, opp: Seq<ItemView>, stamp: u64, up: (int, int), rec: (int, int))
    requires
        items_sorted(opp),
    ensures
        o.action.limited() && !dec_eq(match_run(o, opp, stamp, up, rec).unfilled, dec_zero())
            ==> !crosses(o, match_run(o, opp, stamp, up, rec).opp),
    decreases opp.len(),
{
    if crosses(o, opp) {
        lemma_without_best(o, opp);
        if goes_on(o, opp, up) {
            lemma_step_on(o, opp, stamp, up, rec);
            lemma_run_rest(o, without_best(o, opp), stamp, next_unfilled(o, opp, up), next_record(o, opp, rec));
        } else {
            lemma_step_stop(o, opp, stamp, up, rec);
        }
    }
}

/// Every result of a run reports a maker, and every maker but the last is filled.
pub proof fn lemma_run_shape(o: OrderView, opp: Seq<ItemView>, stamp: u64, up: (int, int), rec: (int, int))
    requires
        items_sorted(opp),
    ensures
        forall|k: int| 0 <= k < match_run(o, opp, stamp, up, rec).results.len() ==>
            (#[trigger] match_run(o, opp, stamp, up, rec).results[k]).role == MatchResultRole::Maker,
        forall|k: int| 0 <= k < match_run(o, opp, stamp, up, rec).results.len() ==>
            (#[trigger] match_run(o, opp, stamp, up, rec).results[k]).state == OrderState::Filled
            || (k == match_run(o, opp, stamp, up, rec).results.len() - 1
                && match_run(o, opp, stamp, up, rec).results[k].state == OrderState::PartialFilled),
    decreases opp.len(),
{
    let r = match_run(o, opp, stamp, up, rec);
    if crosses(o, opp) {
        lemma_without_best(o, opp);
        if goes_on(o, opp, up) {
            lemma_step_on(o, opp, stamp, up, rec);
            lemma_run_shape(o, without_best(o, opp), stamp, next_unfilled(o, opp, up), next_record(o, opp, rec));
        } else {
            lemma_step_stop(o, opp, stamp, up, rec);
        }
    }
}

/// A limit order trades only with makers at its price or better.
pub proof fn lemma_run_limit(o: OrderView, opp: Seq<ItemView>, stamp: u64, up: (int, int), rec: (int, int))
    requires
        items_sorted(opp),
        o.action.limited(),
    ensures
        forall|k: int| 0 <= k < match_run(o, opp, stamp, up, rec).results.len() ==>
            (o.action.sells() ==> dec_le(o.price, (#[trigger] match_run(o, opp, stamp, up, rec).results[k]).price))
            && (!o.action.sells() ==> dec_le(match_run(o, opp, stamp, up, rec).results[k].price, o.price)),
    decreases opp.len(),
{
    let r = match_run(o, opp, stamp, up, rec);
    if crosses(o, opp) {
        lemma_without_best(o, opp);
        if goes_on(o, opp, up) {
            lemma_step_on(o, opp, stamp, up, rec);
            lemma_run_limit(o, without_best(o, opp), stamp, next_unfilled(o, opp, up), next_record(o, opp, rec));
        } else {
            lemma_step_stop(o, opp, stamp, up, rec);
        }
    }
}

/// The makers of a run are reported best price first: rising prices for a
/// buy, falling prices for a sell.
pub proof fn lemma_run_order(o: OrderView, opp: Seq<ItemView>, stamp: u64, up: (int, int), rec: (int, int))
    requires
        items_sorted(opp),
    ensures
        forall|k1: int, k2: int| 0 <= k1 < k2 < match_run(o, opp, stamp, up, rec).results.len() ==>
            (o.action.sells() ==> dec_le((#[trigger] match_run(o, opp, stamp, up, rec).results[k2]).price,
                (#[trigger] match_run(o, opp, stamp, up, rec).results[k1]).price))
            && (!o.action.sells() ==> dec_le(match_run(o, opp, stamp, up, rec).results[k1].price,
                match_run(o, opp, stamp, up, rec).results[k2].price)),
    decreases opp.len(),
{
    let r = match_run(o, opp, stamp, up, rec);
    if crosses(o, opp) && goes_on(o, opp, up) {
        let rest = without_best(o, opp);
        lemma_without_best(o, opp);
        let next = match_run(o, rest, stamp, next_unfilled(o, opp, up), next_record(o, opp, rec));
        lemma_step_on(o, opp, stamp, up, rec);
        lemma_run_order(o, rest, stamp, next_unfilled(o, opp, up), next_record(o, opp, rec));
        lemma_run_prices(o, rest, stamp, next_unfilled(o, opp, up), next_record(o, opp, rec));
        assert forall|k1: int, k2: int| 0 <= k1 < k2 < r.results.len() implies
            (o.action.sells() ==> dec_le((#[trigger] r.results[k2]).price, (#[trigger] r.results[k1]).price))
            && (!o.action.sells() ==> dec_le(r.results[k1].price, r.results[k2].price)) by {
            assert(r.results[k2] == next.results[k2 - 1]);
            if k1 > 0 {
                assert(r.results[k1] == next.results[k1 - 1]);
            } else {
                assert(has_price(rest, next.results[k2 - 1].price));
                let j1 = choose|j1: int| 0 <= j1 < rest.len() && rest[j1].0 == next.results[k2 - 1].price;
                assert(rest[j1].0 == r.results[k2].price);
            }
        }
    } else if crosses(o, opp) {
        lemma_step_stop(o, opp, stamp, up, rec);
    }
}


/// A run leaves the opposite side sorted.
pub proof fn lemma_run_sorted(o: OrderView, opp: Seq<ItemView>, stamp: u64, up: (int, int), rec: (int, int))
    requires
        items_sorted(opp),
    ensures
        items_sorted(match_run(o, opp, stamp, up, rec).opp),
    decreases opp.len(),
{
    if crosses(o, opp) {
        lemma_without_best(o, opp);
        let rest = without_best(o, opp);
        if goes_on(o, opp, up) {
            lemma_step_on(o, opp, stamp, up, rec);
            lemma_run_sorted(o, rest, stamp, next_unfilled(o, opp, up), next_record(o, opp, rec));
        } else if dec_lt(next_unfilled(o, opp, up), dec_zero()) {
            let m = best(o, opp);
            let filled = if o.action is BuyMarket {
                super::records::floor_spec(crate::decimal::quotient(rec, m.0), 18)
            } else {
                rec
            };
            crate::book::lemma_insert_sorted(rest, (m.0, m.1, stamp, crate::decimal::difference(m.3, filled)));
        }
    }
}

/// The items of a side after one is inserted.
proof fn lemma_insert_index(s: Seq<ItemView>, p: int, e: ItemView, j: int)
    requires
        0 <= p <= s.len(),
        0 <= j <= s.len(),
    ensures
        j < p ==> s.insert(p, e)[j] == s[j],
        j == p ==> s.insert(p, e)[j] == e,
        j > p ==> s.insert(p, e)[j] == s[j - 1],
{
}

/// The book never crosses: if every bid is priced below every offer before an
/// order is processed, the same holds afterwards.
pub proof fn law_book_never_crosses(ex: ExchangeView, o: OrderView)
    requires
        exchange_wf(ex),
        no_crossing(ex),
    ensures
        no_crossing(process_book(ex, o)),
{
    let run = run_of(ex, o);
    let after = process_book(ex, o);
    if o.action.sells() {
        lemma_run_prices(o, ex.buys, ex.buy_stamp, o.unfilled, o.unfilled);
        lemma_run_rest(o, ex.buys, ex.buy_stamp, o.unfilled, o.unfilled);
        lemma_run_sorted(o, ex.buys, ex.buy_stamp, o.unfilled, o.unfilled);
        let e = (o.price, super::rest_key(o.action, o.id), ex.sell_stamp, run.record_unfilled);
        let p = insertion_point(ex.sells, e) as int;
        lemma_insertion_point(ex.sells, e);
        assert forall|i: int, j: int| 0 <= i < after.buys.len() && 0 <= j < after.sells.len()
            implies dec_lt(#[trigger] after.buys[i].0, #[trigger] after.sells[j].0) by {
            assert(has_price(ex.buys, run.opp[i].0));
            let a = choose|a: int| 0 <= a < ex.buys.len() && ex.buys[a].0 == run.opp[i].0;
            if super::rests(ex, o) {
                lemma_insert_index(ex.sells, p, e, j);
                if j == p {
                    lemma_sorted_bounds(run.opp, i);
                    lemma_dec_order(o.price, run.opp.last().0, run.opp.last().0);
                    lemma_dec_order(run.opp[i].0, run.opp.last().0, o.price);
                } else if j < p {
                    assert(dec_lt(ex.buys[a].0, ex.sells[j].0));
                } else {
                    assert(dec_lt(ex.buys[a].0, ex.sells[j - 1].0));
                }
            } else {
                assert(dec_lt(ex.buys[a].0, ex.sells[j].0));
            }
        }
    } else {
        lemma_run_prices(o, ex.sells, ex.sell_stamp, o.unfilled, o.unfilled);
        lemma_run_rest(o, ex.sells, ex.sell_stamp, o.unfilled, o.unfilled);
        lemma_run_sorted(o, ex.sells, ex.sell_stamp, o.unfilled, o.unfilled);
        let e = (o.price, super::rest_key(o.action, o.id), ex.buy_stamp, run.record_unfilled);
        let p = insertion_point(ex.buys, e) as int;
        lemma_insertion_point(ex.buys, e);
        assert forall|i: int, j: int| 0 <= i < after.buys.len() && 0 <= j < after.sells.len()
            implies dec_lt(#[trigger] after.buys[i].0, #[trigger] after.sells[j].0) by {
            assert(has_price(ex.sells, run.opp[j].0));
            let b = choose|b: int| 0 <= b < ex.sells.len() && ex.sells[b].0 == run.opp[j].0;
            if super::rests(ex, o) {
                lemma_insert_index(ex.buys, p, e, i);
                if i == p {
                    lemma_sorted_bounds(run.opp, j);
                    lemma_dec_order(run.opp[0].0, o.price, o.price);
                    lemma_dec_order(o.price, run.opp[0].0, run.opp[j].0);
                } else if i < p {
                    assert(dec_lt(ex.buys[i].0, ex.sells[b].0));
                } else {
                    assert(dec_lt(ex.buys[i - 1].0, ex.sells[b].0));
                }
            } else {
                assert(dec_lt(ex.buys[i].0, ex.sells[b].0));
            }
        }
    }
}


/// The report of processing an order: one result per maker, every maker but
/// the last filled (the last one filled or partly filled), then the result of
/// the incoming order itself, with its id, action and price.
pub proof fn law_report_shape(ex: ExchangeView, o: OrderView)
    requires
        exchange_wf(ex),
    ensures
        ({
            let rs = process_results(ex, o);
            &&& rs.len() >= 1
            &&& rs.last().role == MatchResultRole::Taker
            &&& rs.last().id == o.id
            &&& rs.last().action == o.action
            &&& rs.last().price == o.price
            &&& forall|k: int| 0 <= k < rs.len() - 1 ==> (#[trigger] rs[k]).role == MatchResultRole::Maker
            &&& forall|k: int| 0 <= k < rs.len() - 1 ==> (#[trigger] rs[k]).state == OrderState::Filled
                || (k == rs.len() - 2 && rs[k].state == OrderState::PartialFilled)
        }),
{
    let opp = super::opposite(ex, o);
    lemma_run_shape(o, opp.0, opp.1, o.unfilled, o.unfilled);
    let rs = process_results(ex, o);
    let run = run_of(ex, o);
    assert forall|k: int| 0 <= k < rs.len() - 1 implies #[trigger] rs[k] == run.results[k] by {}
}

/// A limit order trades only at its price or better: a buy with offers priced
/// at most its price, a sell with bids priced at least its price.
pub proof fn law_limit_price_respected(ex: ExchangeView, o: OrderView)
    requires
        exchange_wf(ex),
        o.action.limited(),
    ensures
        forall|k: int| 0 <= k < process_results(ex, o).len() - 1 ==>
            (o.action.sells() ==> dec_le(o.price, (#[trigger] process_results(ex, o)[k]).price))
            && (!o.action.sells() ==> dec_le(process_results(ex, o)[k].price, o.price)),
{
    let opp = super::opposite(ex, o);
    lemma_run_limit(o, opp.0, opp.1, o.unfilled, o.unfilled);
    let rs = process_results(ex, o);
    let run = run_of(ex, o);
    assert forall|k: int| 0 <= k < rs.len() - 1 implies #[trigger] rs[k] == run.results[k] by {}
}

/// Best price first: the makers are reported in order of price, rising for an
/// incoming buy and falling for an incoming sell.
pub proof fn law_best_price_first(ex: ExchangeView, o: OrderView)
    requires
        exchange_wf(ex),
    ensures
        forall|k1: int, k2: int| 0 <= k1 < k2 < process_results(ex, o).len() - 1 ==>
            (o.action.sells() ==> dec_le((#[trigger] process_results(ex, o)[k2]).price,
                (#[trigger] process_results(ex, o)[k1]).price))
            && (!o.action.sells() ==> dec_le(process_results(ex, o)[k1].price, process_results(ex, o)[k2].price)),
{
    let opp = super::opposite(ex, o);
    lemma_run_order(o, opp.0, opp.1, o.unfilled, o.unfilled);
    let rs = process_results(ex, o);
    let run = run_of(ex, o);
    assert forall|k: int| 0 <= k < rs.len() - 1 implies #[trigger] rs[k] == run.results[k] by {}
}


/// Some item of `s` has price `p` and key `key`.
pub open spec fn has_entry(s: Seq<ItemView>, p: (int, int), key: u64) -> bool {
    exists|j: int| 0 <= j < s.len() && s[j].0 == p && s[j].1 == key
}

/// The key under which the maker of a result rested.
pub open spec fn maker_key(o: OrderView, r: MatchView) -> u64 {
    if o.action.sells() {
        (u64::MAX - r.id) as u64
    } else {
        r.id
    }
}

/// Every maker of a run rested on the opposite side with its price and key.
pub proof fn lemma_run_entries(o: OrderView, opp: Seq<ItemView>, stamp: u64, up: (int, int), rec: (int, int))
    ensures
        forall|k: int| 0 <= k < match_run(o, opp, stamp, up, rec).results.len() ==>
            has_entry(opp, (#[trigger] match_run(o, opp, stamp, up, rec).results[k]).price,
                maker_key(o, match_run(o, opp, stamp, up, rec).results[k])),
    decreases opp.len(),
{
    let r = match_run(o, opp, stamp, up, rec);
    if crosses(o, opp) {
        let m = best(o, opp);
        let rest = without_best(o, opp);
        let k0 = if o.action.sells() { opp.len() - 1 } else { 0 };
        assert(opp[k0] == m);
        assert(r.results[0].price == m.0 && maker_key(o, r.results[0]) == m.1);
        if goes_on(o, opp, up) {
            let next = match_run(o, rest, stamp, next_unfilled(o, opp, up), next_record(o, opp, rec));
            lemma_run_entries(o, rest, stamp, next_unfilled(o, opp, up), next_record(o, opp, rec));
            assert(r.results == seq![r.results[0]] + next.results);
            assert forall|k: int| 0 <= k < r.results.len() implies
                has_entry(opp, (#[trigger] r.results[k]).price, maker_key(o, r.results[k])) by {
                if k > 0 {
                    assert(r.results[k] == next.results[k - 1]);
                    let j1 = choose|j1: int| 0 <= j1 < rest.len() && rest[j1].0 == next.results[k - 1].price
                        && rest[j1].1 == maker_key(o, next.results[k - 1]);
                    let j = if o.action.sells() { j1 } else { j1 + 1 };
                    assert(opp[j] == rest[j1]);
                } else {
                    assert(opp[k0] == m);
                }
            }
        } else {
            assert(r.results.len() == 1);
        }
    }
}

/// The makers of a run at one price are reported smallest id first.
pub proof fn lemma_run_time_order(o: OrderView, opp: Seq<ItemView>, stamp: u64, up: (int, int), rec: (int, int))
    requires
        items_sorted(opp),
    ensures
        forall|k1: int, k2: int| 0 <= k1 < k2 < match_run(o, opp, stamp, up, rec).results.len()
            && dec_eq((#[trigger] match_run(o, opp, stamp, up, rec).results[k1]).price,
                (#[trigger] match_run(o, opp, stamp, up, rec).results[k2]).price)
            ==> match_run(o, opp, stamp, up, rec).results[k1].id <= match_run(o, opp, stamp, up, rec).results[k2].id,
    decreases opp.len(),
{
    let r = match_run(o, opp, stamp, up, rec);
    if crosses(o, opp) && goes_on(o, opp, up) {
        let m = best(o, opp);
        let rest = without_best(o, opp);
        lemma_without_best(o, opp);
        let next = match_run(o, rest, stamp, next_unfilled(o, opp, up), next_record(o, opp, rec));
        lemma_step_on(o, opp, stamp, up, rec);
        lemma_run_time_order(o, rest, stamp, next_unfilled(o, opp, up), next_record(o, opp, rec));
        lemma_run_entries(o, rest, stamp, next_unfilled(o, opp, up), next_record(o, opp, rec));
        assert(r.results == seq![r.results[0]] + next.results);
        assert(r.results[0].price == m.0 && maker_key(o, r.results[0]) == m.1);
        assert forall|k1: int, k2: int| 0 <= k1 < k2 < r.results.len()
            && dec_eq((#[trigger] r.results[k1]).price, (#[trigger] r.results[k2]).price)
            implies r.results[k1].id <= r.results[k2].id by {
            assert(r.results[k2] == next.results[k2 - 1]);
            if k1 > 0 {
                assert(r.results[k1] == next.results[k1 - 1]);
            } else {
                let n = next.results[k2 - 1];
                assert(has_entry(rest, n.price, maker_key(o, n)));
                let j1 = choose|j1: int| 0 <= j1 < rest.len() && rest[j1].0 == n.price
                    && rest[j1].1 == maker_key(o, n);
                if o.action.sells() {
                    let j = j1;
                    assert(opp[j] == rest[j1]);
                    assert(j < opp.len() - 1);
                    assert(!item_lt(opp[opp.len() - 1], opp[j]));
                } else {
                    let j = j1 + 1;
                    assert(opp[j] == rest[j1]);
                    assert(!item_lt(opp[j], opp[0]));
                    lemma_dec_order(m.0, n.price, n.price);
                }
            }
        }
    } else if crosses(o, opp) {
        lemma_step_stop(o, opp, stamp, up, rec);
    }
}

/// Time priority: among the makers at one price, the order with the smaller
/// id (the older order) trades first.
pub proof fn law_time_priority(ex: ExchangeView, o: OrderView)
    requires
        exchange_wf(ex),
    ensures
        forall|k1: int, k2: int| 0 <= k1 < k2 < process_results(ex, o).len() - 1
            && dec_eq((#[trigger] process_results(ex, o)[k1]).price, (#[trigger] process_results(ex, o)[k2]).price)
            ==> process_results(ex, o)[k1].id <= process_results(ex, o)[k2].id,
{
    let opp = super::opposite(ex, o);
    lemma_run_time_order(o, opp.0, opp.1, o.unfilled, o.unfilled);
    let rs = process_results(ex, o);
    let run = run_of(ex, o);
    assert forall|k: int| 0 <= k < rs.len() - 1 implies #[trigger] rs[k] == run.results[k] by {}
}

/// The book orders two resting orders of one action as `OrderRec::cmp` does:
/// the item of `a` comes before the item of `b` exactly when `a` compares
/// less than `b`, whatever their stamps and amounts left.
pub proof fn law_book_follows_cmp(a: OrderView, b: OrderView, sa: u64, sb: u64)
    requires
        a.action == b.action,
        a.id != b.id,
    ensures
        item_lt((a.price, rest_key(a.action, a.id), sa, a.unfilled), (b.price, rest_key(b.action, b.id), sb, b.unfilled))
            == (priority(a, b) == Comparison::Less),
{
    lemma_dec_order(a.price, b.price, b.price);
}

/// When the loop and the record start from the same amount, a limit order
/// that the run leaves with a nonzero amount has that same amount on record.
proof fn lemma_run_record(o: OrderView, opp: Seq<ItemView>, stamp: u64, up: (int, int))
    ensures
        o.action.limited() && !dec_eq(match_run(o, opp, stamp, up, up).unfilled, dec_zero())
            ==> match_run(o, opp, stamp, up, up).record_unfilled == match_run(o, opp, stamp, up, up).unfilled,
    decreases opp.len(),
{
    if crosses(o, opp) {
        let u = next_unfilled(o, opp, up);
        lemma_dec_order(u, dec_zero(), dec_zero());
        lemma_dec_order(dec_zero(), dec_zero(), dec_zero());
        if goes_on(o, opp, up) {
            assert(next_record(o, opp, up) == u);
            lemma_run_record(o, without_best(o, opp), stamp, u);
        }
    }
}

/// What rests is what the report says is left: a limit order that its report
/// does not show filled rests on its own side, at its price, with the amount
/// that its result reports; any other order leaves its own side as it was.
pub proof fn law_rest_matches_report(ex: ExchangeView, o: OrderView)
    requires
        exchange_wf(ex),
    ensures
        ({
            let taker = process_results(ex, o).last();
            let after = process_book(ex, o);
            let own = if o.action.sells() { ex.sells } else { ex.buys };
            let own_after = if o.action.sells() { after.sells } else { after.buys };
            let stamp = if o.action.sells() { ex.sell_stamp } else { ex.buy_stamp };
            let e = (o.price, rest_key(o.action, o.id), stamp, taker.amount);
            &&& o.action.limited() && taker.state != OrderState::Filled
                ==> own_after == own.insert(insertion_point(own, e) as int, e)
            &&& !(o.action.limited() && taker.state != OrderState::Filled) ==> own_after == own
        }),
{
    let opp = super::opposite(ex, o);
    lemma_run_record(o, opp.0, opp.1, o.unfilled);
}

/// `a` times `10^p`, written with the same mantissa.
pub open spec fn shift(a: (int, int), p: int) -> (int, int) {
    (a.0, a.1 - p)
}

/// Multiplying by a power of ten keeps the order and the equality of values.
proof fn lemma_shift_order(a: (int, int), b: (int, int), p: int)
    ensures
        dec_le(a, b) <==> dec_le(shift(a, p), shift(b, p)),
        dec_eq(a, b) <==> dec_eq(shift(a, p), shift(b, p)),
{
    let ea: int = if a.1 >= 0 { a.1 } else { -a.1 };
    let eb: int = if b.1 >= 0 { b.1 } else { -b.1 };
    let ep: int = if p >= 0 { p } else { -p };
    let m: int = ea + eb + ep;
    let k: int = m + p;
    crate::decimal::lemma_scaled_order(a, b, k);
    crate::decimal::lemma_scaled_order(shift(a, p), shift(b, p), m);
    assert(m - shift(a, p).1 == k - a.1);
    assert(m - shift(b, p).1 == k - b.1);
}

/// Integer parts follow the order of values.
proof fn lemma_truncated_monotone(a: (int, int), b: (int, int))
    requires
        dec_le(a, b),
    ensures
        truncated(a) <= truncated(b),
{
    crate::decimal::lemma_truncated_tdiv(a);
    crate::decimal::lemma_truncated_tdiv(b);
    crate::decimal::lemma_den_positive(a);
    crate::decimal::lemma_den_positive(b);
    let (na, nb, da, db) = (dec_num(a), dec_num(b), dec_den(a), dec_den(b));
    crate::decimal::lemma_tdiv_scale(na, da, db);
    crate::decimal::lemma_tdiv_scale(nb, db, da);
    assert(db * da == da * db) by (nonlinear_arith);
    assert(da * db > 0) by (nonlinear_arith)
        requires
            da > 0,
            db > 0,
    ;
    crate::decimal::lemma_tdiv_monotone(na * db, nb * da, da * db);
}

/// Equal values have the same integer part at every precision.
pub proof fn lemma_shifted_trunc_value(a: (int, int), b: (int, int), prec: int)
    requires
        dec_eq(a, b),
    ensures
        shifted_trunc(a, prec) == shifted_trunc(b, prec),
{
    lemma_shift_order(a, b, prec);
    crate::decimal::lemma_truncated_value(shift(a, prec), shift(b, prec));
}

/// Flooring a value of at least zero does not raise it.
pub proof fn lemma_floored_le(q: (int, int), prec: int)
    requires
        dec_le(dec_zero(), q),
    ensures
        dec_le(floored(q, prec), q),
{
    let y = shift(q, prec);
    lemma_shift_order(dec_zero(), q, prec);
    crate::decimal::lemma_den_positive(y);
    let z = shift(dec_zero(), prec);
    crate::decimal::lemma_den_positive(z);
    crate::decimal::lemma_zero_value(z);
    crate::decimal::lemma_zero_value(y);
    crate::decimal::lemma_zero_value(dec_zero());
    crate::decimal::lemma_dec_order(z, dec_zero(), y);
    crate::decimal::lemma_dec_order(dec_zero(), z, y);
    let (n, k) = (dec_num(y), dec_den(y));
    assert(n >= 0) by {
        if y.1 < 0 {
            crate::decimal::lemma_pow10_positive((-y.1) as nat);
            assert(n == y.0 * pow10((-y.1) as nat));
            assert(y.0 >= 0);
            assert(n >= 0) by (nonlinear_arith)
                requires
                    n == y.0 * pow10((-y.1) as nat),
                    y.0 >= 0,
                    pow10((-y.1) as nat) > 0,
            ;
        }
    }
    crate::decimal::lemma_truncated_tdiv(y);
    let t = shifted_trunc(q, prec);
    assert(t == n / k);
    vstd::arithmetic::div_mod::lemma_fundamental_div_mod(n, k);
    assert(t * k <= n) by (nonlinear_arith)
        requires
            n == k * (n / k) + n % k,
            n % k >= 0,
            t == n / k,
    ;
    assert(pow10(0) == 1);
    assert(dec_num((t, 0int)) == t && dec_den((t, 0int)) == 1);
    assert(dec_le((t, 0int), y)) by (nonlinear_arith)
        requires
            t * k <= n,
            dec_num((t, 0int)) == t,
            dec_den((t, 0int)) == 1,
            dec_num(y) == n,
            dec_den(y) == k,
    ;
    lemma_shift_order((t, 0int), y, -prec);
    assert(shift((t, 0int), -prec) == floored(q, prec));
    assert(shift(y, -prec) == q);
}

/// Flooring is odd: cutting `-x` gives minus what cutting `x` gives, so a
/// negative number is cut toward zero (`-1.239` to `-1.23`, not `-1.24`).
pub proof fn law_floor_sign_symmetric(x: (int, int), prec: int)
    ensures
        floored((-x.0, x.1), prec) == (-floored(x, prec).0, prec),
{
    let s = x.1 - prec;
    if s < 0 {
        assert((-x.0) * pow10((-s) as nat) == -(x.0 * pow10((-s) as nat))) by (nonlinear_arith);
    } else {
        crate::decimal::lemma_pow10_positive(s as nat);
        if x.0 == 0 {
            assert(0int / pow10(s as nat) == 0);
        }
    }
}

/// Flooring twice cuts no further: a value equal to `floored(x, prec)` floors
/// to the same integer part.
pub proof fn law_floor_idempotent(x: (int, int), y: (int, int), prec: int)
    requires
        dec_eq(y, floored(x, prec)),
    ensures
        shifted_trunc(y, prec) == shifted_trunc(x, prec),
        floored(y, prec) == floored(x, prec),
{
    lemma_shift_order(y, floored(x, prec), prec);
    crate::decimal::lemma_truncated_value(shift(y, prec), shift(floored(x, prec), prec));
    let t = shifted_trunc(x, prec);
    assert(shift(floored(x, prec), prec) == (t, 0int));
    assert(pow10(0) == 1);
    assert(t / 1 == t);
    assert((-t) / 1 == -t);
}

/// Flooring is monotone: `x <= y` gives `floored(x) <= floored(y)`.
pub proof fn law_floor_monotone(x: (int, int), y: (int, int), prec: int)
    requires
        dec_le(x, y),
    ensures
        shifted_trunc(x, prec) <= shifted_trunc(y, prec),
        dec_le(floored(x, prec), floored(y, prec)),
{
    lemma_shift_order(x, y, prec);
    lemma_truncated_monotone(shift(x, prec), shift(y, prec));
    let (tx, ty) = (shifted_trunc(x, prec), shifted_trunc(y, prec));
    lemma_shift_order(floored(x, prec), floored(y, prec), prec);
    assert(shift(floored(x, prec), prec) == (tx, 0int));
    assert(shift(floored(y, prec), prec) == (ty, 0int));
    assert(pow10(0) == 1);
    assert(dec_num((tx, 0int)) == tx && dec_den((tx, 0int)) == 1);
    assert(dec_num((ty, 0int)) == ty && dec_den((ty, 0int)) == 1);
    assert(tx == truncated(shift(x, prec)) && ty == truncated(shift(y, prec)));
    assert(dec_num((tx, 0int)) * dec_den((ty, 0int)) <= dec_num((ty, 0int)) * dec_den((tx, 0int))) by (nonlinear_arith)
        requires
            tx <= ty,
            dec_num((tx, 0int)) == tx,
            dec_den((tx, 0int)) == 1,
            dec_num((ty, 0int)) == ty,
            dec_den((ty, 0int)) == 1,
    ;
}

/// Reading an order takes each field from its place in the record: the id
/// after `:order-id` (field 1), the action after `:action` (3), the price after
/// `:price` (5), the amount after `:amount` (7), the unfilled amount after
/// `:unfilled-amount` (9) and the state after `:state` (11); the record reads
/// exactly when it has twelve fields and each of these reads.
pub proof fn law_order_fields(s: Seq<char>)
    ensures
        ({
            let f = record_fields(s);
            &&& order_parse(s) is Ok <==> (f.len() == 12 && id_parse(f[1]) is Ok && action_parse(f[3]) is Ok
                && quoted_decimal(f[5]) is Ok && quoted_decimal(f[7]) is Ok && quoted_decimal(f[9]) is Ok
                && state_parse(f[11]) is Ok)
            &&& order_parse(s) is Ok ==> {
                let v = order_parse(s)->Ok_0;
                &&& id_parse(f[1]) == Ok::<u64, Seq<char>>(v.id)
                &&& action_parse(f[3]) == Ok::<OrderAction, Seq<char>>(v.action)
                &&& quoted_decimal(f[5]) == Ok::<(int, int), Seq<char>>(v.price)
                &&& quoted_decimal(f[7]) == Ok::<(int, int), Seq<char>>(v.amount)
                &&& quoted_decimal(f[9]) == Ok::<(int, int), Seq<char>>(v.unfilled)
                &&& state_parse(f[11]) == Ok::<OrderState, Seq<char>>(v.state)
            }
        }),
{
    reveal(order_parse);
}

/// Reading a match result takes each field from its place in the record: the
/// role (field 1), the id (3), the action (5), the price (7), the state (9)
/// and the amount (11); the record reads exactly when it has twelve fields and
/// each of these reads.
pub proof fn law_match_fields(s: Seq<char>)
    ensures
        ({
            let f = record_fields(s);
            &&& match_parse(s) is Ok <==> (f.len() == 12 && role_parse(f[1]) is Ok && id_parse(f[3]) is Ok
                && action_parse(f[5]) is Ok && quoted_decimal(f[7]) is Ok && state_parse(f[9]) is Ok
                && quoted_decimal(f[11]) is Ok)
            &&& match_parse(s) is Ok ==> {
                let v = match_parse(s)->Ok_0;
                &&& role_parse(f[1]) == Ok::<MatchResultRole, Seq<char>>(v.role)
                &&& id_parse(f[3]) == Ok::<u64, Seq<char>>(v.id)
                &&& action_parse(f[5]) == Ok::<OrderAction, Seq<char>>(v.action)
                &&& quoted_decimal(f[7]) == Ok::<(int, int), Seq<char>>(v.price)
                &&& state_parse(f[9]) == Ok::<OrderState, Seq<char>>(v.state)
                &&& quoted_decimal(f[11]) == Ok::<(int, int), Seq<char>>(v.amount)
            }
        }),
{
    reveal(match_parse);
}

/// The comparison of two orders of one action is a total order in which the
/// price decides first and then the id: it is antisymmetric, it calls two
/// orders equal exactly when their prices are equal in value and their ids
/// are equal, a lower price compares less, and at one price a sell with the
/// smaller id and a buy with the larger id compare less.
pub proof fn law_priority(a: OrderView, b: OrderView)
    requires
        a.action == b.action,
    ensures
        (priority(a, b) == Comparison::Greater) == (priority(b, a) == Comparison::Less),
        (priority(a, b) == Comparison::Equal) == (dec_eq(a.price, b.price) && a.id == b.id),
        dec_lt(a.price, b.price) ==> priority(a, b) == Comparison::Less,
        dec_lt(b.price, a.price) ==> priority(a, b) == Comparison::Greater,
        dec_eq(a.price, b.price) && a.action.sells() ==> ((priority(a, b) == Comparison::Less) == (a.id < b.id)),
        dec_eq(a.price, b.price) && !a.action.sells() ==> ((priority(a, b) == Comparison::Less) == (b.id < a.id)),
{
    lemma_dec_order(a.price, b.price, b.price);
    lemma_dec_order(b.price, a.price, a.price);
}

/// Reading a line of results keeps every record: the records read, joined
/// with `) (`, give the line back, there is at least one, and none holds
/// `) (`; so there is one more record than there are separate `) (` in the
/// line.
pub proof fn law_line_rejoins(s: Seq<char>)
    ensures
        line_parts(s).len() >= 1,
        join(line_parts(s), ") ("@) == s,
        forall|k: int| 0 <= k < line_parts(s).len() ==> free_of(#[trigger] line_parts(s)[k], ") ("@),
{
    reveal_strlit(") (");
    crate::text::law_split_rejoins(s, ") ("@);
}

/// `v` is, in value, how much `before` exceeds `after`.
pub open spec fn value_drop(v: (int, int), before: (int, int), after: (int, int)) -> bool {
    dec_num(v) * (dec_den(before) * dec_den(after)) == (dec_num(before) * dec_den(after) - dec_num(after)
        * dec_den(before)) * dec_den(v)
}

/// A maker's result reports what it traded: a filled maker the amount it had,
/// cut to 18 digits; a partly filled maker, which still rests in `after` at its
/// price and key, how much its resting amount dropped, cut to 18 digits.
pub open spec fn reports_fill(r: MatchView, before: ItemView, after: Seq<ItemView>) -> bool {
    &&& r.state == OrderState::Filled ==> r.amount == floor_spec(before.3, 18)
    &&& r.state == OrderState::PartialFilled ==> exists|j: int|
        0 <= j < after.len() && (#[trigger] after[j]).0 == before.0 && after[j].1 == before.1
            && (forall|v: (int, int)| #[trigger] value_drop(v, before.3, after[j].3) ==> r.amount == floor_spec(v, 18))
}

/// If `l` is `b - f` in value and `v` is `b - l` in value, then `v` is `f` in value.
proof fn lemma_drop_value(v: (int, int), b: (int, int), f: (int, int), l: (int, int))
    requires
        dec_num(l) * (dec_den(b) * dec_den(f)) == (dec_num(b) * dec_den(f) - dec_num(f) * dec_den(b)) * dec_den(l),
        value_drop(v, b, l),
    ensures
        dec_eq(v, f),
{
    crate::decimal::lemma_den_positive(v);
    crate::decimal::lemma_den_positive(b);
    crate::decimal::lemma_den_positive(f);
    crate::decimal::lemma_den_positive(l);
    let (nv, nb, nf, nl, dv, db, df, dl) = (dec_num(v), dec_num(b), dec_num(f), dec_num(l), dec_den(v), dec_den(b),
        dec_den(f), dec_den(l));
    assert(nv * (db * dl) * df == (nb * dl * df - nl * db * df) * dv) by (nonlinear_arith)
        requires
            nv * (db * dl) == (nb * dl - nl * db) * dv,
    ;
    assert(nl * db * df == (nb * df - nf * db) * dl) by (nonlinear_arith)
        requires
            nl * (db * df) == (nb * df - nf * db) * dl,
    ;
    assert((nb * df - nf * db) * dl == nb * df * dl - nf * db * dl) by (nonlinear_arith);
    assert(nb * dl * df == nb * df * dl) by (nonlinear_arith);
    assert(nb * dl * df - nl * db * df == nf * db * dl);
    assert((nf * db * dl) * dv == (nf * dv) * (db * dl)) by (nonlinear_arith);
    assert((nb * dl * df - nl * db * df) * dv == (nf * dv) * (db * dl));
    assert((nv * df) * (db * dl) == (nf * dv) * (db * dl)) by (nonlinear_arith)
        requires
            nv * (db * dl) * df == (nf * dv) * (db * dl),
    ;
    assert(db * dl > 0) by (nonlinear_arith)
        requires
            db > 0,
            dl > 0,
    ;
    vstd::arithmetic::mul::lemma_mul_equality_converse(db * dl, nv * df, nf * dv);
}

/// Every maker of a run rested on the opposite side at its price and key,
/// and its result reports what it traded.
pub proof fn lemma_run_reports(o: OrderView, opp: Seq<ItemView>, stamp: u64, up: (int, int), rec: (int, int))
    ensures
        forall|k: int| 0 <= k < match_run(o, opp, stamp, up, rec).results.len() ==> exists|i: int|
            0 <= i < opp.len() && (#[trigger] opp[i]).0 == (#[trigger] match_run(o, opp, stamp, up, rec).results[k]).price
                && opp[i].1 == maker_key(o, match_run(o, opp, stamp, up, rec).results[k])
                && reports_fill(match_run(o, opp, stamp, up, rec).results[k], opp[i], match_run(o, opp, stamp, up, rec).opp),
    decreases opp.len(),
{
    let r = match_run(o, opp, stamp, up, rec);
    if crosses(o, opp) {
        let m = best(o, opp);
        let rest = without_best(o, opp);
        let k0 = if o.action.sells() { opp.len() - 1 } else { 0 };
        assert(opp[k0] == m);
        assert(r.results[0].price == m.0 && maker_key(o, r.results[0]) == m.1);
        if goes_on(o, opp, up) {
            let nu = next_unfilled(o, opp, up);
            let nr = next_record(o, opp, rec);
            let next = match_run(o, rest, stamp, nu, nr);
            lemma_run_reports(o, rest, stamp, nu, nr);
            assert(r.results == seq![r.results[0]] + next.results);
            assert(r.opp == next.opp);
            assert(r.results[0].state == OrderState::Filled && r.results[0].amount == floor_spec(m.3, 18));
            assert forall|k: int| 0 <= k < r.results.len() implies exists|i: int|
                0 <= i < opp.len() && (#[trigger] opp[i]).0 == (#[trigger] r.results[k]).price
                    && opp[i].1 == maker_key(o, r.results[k]) && reports_fill(r.results[k], opp[i], r.opp) by {
                if k == 0 {
                    assert(opp[k0].0 == r.results[0].price);
                } else {
                    assert(r.results[k] == next.results[k - 1]);
                    let n = next.results[k - 1];
                    let i1 = choose|i1: int| 0 <= i1 < rest.len() && (#[trigger] rest[i1]).0 == n.price
                        && rest[i1].1 == maker_key(o, n) && reports_fill(n, rest[i1], next.opp);
                    let i = if o.action.sells() { i1 } else { i1 + 1 };
                    assert(opp[i] == rest[i1]);
                    assert(opp[i].0 == r.results[k].price);
                }
            }
        } else {
            let u = next_unfilled(o, opp, up);
            lemma_dec_order(u, dec_zero(), dec_zero());
            if dec_lt(u, dec_zero()) {
                let filled = if o.action is BuyMarket { floor_spec(crate::decimal::quotient(rec, m.0), 18) } else { rec };
                let left = crate::decimal::difference(m.3, filled);
                let back = (m.0, m.1, stamp, left);
                let p = insertion_point(rest, back) as int;
                lemma_insertion_point(rest, back);
                assert(r.opp == rest.insert(p, back));
                assert(r.opp[p] == back);
                assert(r.results.len() == 1);
                assert(r.results[0].state == OrderState::PartialFilled && r.results[0].amount == floor_spec(filled, 18));
                crate::decimal::lemma_difference_value(m.3, filled);
                assert forall|v: (int, int)| #[trigger] value_drop(v, m.3, r.opp[p].3) implies
                    r.results[0].amount == floor_spec(v, 18) by {
                    lemma_drop_value(v, m.3, filled, left);
                    super::records::lemma_floor_spec_value(v, filled, 18);
                }
                assert(reports_fill(r.results[0], opp[k0], r.opp));
                assert(opp[k0].0 == r.results[0].price);
            } else {
                assert(r.results.len() == 1);
                assert(r.results[0].state == OrderState::Filled && r.results[0].amount == floor_spec(m.3, 18));
                assert(opp[k0].0 == r.results[0].price);
            }
        }
    }
}

/// Each maker reports what it traded: every maker's result names an order
/// that rested on the opposite side at that price, and reports, cut to 18
/// digits, its whole amount if it was filled, or how much its resting amount
/// dropped if it was partly filled (it still rests, with the rest).
pub proof fn law_makers_report_what_they_traded(ex: ExchangeView, o: OrderView)
    ensures
        ({
            let rs = process_results(ex, o);
            let before = super::opposite(ex, o).0;
            let after = super::opposite(process_book(ex, o), o).0;
            forall|k: int| 0 <= k < rs.len() - 1 ==> exists|i: int|
                0 <= i < before.len() && (#[trigger] before[i]).0 == (#[trigger] rs[k]).price
                    && before[i].1 == maker_key(o, rs[k]) && reports_fill(rs[k], before[i], after)
        }),
{
    let opp = super::opposite(ex, o);
    lemma_run_reports(o, opp.0, opp.1, o.unfilled, o.unfilled);
    let rs = process_results(ex, o);
    let run = run_of(ex, o);
    assert(super::opposite(process_book(ex, o), o).0 == run.opp);
    assert forall|k: int| 0 <= k < rs.len() - 1 implies #[trigger] rs[k] == run.results[k] by {}
    assert forall|k: int| 0 <= k < rs.len() - 1 implies exists|i: int|
        0 <= i < opp.0.len() && (#[trigger] opp.0[i]).0 == (#[trigger] rs[k]).price
            && opp.0[i].1 == maker_key(o, rs[k]) && reports_fill(rs[k], opp.0[i], run.opp) by {
        assert(rs[k] == run.results[k]);
    }
}

/// The taker's state says how the order fared: filled exactly when nothing
/// is left of it; otherwise a limit order is submitted when nothing traded and
/// partly filled when something did, and a market order canceled or partly
/// canceled in the same way.  Every maker is a limit order of the other side.
pub proof fn law_taker_state(ex: ExchangeView, o: OrderView)
    requires
        exchange_wf(ex),
    ensures
        ({
            let rs = process_results(ex, o);
            let t = rs.last();
            let traded = rs.len() > 1;
            &&& (t.state == OrderState::Filled) == dec_eq(t.amount, dec_zero())
            &&& !dec_eq(t.amount, dec_zero()) && o.action.limited() ==> t.state == (if traded {
                OrderState::PartialFilled
            } else {
                OrderState::Submitted
            })
            &&& !dec_eq(t.amount, dec_zero()) && !o.action.limited() ==> t.state == (if traded {
                OrderState::PartialCanceled
            } else {
                OrderState::Canceled
            })
            &&& forall|k: int| 0 <= k < rs.len() - 1 ==> (#[trigger] rs[k]).action == (if o.action.sells() {
                OrderAction::BuyLimit
            } else {
                OrderAction::SellLimit
            })
        }),
{
    let opp = super::opposite(ex, o);
    lemma_run_makers(o, opp.0, opp.1, o.unfilled, o.unfilled);
    let rs = process_results(ex, o);
    let run = run_of(ex, o);
    assert forall|k: int| 0 <= k < rs.len() - 1 implies #[trigger] rs[k] == run.results[k] by {}
}

/// Every maker of a run is a limit order of the other side.
proof fn lemma_run_makers(o: OrderView, opp: Seq<ItemView>, stamp: u64, up: (int, int), rec: (int, int))
    ensures
        forall|k: int| 0 <= k < match_run(o, opp, stamp, up, rec).results.len() ==>
            (#[trigger] match_run(o, opp, stamp, up, rec).results[k]).action == (if o.action.sells() {
                OrderAction::BuyLimit
            } else {
                OrderAction::SellLimit
            }),
    decreases opp.len(),
{
    let r = match_run(o, opp, stamp, up, rec);
    if crosses(o, opp) && goes_on(o, opp, up) {
        let next = match_run(o, without_best(o, opp), stamp, next_unfilled(o, opp, up), next_record(o, opp, rec));
        lemma_run_makers(o, without_best(o, opp), stamp, next_unfilled(o, opp, up), next_record(o, opp, rec));
        assert(r.results == seq![r.results[0]] + next.results);
        assert forall|k: int| 0 < k < r.results.len() implies #[trigger] r.results[k] == next.results[k - 1] by {}
    }
}

/// The sum of `f` over the items of a side.
pub open spec fn item_sum(s: Seq<ItemView>, f: spec_fn(ItemView) -> int) -> int
    decreases s.len(),
{
    if s.len() == 0 {
        0
    } else {
        f(s[0]) + item_sum(s.drop_first(), f)
    }
}

/// The total amount left on a side, in units of `10^-sane_limit()`.
pub open spec fn side_total(s: Seq<ItemView>) -> int {
    item_sum(s, |e: ItemView| scaled(e.3, sane_limit()))
}

/// The total worth (amount left times price) of a side, in units of
/// `10^-(2 * sane_limit())`.
pub open spec fn side_worth(s: Seq<ItemView>) -> int {
    item_sum(s, |e: ItemView| scaled(e.0, sane_limit()) * scaled(e.3, sane_limit()))
}

/// Conservation: for an order that is not a market buy, what it fills is what
/// the opposite side loses; for a market buy (whose amount is money), what it
/// spends is the worth that the opposite side loses.
pub open spec fn conserves(ex: ExchangeView, o: OrderView) -> bool {
    let before = super::opposite(ex, o).0;
    let run = run_of(ex, o);
    &&& !(o.action is BuyMarket) ==> side_total(before) - side_total(run.opp)
        == scaled(o.unfilled, sane_limit()) - scaled(run.unfilled, sane_limit())
    &&& o.action is BuyMarket ==> side_worth(before) - side_worth(run.opp)
        == scaled(o.unfilled, 2 * sane_limit()) - scaled(run.unfilled, 2 * sane_limit())
}

/// The sum over a side is the sum without its last item plus that item.
pub proof fn lemma_sum_drop_last(s: Seq<ItemView>, f: spec_fn(ItemView) -> int)
    requires
        s.len() > 0,
    ensures
        item_sum(s, f) == item_sum(s.drop_last(), f) + f(s.last()),
    decreases s.len(),
{
    if s.len() == 1 {
        assert(s.drop_first().len() == 0);
        assert(s.drop_last().len() == 0);
        assert(item_sum(s.drop_first(), f) == 0);
        assert(item_sum(s.drop_last(), f) == 0);
        assert(s.last() == s[0]);
    } else {
        let df = s.drop_first();
        let dl = s.drop_last();
        lemma_sum_drop_last(df, f);
        assert(df.drop_last() =~= dl.drop_first());
        assert(dl[0] == s[0]);
        assert(df.last() == s.last());
        assert(item_sum(dl, f) == f(dl[0]) + item_sum(dl.drop_first(), f));
        assert(item_sum(s, f) == f(s[0]) + item_sum(df, f));
    }
}

/// The sum over a side with an item inserted is the sum plus that item.
pub proof fn lemma_sum_insert(s: Seq<ItemView>, p: int, x: ItemView, f: spec_fn(ItemView) -> int)
    requires
        0 <= p <= s.len(),
    ensures
        item_sum(s.insert(p, x), f) == item_sum(s, f) + f(x),
    decreases s.len(),
{
    let t = s.insert(p, x);
    if p == 0 {
        assert(t.drop_first() =~= s);
    } else {
        lemma_sum_insert(s.drop_first(), p - 1, x, f);
        assert(t.drop_first() =~= s.drop_first().insert(p - 1, x));
        assert(t[0] == s[0]);
    }
}

/// The sum over a side is the sum without its best item plus that item.
pub proof fn lemma_sum_without_best(o: OrderView, s: Seq<ItemView>, f: spec_fn(ItemView) -> int)
    requires
        s.len() > 0,
    ensures
        item_sum(s, f) == item_sum(without_best(o, s), f) + f(best(o, s)),
{
    if o.action.sells() {
        lemma_sum_drop_last(s, f);
    }
}


/// `side_total` without the best item, and with an item inserted.
pub proof fn lemma_total_steps(o: OrderView, s: Seq<ItemView>, p: int, x: ItemView)
    ensures
        s.len() > 0 ==> side_total(s) == side_total(without_best(o, s)) + scaled(best(o, s).3, sane_limit()),
        s.len() > 0 ==> side_worth(s) == side_worth(without_best(o, s))
            + scaled(best(o, s).0, sane_limit()) * scaled(best(o, s).3, sane_limit()),
        0 <= p <= s.len() ==> side_total(s.insert(p, x)) == side_total(s) + scaled(x.3, sane_limit()),
        0 <= p <= s.len() ==> side_worth(s.insert(p, x)) == side_worth(s)
            + scaled(x.0, sane_limit()) * scaled(x.3, sane_limit()),
{
    let ft = |e: ItemView| scaled(e.3, sane_limit());
    let fw = |e: ItemView| scaled(e.0, sane_limit()) * scaled(e.3, sane_limit());
    if s.len() > 0 {
        lemma_sum_without_best(o, s, ft);
        lemma_sum_without_best(o, s, fw);
    }
    if 0 <= p <= s.len() {
        lemma_sum_insert(s, p, x, ft);
        lemma_sum_insert(s, p, x, fw);
    }
}

} // verus!
