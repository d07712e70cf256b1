use rustex::decimal::parse_decimal;
use rustex::{BigDec, Exchange, MatchResult, MatchResultRole, OrderAction, OrderRec, OrderState};

fn d(s: &str) -> BigDec {
    parse_decimal(s).unwrap()
}

fn order(id: u64, action: OrderAction, price: &str, amount: &str) -> OrderRec {
    OrderRec {
        id,
        action,
        price: d(price),
        amount: d(amount),
        unfilled_amount: d(amount),
        state: OrderState::Submitted,
    }
}

fn run(ex: &mut Exchange, o: OrderRec) -> Vec<MatchResult> {
    assert!(ex.has_room());
    assert!(o.within_limits());
    assert!(!ex.would_divide_by_zero(&o));
    *ex.process(o)
}

fn check(r: &MatchResult, role: MatchResultRole, id: u64, action: OrderAction, price: &str, state: OrderState, amount: &str) {
    assert_eq!(r.role, role);
    assert_eq!(r.id, id);
    assert_eq!(r.action, action);
    assert_eq!(r.price, d(price));
    assert_eq!(r.state, state);
    assert_eq!(r.amount, d(amount));
}

#[test]
fn limit_order_into_empty_book_is_submitted() {
    let mut ex = Exchange::new();
    let r = run(&mut ex, order(1, OrderAction::SellLimit, "10", "5"));
    assert_eq!(r.len(), 1);
    check(&r[0], MatchResultRole::Taker, 1, OrderAction::SellLimit, "10", OrderState::Submitted, "5");
}

#[test]
fn market_order_into_empty_book_is_canceled() {
    let mut ex = Exchange::new();
    let r = run(&mut ex, order(1, OrderAction::BuyMarket, "0", "100"));
    assert_eq!(r.len(), 1);
    check(&r[0], MatchResultRole::Taker, 1, OrderAction::BuyMarket, "0", OrderState::Canceled, "100");
}

#[test]
fn partial_fill_of_a_resting_offer() {
    let mut ex = Exchange::new();
    run(&mut ex, order(1, OrderAction::SellLimit, "10", "5"));
    let r = run(&mut ex, order(2, OrderAction::BuyLimit, "11", "3"));
    assert_eq!(r.len(), 2);
    check(&r[0], MatchResultRole::Maker, 1, OrderAction::SellLimit, "10", OrderState::PartialFilled, "3");
    check(&r[1], MatchResultRole::Taker, 2, OrderAction::BuyLimit, "11", OrderState::Filled, "0");
    // what is left of the offer trades next
    let r = run(&mut ex, order(3, OrderAction::BuyLimit, "10", "2"));
    check(&r[0], MatchResultRole::Maker, 1, OrderAction::SellLimit, "10", OrderState::Filled, "2");
    check(&r[1], MatchResultRole::Taker, 3, OrderAction::BuyLimit, "10", OrderState::Filled, "0");
}

#[test]
fn exact_fill_empties_the_book() {
    let mut ex = Exchange::new();
    run(&mut ex, order(1, OrderAction::SellLimit, "10", "5"));
    let r = run(&mut ex, order(2, OrderAction::BuyLimit, "10", "5.0"));
    assert_eq!(r.len(), 2);
    check(&r[0], MatchResultRole::Maker, 1, OrderAction::SellLimit, "10", OrderState::Filled, "5");
    check(&r[1], MatchResultRole::Taker, 2, OrderAction::BuyLimit, "10", OrderState::Filled, "0");
    let r = run(&mut ex, order(3, OrderAction::BuyMarket, "0", "7"));
    check(&r[0], MatchResultRole::Taker, 3, OrderAction::BuyMarket, "0", OrderState::Canceled, "7");
}

#[test]
fn limit_order_that_does_not_cross_rests() {
    let mut ex = Exchange::new();
    run(&mut ex, order(1, OrderAction::SellLimit, "10", "5"));
    let r = run(&mut ex, order(2, OrderAction::BuyLimit, "9", "4"));
    assert_eq!(r.len(), 1);
    check(&r[0], MatchResultRole::Taker, 2, OrderAction::BuyLimit, "9", OrderState::Submitted, "4");
    let r = run(&mut ex, order(3, OrderAction::SellMarket, "0", "10"));
    assert_eq!(r.len(), 2);
    check(&r[0], MatchResultRole::Maker, 2, OrderAction::BuyLimit, "9", OrderState::Filled, "4");
    check(&r[1], MatchResultRole::Taker, 3, OrderAction::SellMarket, "0", OrderState::PartialCanceled, "6");
}

#[test]
fn best_price_first_then_oldest() {
    let mut ex = Exchange::new();
    run(&mut ex, order(10, OrderAction::SellLimit, "12", "1"));
    run(&mut ex, order(12, OrderAction::SellLimit, "11", "1"));
    run(&mut ex, order(11, OrderAction::SellLimit, "11", "1"));
    let r = run(&mut ex, order(13, OrderAction::BuyLimit, "12", "5"));
    assert_eq!(r.len(), 4);
    check(&r[0], MatchResultRole::Maker, 11, OrderAction::SellLimit, "11", OrderState::Filled, "1");
    check(&r[1], MatchResultRole::Maker, 12, OrderAction::SellLimit, "11", OrderState::Filled, "1");
    check(&r[2], MatchResultRole::Maker, 10, OrderAction::SellLimit, "12", OrderState::Filled, "1");
    check(&r[3], MatchResultRole::Taker, 13, OrderAction::BuyLimit, "12", OrderState::PartialFilled, "2");
    // the rest of the buy now rests at 12 and meets the next sell
    let r = run(&mut ex, order(14, OrderAction::SellLimit, "12", "2"));
    check(&r[0], MatchResultRole::Maker, 13, OrderAction::BuyLimit, "12", OrderState::Filled, "2");
    check(&r[1], MatchResultRole::Taker, 14, OrderAction::SellLimit, "12", OrderState::Filled, "0");
}

#[test]
fn bids_highest_first_then_oldest() {
    let mut ex = Exchange::new();
    run(&mut ex, order(21, OrderAction::BuyLimit, "5", "1"));
    run(&mut ex, order(20, OrderAction::BuyLimit, "5", "1"));
    run(&mut ex, order(22, OrderAction::BuyLimit, "6", "1"));
    let r = run(&mut ex, order(23, OrderAction::SellLimit, "5", "3"));
    assert_eq!(r.len(), 4);
    check(&r[0], MatchResultRole::Maker, 22, OrderAction::BuyLimit, "6", OrderState::Filled, "1");
    check(&r[1], MatchResultRole::Maker, 20, OrderAction::BuyLimit, "5", OrderState::Filled, "1");
    check(&r[2], MatchResultRole::Maker, 21, OrderAction::BuyLimit, "5", OrderState::Filled, "1");
    check(&r[3], MatchResultRole::Taker, 23, OrderAction::SellLimit, "5", OrderState::Filled, "0");
}

#[test]
fn limit_price_is_respected() {
    let mut ex = Exchange::new();
    run(&mut ex, order(1, OrderAction::SellLimit, "10", "1"));
    run(&mut ex, order(2, OrderAction::SellLimit, "12", "1"));
    let r = run(&mut ex, order(3, OrderAction::BuyLimit, "11", "5"));
    assert_eq!(r.len(), 2);
    check(&r[0], MatchResultRole::Maker, 1, OrderAction::SellLimit, "10", OrderState::Filled, "1");
    check(&r[1], MatchResultRole::Taker, 3, OrderAction::BuyLimit, "11", OrderState::PartialFilled, "4");
}

#[test]
fn market_buy_spends_money() {
    let mut ex = Exchange::new();
    run(&mut ex, order(1, OrderAction::SellLimit, "10", "2"));
    let r = run(&mut ex, order(2, OrderAction::BuyMarket, "0", "25"));
    assert_eq!(r.len(), 2);
    check(&r[0], MatchResultRole::Maker, 1, OrderAction::SellLimit, "10", OrderState::Filled, "2");
    check(&r[1], MatchResultRole::Taker, 2, OrderAction::BuyMarket, "0", OrderState::PartialCanceled, "5");
}

#[test]
fn market_buy_partial_fill_divides_money_by_price() {
    let mut ex = Exchange::new();
    run(&mut ex, order(6, OrderAction::SellLimit, "4", "10"));
    let r = run(&mut ex, order(7, OrderAction::BuyMarket, "0", "10"));
    assert_eq!(r.len(), 2);
    check(&r[0], MatchResultRole::Maker, 6, OrderAction::SellLimit, "4", OrderState::PartialFilled, "2.5");
    check(&r[1], MatchResultRole::Taker, 7, OrderAction::BuyMarket, "0", OrderState::Filled, "0");
    // 7.5 are left of the offer
    let r = run(&mut ex, order(8, OrderAction::BuyLimit, "4", "7.5"));
    check(&r[0], MatchResultRole::Maker, 6, OrderAction::SellLimit, "4", OrderState::Filled, "7.5");
}

#[test]
fn market_buy_keeps_the_change_of_a_rounded_quantity() {
    let mut ex = Exchange::new();
    run(&mut ex, order(1, OrderAction::SellLimit, "3", "10"));
    let r = run(&mut ex, order(2, OrderAction::BuyMarket, "0", "10"));
    assert_eq!(r.len(), 2);
    check(&r[0], MatchResultRole::Maker, 1, OrderAction::SellLimit, "3", OrderState::PartialFilled, "3.333333333333333333");
    check(&r[1], MatchResultRole::Taker, 2, OrderAction::BuyMarket, "0", OrderState::PartialCanceled, "0.000000000000000001");
}

#[test]
fn division_by_zero_is_detected() {
    let mut ex = Exchange::new();
    run(&mut ex, order(1, OrderAction::SellLimit, "0", "10"));
    let bad = order(2, OrderAction::BuyMarket, "0", "-1");
    assert!(ex.would_divide_by_zero(&bad));
    let fine = order(3, OrderAction::BuyMarket, "0", "1");
    assert!(!ex.would_divide_by_zero(&fine));
    // a zero-priced offer is worth nothing: a market buy takes it whole
    let r = run(&mut ex, fine);
    check(&r[0], MatchResultRole::Maker, 1, OrderAction::SellLimit, "0", OrderState::Filled, "10");
    check(&r[1], MatchResultRole::Taker, 3, OrderAction::BuyMarket, "0", OrderState::PartialCanceled, "1");
}

#[test]
fn traded_amount_is_conserved() {
    // offers of 1.5 and 2.25; a buy of 3 takes 1.5 and 1.5, leaving 0.75 resting
    let mut ex = Exchange::new();
    run(&mut ex, order(1, OrderAction::SellLimit, "10", "1.5"));
    run(&mut ex, order(2, OrderAction::SellLimit, "10.5", "2.25"));
    let r = run(&mut ex, order(3, OrderAction::BuyLimit, "11", "3"));
    check(&r[0], MatchResultRole::Maker, 1, OrderAction::SellLimit, "10", OrderState::Filled, "1.5");
    check(&r[1], MatchResultRole::Maker, 2, OrderAction::SellLimit, "10.5", OrderState::PartialFilled, "1.5");
    check(&r[2], MatchResultRole::Taker, 3, OrderAction::BuyLimit, "11", OrderState::Filled, "0");
    let r = run(&mut ex, order(4, OrderAction::BuyMarket, "0", "1000"));
    check(&r[0], MatchResultRole::Maker, 2, OrderAction::SellLimit, "10.5", OrderState::Filled, "0.75");
    check(&r[1], MatchResultRole::Taker, 4, OrderAction::BuyMarket, "0", OrderState::PartialCanceled, "992.125");
}

#[test]
fn book_does_not_cross_after_a_resting_buy() {
    let mut ex = Exchange::new();
    run(&mut ex, order(1, OrderAction::SellLimit, "10", "1"));
    let r = run(&mut ex, order(2, OrderAction::BuyLimit, "10", "3"));
    check(&r[1], MatchResultRole::Taker, 2, OrderAction::BuyLimit, "10", OrderState::PartialFilled, "2");
    // a sell at 10.5 does not trade with the bid at 10
    let r = run(&mut ex, order(3, OrderAction::SellLimit, "10.5", "1"));
    check(&r[0], MatchResultRole::Taker, 3, OrderAction::SellLimit, "10.5", OrderState::Submitted, "1");
}

#[test]
fn has_room_on_a_new_exchange() {
    let ex = Exchange::new();
    assert!(ex.has_room());
}

#[test]
fn market_buy_partial_fill_leaves_a_positive_offer() {
    let mut ex = Exchange::new();
    run(&mut ex, order(1, OrderAction::SellLimit, "7", "5"));
    let r = run(&mut ex, order(2, OrderAction::BuyMarket, "0", "20"));
    check(&r[0], MatchResultRole::Maker, 1, OrderAction::SellLimit, "7", OrderState::PartialFilled, "2.857142857142857142");
    // what is left of the offer is above zero and trades next
    let r = run(&mut ex, order(3, OrderAction::BuyLimit, "7", "10"));
    check(&r[0], MatchResultRole::Maker, 1, OrderAction::SellLimit, "7", OrderState::Filled, "2.142857142857142858");
}
