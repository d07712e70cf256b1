use rustex::decimal::{compare, parse_decimal};
use rustex::rustex::records::parse_id;
use rustex::{
    BigDec, Comparison, MatchField, MatchResult, MatchResultRole, OrderAction, OrderRec, OrderState,
    floor_with_prec,
};

fn d(s: &str) -> BigDec {
    parse_decimal(s).unwrap()
}

const ORDER_LINE: &str = "(:order-id 98636 :action :sell-limit :price \"10383.31316488943776\" :amount \"4590.912099969064\" :unfilled-amount \"4590.912099969064\" :state :submitted)";

const RESULT_LINE: &str = "((:role :maker :order-id 10 :action :buy-limit :price \"12545.2998023810023\" :state :filled :filled-amount \"822.4578316348483\") (:role :taker :order-id 18 :action :sell-limit :price \"12282.6631713243873\" :state :partial-filled :unfilled-amount \"4001.5522105302251\"))";

fn order_line(id: &str, action: &str, price: &str, state: &str) -> String {
    format!(
        "(:order-id {} :action {} :price {} :amount \"2\" :unfilled-amount \"2\" :state {})",
        id, action, price, state
    )
}

#[test]
fn order_record_is_read() {
    let o = OrderRec::parse(ORDER_LINE).unwrap();
    assert_eq!(o.id, 98636);
    assert_eq!(o.action, OrderAction::SellLimit);
    assert!(o.price == d("10383.31316488943776"));
    assert!(o.amount == d("4590.912099969064"));
    assert!(o.unfilled_amount == d("4590.912099969064"));
    assert_eq!(o.state, OrderState::Submitted);
}

#[test]
fn order_record_reads_through_from_str() {
    let o: OrderRec = ORDER_LINE.parse().unwrap();
    assert_eq!(o.id, 98636);
    let line = order_line("7", ":buy-market", "\"0.0\"", ":canceled");
    let o: OrderRec = line.parse().unwrap();
    assert_eq!(o.id, 7);
    assert_eq!(o.action, OrderAction::BuyMarket);
    assert!(o.price == d("0"));
    assert_eq!(o.state, OrderState::Canceled);
}

#[test]
fn order_record_with_wrong_field_count_is_malformed() {
    let r = OrderRec::parse("(:order-id 1 :action :sell-limit)");
    assert_eq!(r.unwrap_err(), "malformd input: :order-id 1 :action :sell-limit");
}

#[test]
fn order_record_with_bad_id() {
    let line = order_line("x1", ":sell-limit", "\"1\"", ":submitted");
    assert_eq!(OrderRec::parse(&line).unwrap_err(), "invalid digit found in string");
    let line = order_line("18446744073709551616", ":sell-limit", "\"1\"", ":submitted");
    assert_eq!(OrderRec::parse(&line).unwrap_err(), "number too large to fit in target type");
    let line = order_line("-3", ":sell-limit", "\"1\"", ":submitted");
    assert_eq!(OrderRec::parse(&line).unwrap_err(), "invalid digit found in string");
}

#[test]
fn order_record_id_with_plus_sign() {
    let line = order_line("+5", ":sell-limit", "\"1\"", ":submitted");
    assert_eq!(OrderRec::parse(&line).unwrap().id, 5);
    let line = order_line("18446744073709551615", ":sell-limit", "\"1\"", ":submitted");
    assert_eq!(OrderRec::parse(&line).unwrap().id, u64::MAX);
}

#[test]
fn order_record_with_unknown_action() {
    let line = order_line("1", ":sell", "\"1\"", ":submitted");
    assert_eq!(OrderRec::parse(&line).unwrap_err(), "unknown order-action: :sell");
}

#[test]
fn order_record_with_unknown_state() {
    let line = order_line("1", ":sell-limit", "\"1\"", ":done");
    assert_eq!(OrderRec::parse(&line).unwrap_err(), "unknown order-state: :done");
}

#[test]
fn order_record_with_bad_decimal() {
    let line = order_line("1", ":sell-limit", "\"abc\"", ":submitted");
    let err = OrderRec::parse(&line).unwrap_err();
    assert_eq!(err, parse_decimal("abc").unwrap_err());
    assert!(!err.is_empty());
}

#[test]
fn order_price_without_quotes_is_read() {
    let line = order_line("1", ":buy-limit", "12.5", ":submitted");
    assert!(OrderRec::parse(&line).unwrap().price == d("12.5"));
}

#[test]
fn keywords_are_read() {
    assert_eq!(OrderAction::parse(":buy-limit").unwrap(), OrderAction::BuyLimit);
    assert_eq!(OrderAction::parse(":sell-market").unwrap(), OrderAction::SellMarket);
    assert_eq!(OrderState::parse(":partial-filled").unwrap(), OrderState::PartialFilled);
    assert_eq!(OrderState::parse(":partial-canceled").unwrap(), OrderState::PartialCanceled);
    assert_eq!(OrderState::parse(":filled").unwrap(), OrderState::Filled);
    assert_eq!(MatchResultRole::parse(":maker").unwrap(), MatchResultRole::Maker);
    assert_eq!(MatchResultRole::parse(":taker").unwrap(), MatchResultRole::Taker);
    assert_eq!(":sell-limit".parse::<OrderAction>().unwrap(), OrderAction::SellLimit);
    assert_eq!(":submitted".parse::<OrderState>().unwrap(), OrderState::Submitted);
    assert_eq!(":maker".parse::<MatchResultRole>().unwrap(), MatchResultRole::Maker);
}

#[test]
fn unknown_keywords_are_reported() {
    assert_eq!(OrderAction::parse("sell-limit").unwrap_err(), "unknown order-action: sell-limit");
    assert_eq!(OrderState::parse("").unwrap_err(), "unknown order-state: ");
    assert_eq!(MatchResultRole::parse(":other").unwrap_err(), "unknown order-state: :other");
}

#[test]
fn ids_are_read_as_u64() {
    assert_eq!(parse_id("42").unwrap(), 42);
    assert_eq!(parse_id("+0").unwrap(), 0);
    assert_eq!(parse_id("").unwrap_err(), "cannot parse integer from empty string");
    assert_eq!(parse_id("+").unwrap_err(), "invalid digit found in string");
    assert_eq!(parse_id("99999999999999999999x").unwrap_err(), "number too large to fit in target type");
    assert_eq!(parse_id("1 ").unwrap_err(), "invalid digit found in string");
}

#[test]
fn match_record_is_read() {
    let m = MatchResult::parse(
        "(:role :taker :order-id 1 :action :buy-market :price \"0.0\" :state :canceled :unfilled-amount \"5086.1743187523466\")",
    )
    .unwrap();
    assert_eq!(m.role, MatchResultRole::Taker);
    assert_eq!(m.id, 1);
    assert_eq!(m.action, OrderAction::BuyMarket);
    assert!(m.price == d("0"));
    assert_eq!(m.state, OrderState::Canceled);
    assert!(m.amount == d("5086.1743187523466"));
}

#[test]
fn match_record_errors() {
    assert_eq!(MatchResult::parse("(:role :maker)").unwrap_err(), "malformd input: :role :maker");
    let bad_role = "(:role :boss :order-id 1 :action :buy-market :price \"0\" :state :canceled :unfilled-amount \"1\")";
    assert_eq!(MatchResult::parse(bad_role).unwrap_err(), "unknown order-state: :boss");
    let bad_amount = "(:role :maker :order-id 1 :action :buy-limit :price \"0\" :state :filled :filled-amount \"1.2.3\")";
    assert!(MatchResult::parse(bad_amount).is_err());
}

#[test]
fn line_of_results_is_read() {
    let v = MatchResult::from_line(RESULT_LINE.to_string()).unwrap();
    assert_eq!(v.len(), 2);
    assert_eq!(v[0].role, MatchResultRole::Maker);
    assert_eq!(v[0].id, 10);
    assert_eq!(v[0].action, OrderAction::BuyLimit);
    assert!(v[0].price == d("12545.2998023810023"));
    assert_eq!(v[0].state, OrderState::Filled);
    assert!(v[0].amount == d("822.4578316348483"));
    assert_eq!(v[1].role, MatchResultRole::Taker);
    assert_eq!(v[1].id, 18);
    assert_eq!(v[1].action, OrderAction::SellLimit);
    assert_eq!(v[1].state, OrderState::PartialFilled);
    assert!(v[1].amount == d("4001.5522105302251"));
}

#[test]
fn checked_line_of_results() {
    let v = MatchResult::checked_from_line(RESULT_LINE.to_string()).unwrap();
    assert_eq!(v.len(), 2);
    let single = "((:role :taker :order-id 1 :action :buy-market :price \"0.0\" :state :canceled :unfilled-amount \"5\"))";
    assert_eq!(MatchResult::checked_from_line(single.to_string()).unwrap().len(), 1);
    let broken = "((:role :maker :order-id 10) (:role :taker :order-id 18 :action :sell-limit :price \"1\" :state :filled :unfilled-amount \"0\"))";
    assert_eq!(MatchResult::checked_from_line(broken.to_string()).unwrap_err(), "malformd input: :role :maker :order-id 10");
}

#[test]
fn floor_cuts_toward_zero() {
    assert!(floor_with_prec(&d("1.23456789"), 2) == d("1.23"));
    assert!(floor_with_prec(&d("-1.239"), 2) == d("-1.23"));
    assert!(floor_with_prec(&d("7"), 18) == d("7"));
    assert!(floor_with_prec(&d("0.0000000000000000019"), 18) == d("0.000000000000000001"));
    assert!(floor_with_prec(&d("123.9"), 0) == d("123"));
}

#[test]
fn floor_laws_on_examples() {
    // sign symmetry
    assert!(floor_with_prec(&d("-2.71828"), 3) == d("-2.718"));
    assert!(floor_with_prec(&d("2.71828"), 3) == d("2.718"));
    // flooring twice cuts no further
    let once = floor_with_prec(&d("3.14159"), 2);
    assert!(floor_with_prec(&once, 2) == once);
    // monotone
    assert!(compare(&floor_with_prec(&d("1.119"), 2), &floor_with_prec(&d("1.12"), 2)) != Comparison::Greater);
    // a negative number is cut toward zero
    assert!(floor_with_prec(&d("-0.009"), 2) == d("0"));
}

#[test]
fn floor_of_a_long_number_rounds_in_the_division_and_stays_odd() {
    // 10^109 + 7.7 cut to one digit: the division by 10 keeps 110 digits and
    // rounds the last one, so the result is 10^109 + 8
    let x = format!("1{}7.7", "0".repeat(108));
    let r = floor_with_prec(&d(&x), 1);
    assert!(r == d(&format!("1{}8", "0".repeat(108))));
    let neg = floor_with_prec(&d(&format!("-{}", x)), 1);
    assert!(neg == d(&format!("-1{}8", "0".repeat(108))));
    assert!(neg.negative && !r.negative);
    assert_eq!(neg.digits, r.digits);
    assert_eq!(neg.scale, r.scale);
}

#[test]
fn projected_amount_by_a_price_of_one_is_normalized() {
    let mut o = rec(1, OrderAction::SellLimit, "1");
    o.unfilled_amount = d("2.50");
    let p = o.projected_amount();
    assert_eq!(p.digits, vec![25]);
    assert_eq!(p.scale, 1);
}

#[test]
fn action_predicates() {
    assert!(OrderAction::SellLimit.is_selling() && OrderAction::SellLimit.is_limited());
    assert!(OrderAction::SellMarket.is_selling() && OrderAction::SellMarket.is_market());
    assert!(OrderAction::BuyLimit.is_buying() && OrderAction::BuyLimit.is_limited());
    assert!(OrderAction::BuyMarket.is_buying() && OrderAction::BuyMarket.is_market());
    assert!(!OrderAction::BuyLimit.is_selling() && !OrderAction::SellMarket.is_limited());
}

fn rec(id: u64, action: OrderAction, price: &str) -> OrderRec {
    OrderRec { id, action, price: d(price), amount: d("1"), unfilled_amount: d("1"), state: OrderState::Submitted }
}

#[test]
fn orders_compare_by_price_then_age() {
    let a = rec(1, OrderAction::SellLimit, "10");
    let b = rec(2, OrderAction::SellLimit, "10.0");
    let c = rec(3, OrderAction::SellLimit, "9");
    assert_eq!(a.cmp(&b), Comparison::Less);
    assert_eq!(b.cmp(&a), Comparison::Greater);
    assert_eq!(c.cmp(&a), Comparison::Less);
    assert_eq!(a.cmp(&a), Comparison::Equal);
    // among bids, the older one (smaller id) is the larger
    let x = rec(1, OrderAction::BuyLimit, "10");
    let y = rec(2, OrderAction::BuyLimit, "10");
    let z = rec(3, OrderAction::BuyLimit, "11");
    assert_eq!(x.cmp(&y), Comparison::Greater);
    assert_eq!(y.cmp(&x), Comparison::Less);
    assert_eq!(z.cmp(&x), Comparison::Greater);
}

#[test]
fn orders_are_equal_by_id() {
    let a = rec(5, OrderAction::SellLimit, "10");
    let b = rec(5, OrderAction::BuyMarket, "3");
    let c = rec(6, OrderAction::SellLimit, "10");
    assert!(a == b);
    assert!(a != c);
}

#[test]
fn projected_amount_is_unfilled_times_price() {
    let mut o = rec(1, OrderAction::SellLimit, "10.5");
    o.unfilled_amount = d("2");
    assert!(o.projected_amount() == d("21"));
    assert!(o.within_limits());
}

fn result(id: u64, price: &str, amount: &str) -> MatchResult {
    MatchResult {
        role: MatchResultRole::Maker,
        id,
        action: OrderAction::SellLimit,
        price: d(price),
        state: OrderState::Filled,
        amount: d(amount),
    }
}

#[test]
fn results_are_equal_by_value() {
    assert!(result(1, "10", "5") == result(1, "10.00", "5.0"));
    assert!(result(1, "10", "5") != result(1, "10", "5.1"));
    assert!(result(1, "10", "5") != result(2, "10", "5"));
}

#[test]
fn field_checks_stop_at_the_first_difference() {
    let same = result(1, "10", "5").debug_eq(&result(1, "10.0", "5"));
    assert_eq!(
        same,
        vec![
            (MatchField::Id, true),
            (MatchField::Role, true),
            (MatchField::Action, true),
            (MatchField::Price, true),
            (MatchField::Amount, true),
            (MatchField::State, true),
        ]
    );
    let other = result(1, "10", "5").debug_eq(&result(1, "11", "5"));
    assert_eq!(
        other,
        vec![(MatchField::Id, true), (MatchField::Role, true), (MatchField::Action, true), (MatchField::Price, false)]
    );
    assert_eq!(other[3].0.name(), "price");
    assert_eq!(MatchField::State.name(), "state");
    assert_eq!(MatchField::Id.name(), "id");
}

#[test]
fn list_checks_stop_after_the_first_differing_pair() {
    let x = vec![result(1, "10", "5"), result(2, "10", "5"), result(3, "1", "1")];
    let y = vec![result(1, "10", "5"), result(4, "10", "5"), result(3, "1", "1")];
    let checks = MatchResult::debug_vec_eq(&x, &y);
    assert_eq!(checks.len(), 7);
    assert_eq!(checks[6], (MatchField::Id, false));
    assert!(checks[..6].iter().all(|c| c.1));
    let all = MatchResult::debug_vec_eq(&x, &x);
    assert_eq!(all.len(), 18);
    assert!(all.iter().all(|c| c.1));
    let short = MatchResult::debug_vec_eq(&x, &vec![]);
    assert!(short.is_empty());
}
