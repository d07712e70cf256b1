//! Orders, match results and the decimal helpers they use.

use vstd::prelude::*;
use vstd::string::StrSliceExecFns;
use crate::text::{
    IntError, chars_of, int_error_text, parse_u64, range_is, skip_leading, skip_trailing,
    split_by, split_ranges, trim_end, trim_start, u64_parse,
};
use crate::decimal::{
    BigDec, Comparison, SCALE_LIMIT, abs, value_below, compare, multiply, quick_one, ref_product, dec_den, dec_num, scaled, short_quotient, dec_eq, dec_lt, divide, limbs_value, parse_decimal, parsed_decimal, pow10, integer_part, quotient, scale_within,
    truncated,
};

verus! {

/// The decimal `10^prec`, written as `BigDecimal::new(10, 1 - prec)`.
pub open spec fn ten_to(prec: int) -> (int, int) {
    (10, 1 - prec)
}

/// What `floor_with_prec` returns: `x * 10^prec`, cut to its integer part,
/// divided by `10^prec` again.
pub open spec fn floor_spec(x: (int, int), prec: int) -> (int, int) {
    quotient((truncated(ref_product(x, ten_to(prec))), 0), ten_to(prec))
}

/// The integer part (rounded toward zero) of `x * 10^prec`.
pub open spec fn shifted_trunc(x: (int, int), prec: int) -> int {
    truncated((x.0, x.1 - prec))
}

/// `x` cut to `prec` digits after the point, toward zero: the integer part of
/// `x * 10^prec`, times `10^-prec`.
pub open spec fn floored(x: (int, int), prec: int) -> (int, int) {
    (shifted_trunc(x, prec), prec)
}

/// `x * 10^prec`, as `bigdecimal` multiplies `x` by `ten_to(prec)`, denotes the
/// decimal `(x.0, x.1 - prec)`; so its integer part is `shifted_trunc(x, prec)`.
proof fn lemma_shift_product(x: (int, int), prec: int, b: (int, int))
    requires
        b.1 <= x.1 + 1 - prec || b.1 <= x.1 || b.1 <= 1 - prec || b.1 == 0,
        dec_num(b) * (dec_den(x) * dec_den(ten_to(prec))) == dec_num(x) * dec_num(ten_to(prec)) * dec_den(b),
    ensures
        truncated(b) == shifted_trunc(x, prec),
{
    let k = (if x.1 >= 0 { x.1 } else { -x.1 }) + (if prec >= 0 { prec } else { -prec }) + 1;
    let y = (x.0, x.1 - prec);
    crate::decimal::lemma_scaled_product(x, ten_to(prec), b, k);
    assert(pow10((k + prec) as nat) == 10 * pow10((k + prec - 1) as nat));
    crate::decimal::lemma_pow10_add((k - x.1) as nat, (k + prec) as nat);
    assert(scaled(x, k) * scaled(ten_to(prec), k) == scaled(y, 2 * k)) by (nonlinear_arith)
        requires
            scaled(x, k) == x.0 * pow10((k - x.1) as nat),
            scaled(ten_to(prec), k) == 10 * pow10((k + prec - 1) as nat),
            10 * pow10((k + prec - 1) as nat) == pow10((k + prec) as nat),
            pow10((k - x.1 + k + prec) as nat) == pow10((k - x.1) as nat) * pow10((k + prec) as nat),
            scaled(y, 2 * k) == x.0 * pow10((2 * k - (x.1 - prec)) as nat),
            (2 * k - (x.1 - prec)) as nat == (k - x.1 + k + prec) as nat,
    ;
    crate::decimal::lemma_scaled_order(b, y, 2 * k);
    crate::decimal::lemma_truncated_value(b, y);
}

/// Flooring depends only on the value: decimals that denote the same number
/// floor to the same decimal.
pub proof fn lemma_floor_spec_value(x: (int, int), y: (int, int), prec: int)
    requires
        dec_eq(x, y),
    ensures
        floor_spec(x, prec) == floor_spec(y, prec),
{
    crate::decimal::lemma_ref_product_value(x, ten_to(prec));
    crate::decimal::lemma_ref_product_value(y, ten_to(prec));
    crate::decimal::lemma_normalized_scale(x);
    crate::decimal::lemma_normalized_scale(y);
    crate::decimal::lemma_normalized_scale(ten_to(prec));
    lemma_shift_product(x, prec, ref_product(x, ten_to(prec)));
    lemma_shift_product(y, prec, ref_product(y, ten_to(prec)));
    super::laws::lemma_shifted_trunc_value(x, y, prec);
}

/// `(t, prec)` is the exact quotient of the integer `t` by `10^prec`.
proof fn lemma_shift_quotient(t: int, prec: int)
    requires
        -pow10(100) < t < pow10(100),
    ensures
        short_quotient((t, 0), ten_to(prec), (t, prec)),
{
    let q = (t, prec);
    let a = ten_to(prec);
    if prec >= 1 {
        assert(pow10(prec as nat) == 10 * pow10((prec - 1) as nat));
        assert(dec_num(a) == 10 * pow10((prec - 1) as nat));
        assert(dec_num(q) * dec_num(a) * 1 == t * 1 * pow10(prec as nat)) by (nonlinear_arith)
            requires
                dec_num(q) == t,
                dec_num(a) == pow10(prec as nat),
        ;
    } else {
        assert(pow10((1 - prec) as nat) == 10 * pow10((-prec) as nat));
        assert(dec_num(q) * dec_num(a) * 1 == t * 1 * dec_den(a)) by (nonlinear_arith)
            requires
                dec_num(q) == t * pow10((-prec) as nat),
                dec_num(a) == 10,
                dec_den(a) == 10 * pow10((-prec) as nat),
        ;
    }
}

/// Cuts `x` to `prec` digits after the point, rounding toward zero.  The
/// value is exact whenever the digits kept number at most 100 (beyond that
/// `bigdecimal`'s division rounds); on every input, cutting `-x` gives the
/// negation of the result.
pub fn floor_with_prec(x: &BigDec, prec: i64) -> (r: BigDec)
    requires
        scale_within(x@, SCALE_LIMIT as int),
        -SCALE_LIMIT <= 1 - prec <= SCALE_LIMIT,
        prec == 0 ==> -pow10(0x1000_0000_0000_0000) < x@.0 < pow10(0x1000_0000_0000_0000),
    ensures
        r@ == floor_spec(x@, prec as int),
        r@.1 == 0 || prec - 1 <= r@.1 <= prec + 101,
        -pow10(100) < shifted_trunc(x@, prec as int) < pow10(100) ==> dec_eq(r@, floored(x@, prec as int)),
        forall|n: nat| #[trigger] value_below(x@, n) && prec >= 0 ==> abs(r@.0) <= pow10(n + prec as nat) + pow10(100),
        floor_spec((-x@.0, x@.1), prec as int) == (-r@.0, r@.1),
{
    let mut ten: Vec<u32> = Vec::new();
    ten.push(10u32);
    let a = BigDec { negative: false, digits: ten, scale: 1 - prec };
    assert(a@ == ten_to(prec as int)) by {
        assert(a.digits@.drop_first() =~= Seq::<u32>::empty());
        assert(limbs_value(a.digits@.drop_first()) == 0);
    }
    proof {
        assert(pow10(2) == 100) by {
            reveal_with_fuel(pow10, 3);
        }
        crate::decimal::lemma_pow10_monotone(2, 0x1000_0000_0000_0000);
        if quick_one(a@) && prec != 0 {
            assert(pow10(0) == 1 && pow10(2) == 100) by {
                reveal_with_fuel(pow10, 3);
            }
            if 1 - prec >= 2 {
                crate::decimal::lemma_pow10_monotone(2, (1 - prec) as nat);
            }
        }
    }
    let b = multiply(x, &a);
    proof {
        crate::decimal::lemma_normalized_scale(x@);
        crate::decimal::lemma_normalized_scale(a@);
    }
    let c = integer_part(&b).unwrap();
    assert(-pow10(2) < 10 < pow10(2)) by {
        reveal_with_fuel(pow10, 3);
    }
    proof {
        lemma_shift_product(x@, prec as int, b@);
        if -pow10(100) < shifted_trunc(x@, prec as int) < pow10(100) {
            lemma_shift_quotient(shifted_trunc(x@, prec as int), prec as int);
        }
    }
    let r = divide(&c, &a);
    proof {
        let nx = (-x@.0, x@.1);
        crate::decimal::lemma_ref_product_value(nx, a@);
        crate::decimal::lemma_normalized_scale(nx);
        lemma_shift_product(nx, prec as int, ref_product(nx, a@));
        super::laws::law_floor_sign_symmetric(x@, prec as int);
        assert(floor_spec(nx, prec as int) == quotient((-c@.0, c@.1), a@));
    }
    proof {
        assert forall|n: nat| #[trigger] value_below(x@, n) && prec >= 0 implies abs(r@.0) <= pow10(n + prec as nat) + pow10(100) by {
            let y = (x@.0, x@.1 - prec);
            crate::decimal::lemma_value_below_shift(x@, prec as nat, n);
            crate::decimal::lemma_truncated_tdiv(y);
            crate::decimal::lemma_den_positive(y);
            crate::decimal::lemma_tdiv_bound(dec_num(y), dec_den(y), pow10(n + prec as nat));
        }
    }
    r
}

//(:order-id 98636 :action :sell-limit :price "10383.31316488943776" :amount "4590.912099969064" :unfilled-amount "4590.912099969064" :state :submitted)
/// What an order asks for.
#[derive(PartialEq, Eq, Structural, Clone, Copy, Debug)]
pub enum OrderAction {
    SellLimit,
    SellMarket,
    BuyLimit,
    BuyMarket,
}

impl OrderAction {
    pub open spec fn sells(self) -> bool {
        self is SellLimit || self is SellMarket
    }

    pub open spec fn limited(self) -> bool {
        self is SellLimit || self is BuyLimit
    }

    pub fn is_selling(&self) -> (r: bool)
        ensures
            r == self.sells(),
    {
        match self {
            OrderAction::SellLimit => true,
            OrderAction::SellMarket => true,
            OrderAction::BuyLimit => false,
            OrderAction::BuyMarket => false,
        }
    }

    pub fn is_buying(&self) -> (r: bool)
        ensures
            r == !self.sells(),
    {
        !self.is_selling()
    }

    pub fn is_limited(&self) -> (r: bool)
        ensures
            r == self.limited(),
    {
        match self {
            OrderAction::SellLimit => true,
            OrderAction::SellMarket => false,
            OrderAction::BuyLimit => true,
            OrderAction::BuyMarket => false,
        }
    }

    pub fn is_market(&self) -> (r: bool)
        ensures
            r == !self.limited(),
    {
        !self.is_limited()
    }
}

/// Where an order stands.
#[derive(PartialEq, Eq, Structural, Clone, Copy, Debug)]
pub enum OrderState {
    Canceled,
    Submitted,
    PartialFilled,
    PartialCanceled,
    Filled,
}

/// An order: its id, what it asks for, its limit price, its amount and what is
/// left of it, and its state.
#[derive(Clone, Debug)]
pub struct OrderRec {
    pub id: u64,
    pub action: OrderAction,
    pub price: BigDec,
    pub amount: BigDec,
    pub unfilled_amount: BigDec,
    pub state: OrderState,
}

impl OrderRec {
    /// What is left of the order, priced: `unfilled_amount * price`.
    pub fn projected_amount(&self) -> (r: BigDec)
        requires
            scale_within(self.unfilled_amount@, SCALE_LIMIT as int),
            scale_within(self.price@, SCALE_LIMIT as int),
            quick_one(self.price@) ==> -pow10(0x1000_0000_0000_0000) < self.unfilled_amount@.0 < pow10(0x1000_0000_0000_0000),
            quick_one(self.unfilled_amount@) ==> -pow10(0x1000_0000_0000_0000) < self.price@.0 < pow10(0x1000_0000_0000_0000),
        ensures
            r@ == ref_product(self.unfilled_amount@, self.price@),
    {
        multiply(&self.unfilled_amount, &self.price)
    }
}

/// The side of a match that a result reports.
#[derive(PartialEq, Eq, Structural, Clone, Copy, Debug)]
pub enum MatchResultRole {
    Taker,
    Maker,
}

/// One line of the report of a match: an order that took part, its state
/// afterwards, and the amount filled (for a maker) or left (for the taker).
#[derive(Clone, Debug)]
pub struct MatchResult {
    pub role: MatchResultRole,
    pub id: u64,
    pub action: OrderAction,
    pub price: BigDec,
    pub state: OrderState,
    pub amount: BigDec,
}

/// An order as plain values.
pub struct OrderView {
    pub id: u64,
    pub action: OrderAction,
    pub price: (int, int),
    pub amount: (int, int),
    pub unfilled: (int, int),
    pub state: OrderState,
}

impl View for OrderRec {
    type V = OrderView;

    open spec fn view(&self) -> OrderView {
        OrderView {
            id: self.id,
            action: self.action,
            price: self.price@,
            amount: self.amount@,
            unfilled: self.unfilled_amount@,
            state: self.state,
        }
    }
}

/// A match result as plain values.
pub struct MatchView {
    pub role: MatchResultRole,
    pub id: u64,
    pub action: OrderAction,
    pub price: (int, int),
    pub state: OrderState,
    pub amount: (int, int),
}

impl View for MatchResult {
    type V = MatchView;

    open spec fn view(&self) -> MatchView {
        MatchView {
            role: self.role,
            id: self.id,
            action: self.action,
            price: self.price@,
            state: self.state,
            amount: self.amount@,
        }
    }
}

/// The plain values of a sequence of match results.
pub open spec fn match_views(s: Seq<MatchResult>) -> Seq<MatchView> {
    s.map_values(|m: MatchResult| m@)
}


/// The text of a record without its surrounding parentheses.
pub open spec fn record_text(s: Seq<char>) -> Seq<char> {
    trim_end(trim_start(s, '('), ')')
}

/// The space-separated fields of a record.
pub open spec fn record_fields(s: Seq<char>) -> Seq<Seq<char>> {
    split_by(record_text(s), seq![' '])
}

/// The decimal in a field, read without its surrounding double quotes.
pub open spec fn quoted_decimal(f: Seq<char>) -> Result<(int, int), Seq<char>> {
    parsed_decimal(trim_end(trim_start(f, '"'), '"'))
}

/// What `OrderAction::from_str` gives for a text.
pub open spec fn action_parse(f: Seq<char>) -> Result<OrderAction, Seq<char>> {
    if f == ":sell-limit"@ {
        Ok(OrderAction::SellLimit)
    } else if f == ":buy-limit"@ {
        Ok(OrderAction::BuyLimit)
    } else if f == ":sell-market"@ {
        Ok(OrderAction::SellMarket)
    } else if f == ":buy-market"@ {
        Ok(OrderAction::BuyMarket)
    } else {
        Err("unknown order-action: "@ + f)
    }
}

/// What `OrderState::from_str` gives for a text.
pub open spec fn state_parse(f: Seq<char>) -> Result<OrderState, Seq<char>> {
    if f == ":canceled"@ {
        Ok(OrderState::Canceled)
    } else if f == ":submitted"@ {
        Ok(OrderState::Submitted)
    } else if f == ":partial-filled"@ {
        Ok(OrderState::PartialFilled)
    } else if f == ":partial-canceled"@ {
        Ok(OrderState::PartialCanceled)
    } else if f == ":filled"@ {
        Ok(OrderState::Filled)
    } else {
        Err("unknown order-state: "@ + f)
    }
}

/// What `MatchResultRole::from_str` gives for a text.
pub open spec fn role_parse(f: Seq<char>) -> Result<MatchResultRole, Seq<char>> {
    if f == ":maker"@ {
        Ok(MatchResultRole::Maker)
    } else if f == ":taker"@ {
        Ok(MatchResultRole::Taker)
    } else {
        Err("unknown order-state: "@ + f)
    }
}

/// What `u64::from_str` gives for a field, with its error as text.
pub open spec fn id_parse(f: Seq<char>) -> Result<u64, Seq<char>> {
    match u64_parse(f) {
        Ok(v) => Ok(v),
        Err(e) => Err(int_error_text(e)),
    }
}

impl OrderAction {
    /// Reads an action from its keyword (`:sell-limit`, `:buy-limit`,
    /// `:sell-market`, `:buy-market`).
    pub fn parse(s: &str) -> (r: Result<OrderAction, String>)
        ensures
            r is Ok <==> action_parse(s@) is Ok,
            r is Ok ==> action_parse(s@) == Ok::<OrderAction, Seq<char>>(r.unwrap()),
            r is Err ==> action_parse(s@) == Err::<OrderAction, Seq<char>>(r->Err_0@),
    {
        let cs = chars_of(s);
        assert(cs@.subrange(0, cs@.len() as int) =~= s@);
        if range_is(&cs, 0, cs.len(), ":sell-limit") {
            Ok(OrderAction::SellLimit)
        } else if range_is(&cs, 0, cs.len(), ":buy-limit") {
            Ok(OrderAction::BuyLimit)
        } else if range_is(&cs, 0, cs.len(), ":sell-market") {
            Ok(OrderAction::SellMarket)
        } else if range_is(&cs, 0, cs.len(), ":buy-market") {
            Ok(OrderAction::BuyMarket)
        } else {
            let mut m = String::from_str("unknown order-action: ");
            m.append(s);
            Err(m)
        }
    }
}

impl OrderState {
    /// Reads a state from its keyword (`:canceled`, `:submitted`,
    /// `:partial-filled`, `:partial-canceled`, `:filled`).
    pub fn parse(s: &str) -> (r: Result<OrderState, String>)
        ensures
            r is Ok <==> state_parse(s@) is Ok,
            r is Ok ==> state_parse(s@) == Ok::<OrderState, Seq<char>>(r.unwrap()),
            r is Err ==> state_parse(s@) == Err::<OrderState, Seq<char>>(r->Err_0@),
    {
        let cs = chars_of(s);
        assert(cs@.subrange(0, cs@.len() as int) =~= s@);
        if range_is(&cs, 0, cs.len(), ":canceled") {
            Ok(OrderState::Canceled)
        } else if range_is(&cs, 0, cs.len(), ":submitted") {
            Ok(OrderState::Submitted)
        } else if range_is(&cs, 0, cs.len(), ":partial-filled") {
            Ok(OrderState::PartialFilled)
        } else if range_is(&cs, 0, cs.len(), ":partial-canceled") {
            Ok(OrderState::PartialCanceled)
        } else if range_is(&cs, 0, cs.len(), ":filled") {
            Ok(OrderState::Filled)
        } else {
            let mut m = String::from_str("unknown order-state: ");
            m.append(s);
            Err(m)
        }
    }
}

impl MatchResultRole {
    /// Reads a role from its keyword (`:maker`, `:taker`).
    pub fn parse(s: &str) -> (r: Result<MatchResultRole, String>)
        ensures
            r is Ok <==> role_parse(s@) is Ok,
            r is Ok ==> role_parse(s@) == Ok::<MatchResultRole, Seq<char>>(r.unwrap()),
            r is Err ==> role_parse(s@) == Err::<MatchResultRole, Seq<char>>(r->Err_0@),
    {
        let cs = chars_of(s);
        assert(cs@.subrange(0, cs@.len() as int) =~= s@);
        if range_is(&cs, 0, cs.len(), ":maker") {
            Ok(MatchResultRole::Maker)
        } else if range_is(&cs, 0, cs.len(), ":taker") {
            Ok(MatchResultRole::Taker)
        } else {
            let mut m = String::from_str("unknown order-state: ");
            m.append(s);
            Err(m)
        }
    }
}

/// Reads an id as `u64::from_str` does, with its error as text.
pub fn parse_id(s: &str) -> (r: Result<u64, String>)
    ensures
        r is Ok <==> id_parse(s@) is Ok,
        r is Ok ==> id_parse(s@) == Ok::<u64, Seq<char>>(r.unwrap()),
        r is Err ==> id_parse(s@) == Err::<u64, Seq<char>>(r->Err_0@),
{
    let cs = chars_of(s);
    assert(cs@.subrange(0, cs@.len() as int) =~= s@);
    match parse_u64(&cs, 0, cs.len()) {
        Ok(v) => Ok(v),
        Err(e) => Err(e.text()),
    }
}

/// Reads a decimal, dropping the double quotes around it.
pub fn parse_quoted_decimal(s: &str) -> (r: Result<BigDec, String>)
    ensures
        r is Ok <==> quoted_decimal(s@) is Ok,
        r is Ok ==> quoted_decimal(s@) == Ok::<(int, int), Seq<char>>(r.unwrap()@),
        r is Err ==> quoted_decimal(s@) == Err::<(int, int), Seq<char>>(r->Err_0@),
{
    let cs = chars_of(s);
    assert(cs@.subrange(0, cs@.len() as int) =~= s@);
    let b = skip_leading(&cs, 0, cs.len(), '"');
    let e = skip_trailing(&cs, b, cs.len(), '"');
    let t = s.substring_char(b, e);
    assert(t@ == trim_end(trim_start(s@, '"'), '"')) by {
        assert(cs@.subrange(b as int, cs@.len() as int).subrange(0, e - b) =~= cs@.subrange(b as int, e as int));
    }
    parse_decimal(t)
}


/// What `OrderRec::from_str` gives for a line: the order, or the text of the
/// first error.
#[verifier::opaque]
pub open spec fn order_parse(s: Seq<char>) -> Result<OrderView, Seq<char>> {
    let f = record_fields(s);
    if f.len() != 12 {
        Err("malformd input: "@ + record_text(s))
    } else {
        match id_parse(f[1]) {
            Err(m) => Err(m),
            Ok(id) => match action_parse(f[3]) {
                Err(m) => Err(m),
                Ok(action) => match quoted_decimal(f[5]) {
                    Err(m) => Err(m),
                    Ok(price) => match quoted_decimal(f[7]) {
                        Err(m) => Err(m),
                        Ok(amount) => match quoted_decimal(f[9]) {
                            Err(m) => Err(m),
                            Ok(unfilled) => match state_parse(f[11]) {
                                Err(m) => Err(m),
                                Ok(state) => Ok(OrderView { id, action, price, amount, unfilled, state }),
                            },
                        },
                    },
                },
            },
        }
    }
}

/// What `MatchResult::from_str` gives for a line: the result, or the text of
/// the first error.
#[verifier::opaque]
pub open spec fn match_parse(s: Seq<char>) -> Result<MatchView, Seq<char>> {
    let f = record_fields(s);
    if f.len() != 12 {
        Err("malformd input: "@ + record_text(s))
    } else {
        match role_parse(f[1]) {
            Err(m) => Err(m),
            Ok(role) => match id_parse(f[3]) {
                Err(m) => Err(m),
                Ok(id) => match action_parse(f[5]) {
                    Err(m) => Err(m),
                    Ok(action) => match quoted_decimal(f[7]) {
                        Err(m) => Err(m),
                        Ok(price) => match state_parse(f[9]) {
                            Err(m) => Err(m),
                            Ok(state) => match quoted_decimal(f[11]) {
                                Err(m) => Err(m),
                                Ok(amount) => Ok(MatchView { role, id, action, price, state, amount }),
                            },
                        },
                    },
                },
            },
        }
    }
}

/// The ranges of the fields of a record, and the record's text without
/// its parentheses.
fn record_ranges(s: &str, cs: &Vec<char>) -> (r: (Vec<(usize, usize)>, usize, usize))
    requires
        cs@ == s@,
    ensures
        r.1 <= r.2 <= s@.len(),
        s@.subrange(r.1 as int, r.2 as int) == record_text(s@),
        crate::text::pieces(s@, r.0@) == record_fields(s@),
        forall|i: int| 0 <= i < r.0@.len() ==> r.1 <= (#[trigger] r.0@[i]).0 <= r.0@[i].1 <= r.2,
{
    assert(cs@.subrange(0, cs@.len() as int) =~= s@);
    let b = skip_leading(cs, 0, cs.len(), '(');
    let e = skip_trailing(cs, b, cs.len(), ')');
    assert(cs@.subrange(b as int, cs@.len() as int).subrange(0, e - b) =~= cs@.subrange(b as int, e as int));
    let mut space: Vec<char> = Vec::new();
    space.push(' ');
    assert(space@ =~= seq![' ']);
    let parts = split_ranges(cs, b, e, &space);
    (parts, b, e)
}

impl OrderRec {
    /// Reads an order from a line such as
    /// `(:order-id 1 :action :sell-limit :price "10" :amount "2" :unfilled-amount "2" :state :submitted)`:
    /// the fields at odd positions hold the id, action, price, amount,
    /// unfilled amount and state, in that order.
    pub fn parse(s: &str) -> (r: Result<OrderRec, String>)
        ensures
            r is Ok <==> order_parse(s@) is Ok,
            r is Ok ==> order_parse(s@) == Ok::<OrderView, Seq<char>>(r.unwrap()@),
            order_parse(s@) matches Err(m) ==> r is Err && r->Err_0@ == m,
            r is Ok ==> record_fields(s@).len() == 12,
            r is Ok ==> id_parse(record_fields(s@)[1]) == Ok::<u64, Seq<char>>(r.unwrap().id),
            r is Ok ==> action_parse(record_fields(s@)[3]) == Ok::<OrderAction, Seq<char>>(r.unwrap().action),
            r is Ok ==> quoted_decimal(record_fields(s@)[5]) == Ok::<(int, int), Seq<char>>(r.unwrap().price@),
            r is Ok ==> quoted_decimal(record_fields(s@)[7]) == Ok::<(int, int), Seq<char>>(r.unwrap().amount@),
            r is Ok ==> quoted_decimal(record_fields(s@)[9]) == Ok::<(int, int), Seq<char>>(r.unwrap().unfilled_amount@),
            r is Ok ==> state_parse(record_fields(s@)[11]) == Ok::<OrderState, Seq<char>>(r.unwrap().state),
    {
        reveal(order_parse);
        reveal(match_parse);
        let cs = chars_of(s);
        let (parts, b, e) = record_ranges(s, &cs);
        let ghost f = record_fields(s@);
        if parts.len() != 12 {
            let mut m = String::from_str("malformd input: ");
            m.append(s.substring_char(b, e));
            return Err(m);
        }
        assert(forall|i: int| 0 <= i < 12 ==> #[trigger] f[i] == s@.subrange(parts@[i].0 as int, parts@[i].1 as int));
        let id = match parse_id(s.substring_char(parts[1].0, parts[1].1)) {
            Ok(v) => v,
            Err(m) => return Err(m),
        };
        let action = match OrderAction::parse(s.substring_char(parts[3].0, parts[3].1)) {
            Ok(v) => v,
            Err(m) => return Err(m),
        };
        let price = match parse_quoted_decimal(s.substring_char(parts[5].0, parts[5].1)) {
            Ok(v) => v,
            Err(m) => return Err(m),
        };
        let amount = match parse_quoted_decimal(s.substring_char(parts[7].0, parts[7].1)) {
            Ok(v) => v,
            Err(m) => return Err(m),
        };
        let unfilled_amount = match parse_quoted_decimal(s.substring_char(parts[9].0, parts[9].1)) {
            Ok(v) => v,
            Err(m) => return Err(m),
        };
        let state = match OrderState::parse(s.substring_char(parts[11].0, parts[11].1)) {
            Ok(v) => v,
            Err(m) => return Err(m),
        };
        Ok(OrderRec { id, action, price, amount, unfilled_amount, state })
    }
}

impl MatchResult {
    /// Reads a match result from a line such as
    /// `(:role :maker :order-id 10 :action :buy-limit :price "12" :state :filled :filled-amount "8")`:
    /// the fields at odd positions hold the role, id, action, price, state and
    /// amount, in that order.
    pub fn parse(s: &str) -> (r: Result<MatchResult, String>)
        ensures
            r is Ok <==> match_parse(s@) is Ok,
            r is Ok ==> match_parse(s@) == Ok::<MatchView, Seq<char>>(r.unwrap()@),
            match_parse(s@) matches Err(m) ==> r is Err && r->Err_0@ == m,
            r is Ok ==> record_fields(s@).len() == 12,
            r is Ok ==> role_parse(record_fields(s@)[1]) == Ok::<MatchResultRole, Seq<char>>(r.unwrap().role),
            r is Ok ==> id_parse(record_fields(s@)[3]) == Ok::<u64, Seq<char>>(r.unwrap().id),
            r is Ok ==> action_parse(record_fields(s@)[5]) == Ok::<OrderAction, Seq<char>>(r.unwrap().action),
            r is Ok ==> quoted_decimal(record_fields(s@)[7]) == Ok::<(int, int), Seq<char>>(r.unwrap().price@),
            r is Ok ==> state_parse(record_fields(s@)[9]) == Ok::<OrderState, Seq<char>>(r.unwrap().state),
            r is Ok ==> quoted_decimal(record_fields(s@)[11]) == Ok::<(int, int), Seq<char>>(r.unwrap().amount@),
    {
        reveal(order_parse);
        reveal(match_parse);
        let cs = chars_of(s);
        let (parts, b, e) = record_ranges(s, &cs);
        let ghost f = record_fields(s@);
        if parts.len() != 12 {
            let mut m = String::from_str("malformd input: ");
            m.append(s.substring_char(b, e));
            return Err(m);
        }
        assert(forall|i: int| 0 <= i < 12 ==> #[trigger] f[i] == s@.subrange(parts@[i].0 as int, parts@[i].1 as int));
        let role = match MatchResultRole::parse(s.substring_char(parts[1].0, parts[1].1)) {
            Ok(v) => v,
            Err(m) => return Err(m),
        };
        let id = match parse_id(s.substring_char(parts[3].0, parts[3].1)) {
            Ok(v) => v,
            Err(m) => return Err(m),
        };
        let action = match OrderAction::parse(s.substring_char(parts[5].0, parts[5].1)) {
            Ok(v) => v,
            Err(m) => return Err(m),
        };
        let price = match parse_quoted_decimal(s.substring_char(parts[7].0, parts[7].1)) {
            Ok(v) => v,
            Err(m) => return Err(m),
        };
        let state = match OrderState::parse(s.substring_char(parts[9].0, parts[9].1)) {
            Ok(v) => v,
            Err(m) => return Err(m),
        };
        let amount = match parse_quoted_decimal(s.substring_char(parts[11].0, parts[11].1)) {
            Ok(v) => v,
            Err(m) => return Err(m),
        };
        Ok(MatchResult { role, id, action, price, state, amount })
    }
}


/// The records of a line of results, separated by `) (`.
pub open spec fn line_parts(s: Seq<char>) -> Seq<Seq<char>> {
    split_by(s, ") ("@)
}

/// The result read from a record that can be read.
pub open spec fn read_view(p: Seq<char>) -> MatchView {
    match_parse(p)->Ok_0
}

/// Every record of a line of results can be read.
pub open spec fn line_reads(s: Seq<char>) -> bool {
    forall|i: int| 0 <= i < line_parts(s).len() ==> (#[trigger] match_parse(line_parts(s)[i])) is Ok
}

/// The ranges of the records of a line of results.
fn line_ranges(s: &str) -> (r: Vec<(usize, usize)>)
    ensures
        crate::text::pieces(s@, r@) == line_parts(s@),
        forall|i: int| 0 <= i < r@.len() ==> (#[trigger] r@[i]).0 <= r@[i].1 <= s@.len(),
{
    let cs = chars_of(s);
    let pat = chars_of(") (");
    proof {
        reveal_strlit(") (");
    }
    assert(cs@.subrange(0, cs@.len() as int) =~= s@);
    split_ranges(&cs, 0, cs.len(), &pat)
}

impl MatchResult {
    /// Reads every result of a line: records separated by `) (`, the first
    /// opening and the last closing with extra parentheses.
    pub fn from_line(s: String) -> (r: Result<Vec<MatchResult>, String>)
        requires
            line_reads(s@),
        ensures
            r is Ok,
            match_views(r.unwrap()@) == line_parts(s@).map_values(|p: Seq<char>| read_view(p)),
    {
        let t = s.as_str();
        let ranges = line_ranges(t);
        let ghost parts = line_parts(s@);
        let mut out: Vec<MatchResult> = Vec::new();
        let mut i: usize = 0;
        while i < ranges.len()
            invariant
                t@ == s@,
                line_reads(s@),
                parts == line_parts(s@),
                crate::text::pieces(t@, ranges@) == parts,
                forall|j: int| 0 <= j < ranges@.len() ==> (#[trigger] ranges@[j]).0 <= ranges@[j].1 <= t@.len(),
                i <= ranges@.len(),
                match_views(out@) == parts.take(i as int).map_values(|p: Seq<char>| read_view(p)),
            decreases ranges.len() - i,
        {
            let piece = t.substring_char(ranges[i].0, ranges[i].1);
            assert(piece@ == parts[i as int]);
            assert(match_parse(parts[i as int]) is Ok);
            let parsed = MatchResult::parse(piece);
            let m = parsed.unwrap();
            assert(read_view(parts[i as int]) == m@);
            let ghost before = out@;
            out.push(m);
            assert(match_views(out@) =~= parts.take(i + 1).map_values(|p: Seq<char>| read_view(p))) by {
                assert(out@ == before.push(m));
                assert(match_views(before.push(m)) =~= match_views(before).push(m@));
                assert(parts.take(i + 1) =~= parts.take(i as int).push(parts[i as int]));
                assert(parts.take(i + 1).map_values(|p: Seq<char>| read_view(p))
                    =~= parts.take(i as int).map_values(|p: Seq<char>| read_view(p)).push(m@));
            }
            i = i + 1;
        }
        assert(parts.take(i as int) =~= parts);
        Ok(out)
    }

    /// Reads every result of a line, or says which record cannot be read:
    /// `from_line` where every record reads, the first failure otherwise.
    pub fn checked_from_line(s: String) -> (r: Result<Vec<MatchResult>, String>)
        ensures
            r is Ok <==> line_reads(s@),
            r is Ok ==> match_views(r.unwrap()@) == line_parts(s@).map_values(|p: Seq<char>| read_view(p)),
    {
        let t = s.as_str();
        let ranges = line_ranges(t);
        let ghost parts = line_parts(s@);
        let mut i: usize = 0;
        while i < ranges.len()
            invariant
                t@ == s@,
                parts == line_parts(s@),
                crate::text::pieces(t@, ranges@) == parts,
                forall|j: int| 0 <= j < ranges@.len() ==> (#[trigger] ranges@[j]).0 <= ranges@[j].1 <= t@.len(),
                i <= ranges@.len(),
                forall|j: int| 0 <= j < i ==> (#[trigger] match_parse(parts[j])) is Ok,
            decreases ranges.len() - i,
        {
            let piece = t.substring_char(ranges[i].0, ranges[i].1);
            assert(piece@ == parts[i as int]);
            match MatchResult::parse(piece) {
                Ok(_) => {},
                Err(m) => {
                    return Err(m);
                },
            }
            i = i + 1;
        }
        MatchResult::from_line(s)
    }
}


/// Two match results report the same thing: equal fields, with prices and
/// amounts compared by value.
pub open spec fn same_result(a: MatchView, b: MatchView) -> bool {
    &&& a.role == b.role
    &&& a.id == b.id
    &&& a.action == b.action
    &&& dec_eq(a.price, b.price)
    &&& a.state == b.state
    &&& dec_eq(a.amount, b.amount)
}

impl PartialEq for MatchResult {
    fn eq(&self, other: &MatchResult) -> (r: bool) {
        self.role == other.role && self.id == other.id && self.action == other.action
            && self.price == other.price && self.state == other.state && self.amount == other.amount
    }
}

impl vstd::std_specs::cmp::PartialEqSpecImpl for MatchResult {
    open spec fn obeys_eq_spec() -> bool {
        true
    }

    open spec fn eq_spec(&self, other: &MatchResult) -> bool {
        same_result(self@, other@)
    }
}

impl Eq for MatchResult {
}

impl PartialEq for OrderRec {
    /// Orders are the same order when their ids agree.
    fn eq(&self, other: &OrderRec) -> (r: bool) {
        self.id == other.id
    }
}

impl vstd::std_specs::cmp::PartialEqSpecImpl for OrderRec {
    open spec fn obeys_eq_spec() -> bool {
        true
    }

    open spec fn eq_spec(&self, other: &OrderRec) -> bool {
        self.id == other.id
    }
}

impl Eq for OrderRec {
}


/// The ordering of two orders of the same action: by price, then, at equal
/// prices, a sell with the smaller id first and a buy with the smaller id last.
pub open spec fn priority(a: OrderView, b: OrderView) -> Comparison {
    if dec_lt(a.price, b.price) {
        Comparison::Less
    } else if dec_lt(b.price, a.price) {
        Comparison::Greater
    } else if a.action.sells() {
        if a.id < b.id { Comparison::Less } else if a.id == b.id { Comparison::Equal } else { Comparison::Greater }
    } else {
        if b.id < a.id { Comparison::Less } else if b.id == a.id { Comparison::Equal } else { Comparison::Greater }
    }
}

impl OrderRec {
    /// Compares two orders of the same action by price, then by age.
    pub fn cmp(&self, b: &OrderRec) -> (r: Comparison)
        requires
            self.action == b.action,
        ensures
            r == priority(self@, b@),
    {
        proof {
            crate::decimal::lemma_dec_order(self.price@, b.price@, b.price@);
        }
        match compare(&self.price, &b.price) {
            Comparison::Equal => if self.action.is_selling() {
                if self.id < b.id { Comparison::Less } else if self.id == b.id { Comparison::Equal } else { Comparison::Greater }
            } else {
                if b.id < self.id { Comparison::Less } else if b.id == self.id { Comparison::Equal } else { Comparison::Greater }
            },
            x => x,
        }
    }
}

/// A field of a match result, in the order in which `debug_eq` checks them.
#[derive(PartialEq, Eq, Structural, Clone, Copy, Debug)]
pub enum MatchField {
    Id,
    Role,
    Action,
    Price,
    Amount,
    State,
}

/// The name of a field of a match result.
pub open spec fn field_name(f: MatchField) -> Seq<char> {
    match f {
        MatchField::Id => "id"@,
        MatchField::Role => "role"@,
        MatchField::Action => "action"@,
        MatchField::Price => "price"@,
        MatchField::Amount => "amount"@,
        MatchField::State => "state"@,
    }
}

impl MatchField {
    /// The field's name.
    pub fn name(&self) -> (r: &'static str)
        ensures
            r@ == field_name(*self),
    {
        match self {
            MatchField::Id => "id",
            MatchField::Role => "role",
            MatchField::Action => "action",
            MatchField::Price => "price",
            MatchField::Amount => "amount",
            MatchField::State => "state",
        }
    }
}

/// All six field checks of `a` against `b`, in order.
pub open spec fn all_field_checks(a: MatchView, b: MatchView) -> Seq<(MatchField, bool)> {
    seq![
        (MatchField::Id, a.id == b.id),
        (MatchField::Role, a.role == b.role),
        (MatchField::Action, a.action == b.action),
        (MatchField::Price, dec_eq(a.price, b.price)),
        (MatchField::Amount, dec_eq(a.amount, b.amount)),
        (MatchField::State, a.state == b.state),
    ]
}

/// Checks up to and including the first that fails.
pub open spec fn until_failure(all: Seq<(MatchField, bool)>) -> Seq<(MatchField, bool)>
    decreases all.len(),
{
    if all.len() == 0 {
        Seq::empty()
    } else if !all[0].1 {
        seq![all[0]]
    } else {
        seq![all[0]] + until_failure(all.drop_first())
    }
}

/// The field checks of `a` against `b`, in order, up to and including the
/// first that fails.
pub open spec fn field_checks(a: MatchView, b: MatchView) -> Seq<(MatchField, bool)> {
    until_failure(all_field_checks(a, b))
}

/// The checks of a list of results against another, pair by pair, stopping
/// after the first pair that differs.
pub open spec fn vec_checks(x: Seq<MatchView>, y: Seq<MatchView>) -> Seq<(MatchField, bool)>
    decreases x.len(),
{
    if x.len() == 0 || y.len() == 0 {
        Seq::empty()
    } else {
        let first = field_checks(x[0], y[0]);
        if first.last().1 {
            first + vec_checks(x.drop_first(), y.drop_first())
        } else {
            first
        }
    }
}

impl MatchResult {
    /// Checks the fields of two results one by one (id, role, action, price,
    /// amount, state) and stops at the first that differs; returns the checks
    /// made.  The results agree when every check made holds.
    pub fn debug_eq(&self, x: &Self) -> (r: Vec<(MatchField, bool)>)
        ensures
            r@ == field_checks(self@, x@),
    {
        let ghost all = all_field_checks(self@, x@);
        let checks = [
            self.id == x.id,
            self.role == x.role,
            self.action == x.action,
            self.price == x.price,
            self.amount == x.amount,
            self.state == x.state,
        ];
        let fields = [
            MatchField::Id,
            MatchField::Role,
            MatchField::Action,
            MatchField::Price,
            MatchField::Amount,
            MatchField::State,
        ];
        assert(forall|i: int| 0 <= i < 6 ==> (fields@[i], checks@[i]) == #[trigger] all[i]);
        assert(all.skip(0) =~= all);
        let mut r: Vec<(MatchField, bool)> = Vec::new();
        let mut i: usize = 0;
        while i < 6
            invariant
                i <= 6,
                all == all_field_checks(self@, x@),
                all.len() == 6,
                checks@.len() == 6,
                fields@.len() == 6,
                forall|k: int| 0 <= k < 6 ==> (fields@[k], checks@[k]) == #[trigger] all[k],
                r@ + until_failure(all.skip(i as int)) == until_failure(all),
            decreases 6 - i,
        {
            let ghost rest = all.skip(i as int);
            assert(rest[0] == all[i as int]);
            assert(rest.drop_first() =~= all.skip(i + 1));
            let ghost before = r@;
            r.push((fields[i], checks[i]));
            if !checks[i] {
                assert(until_failure(rest) == seq![all[i as int]]);
                assert(r@ =~= before + until_failure(rest));
                assert(r@ == until_failure(all));
                return r;
            }
            assert(r@ + until_failure(all.skip(i + 1)) =~= before + until_failure(rest));
            i = i + 1;
        }
        assert(all.skip(6).len() == 0);
        assert(r@ =~= until_failure(all));
        r
    }

    /// Checks two lists of results pair by pair with `debug_eq`, stopping after
    /// the first pair that differs; returns all the checks made.
    pub fn debug_vec_eq(x: &Vec<Self>, y: &Vec<Self>) -> (r: Vec<(MatchField, bool)>)
        ensures
            r@ == vec_checks(match_views(x@), match_views(y@)),
    {
        let mut r: Vec<(MatchField, bool)> = Vec::new();
        let mut i: usize = 0;
        assert(match_views(x@).skip(0) =~= match_views(x@));
        assert(match_views(y@).skip(0) =~= match_views(y@));
        while i < x.len() && i < y.len()
            invariant
                i <= x@.len(),
                i <= y@.len(),
                r@ + vec_checks(match_views(x@).skip(i as int), match_views(y@).skip(i as int))
                    == vec_checks(match_views(x@), match_views(y@)),
            decreases x.len() - i,
        {
            let c = x[i].debug_eq(&y[i]);
            let ghost xs = match_views(x@).skip(i as int);
            let ghost ys = match_views(y@).skip(i as int);
            assert(xs[0] == x@[i as int]@ && ys[0] == y@[i as int]@);
            assert(xs.drop_first() =~= match_views(x@).skip(i + 1));
            assert(ys.drop_first() =~= match_views(y@).skip(i + 1));
            assert(c@.len() > 0) by {
                let all = all_field_checks(xs[0], ys[0]);
                assert(all.len() > 0);
            }
            let ok = c[c.len() - 1].1;
            let ghost before = r@;
            let mut j: usize = 0;
            while j < c.len()
                invariant
                    j <= c@.len(),
                    r@ == before + c@.take(j as int),
                decreases c.len() - j,
            {
                r.push(c[j]);
                assert(r@ =~= before + c@.take(j + 1));
                j = j + 1;
            }
            assert(c@.take(c@.len() as int) =~= c@);
            if !ok {
                assert(vec_checks(xs, ys) == c@);
                assert(r@ =~= vec_checks(match_views(x@), match_views(y@)));
                return r;
            }
            assert(r@ + vec_checks(match_views(x@).skip(i + 1), match_views(y@).skip(i + 1))
                =~= before + vec_checks(xs, ys));
            i = i + 1;
        }
        assert(vec_checks(match_views(x@).skip(i as int), match_views(y@).skip(i as int)) == Seq::<(MatchField, bool)>::empty());
        assert(r@ =~= vec_checks(match_views(x@), match_views(y@)));
        r
    }
}



impl std::str::FromStr for OrderAction {
    type Err = String;

    fn from_str(s: &str) -> (r: Result<OrderAction, String>)
        ensures
            r is Ok <==> action_parse(s@) is Ok,
            r is Ok ==> action_parse(s@) == Ok::<OrderAction, Seq<char>>(r.unwrap()),
            r is Err ==> action_parse(s@) == Err::<OrderAction, Seq<char>>(r->Err_0@),
    {
        OrderAction::parse(s)
    }
}

impl std::str::FromStr for OrderState {
    type Err = String;

    fn from_str(s: &str) -> (r: Result<OrderState, String>)
        ensures
            r is Ok <==> state_parse(s@) is Ok,
            r is Ok ==> state_parse(s@) == Ok::<OrderState, Seq<char>>(r.unwrap()),
            r is Err ==> state_parse(s@) == Err::<OrderState, Seq<char>>(r->Err_0@),
    {
        OrderState::parse(s)
    }
}

impl std::str::FromStr for MatchResultRole {
    type Err = String;

    fn from_str(s: &str) -> (r: Result<MatchResultRole, String>)
        ensures
            r is Ok <==> role_parse(s@) is Ok,
            r is Ok ==> role_parse(s@) == Ok::<MatchResultRole, Seq<char>>(r.unwrap()),
            r is Err ==> role_parse(s@) == Err::<MatchResultRole, Seq<char>>(r->Err_0@),
    {
        MatchResultRole::parse(s)
    }
}

impl std::str::FromStr for OrderRec {
    type Err = String;

    fn from_str(s: &str) -> (r: Result<OrderRec, String>)
        ensures
            r is Ok <==> order_parse(s@) is Ok,
            r is Ok ==> order_parse(s@) == Ok::<OrderView, Seq<char>>(r.unwrap()@),
            order_parse(s@) matches Err(m) ==> r is Err && r->Err_0@ == m,
            r is Ok ==> record_fields(s@).len() == 12,
            r is Ok ==> id_parse(record_fields(s@)[1]) == Ok::<u64, Seq<char>>(r.unwrap().id),
            r is Ok ==> action_parse(record_fields(s@)[3]) == Ok::<OrderAction, Seq<char>>(r.unwrap().action),
            r is Ok ==> quoted_decimal(record_fields(s@)[5]) == Ok::<(int, int), Seq<char>>(r.unwrap().price@),
            r is Ok ==> quoted_decimal(record_fields(s@)[7]) == Ok::<(int, int), Seq<char>>(r.unwrap().amount@),
            r is Ok ==> quoted_decimal(record_fields(s@)[9]) == Ok::<(int, int), Seq<char>>(r.unwrap().unfilled_amount@),
            r is Ok ==> state_parse(record_fields(s@)[11]) == Ok::<OrderState, Seq<char>>(r.unwrap().state),
    {
        OrderRec::parse(s)
    }
}

impl std::str::FromStr for MatchResult {
    type Err = String;

    fn from_str(s: &str) -> (r: Result<MatchResult, String>)
        ensures
            r is Ok <==> match_parse(s@) is Ok,
            r is Ok ==> match_parse(s@) == Ok::<MatchView, Seq<char>>(r.unwrap()@),
            match_parse(s@) matches Err(m) ==> r is Err && r->Err_0@ == m,
            r is Ok ==> record_fields(s@).len() == 12,
            r is Ok ==> role_parse(record_fields(s@)[1]) == Ok::<MatchResultRole, Seq<char>>(r.unwrap().role),
            r is Ok ==> id_parse(record_fields(s@)[3]) == Ok::<u64, Seq<char>>(r.unwrap().id),
            r is Ok ==> action_parse(record_fields(s@)[5]) == Ok::<OrderAction, Seq<char>>(r.unwrap().action),
            r is Ok ==> quoted_decimal(record_fields(s@)[7]) == Ok::<(int, int), Seq<char>>(r.unwrap().price@),
            r is Ok ==> state_parse(record_fields(s@)[9]) == Ok::<OrderState, Seq<char>>(r.unwrap().state),
            r is Ok ==> quoted_decimal(record_fields(s@)[11]) == Ok::<(int, int), Seq<char>>(r.unwrap().amount@),
    {
        MatchResult::parse(s)
    }
}


impl OrderRec {
    /// The order's price and amount fit the exchange's bounds: scales within
    /// `±2^56`, and a price and an amount of at most `2^50` limbs each (which
    /// keeps their mantissas below `10^(2^56)`).
    pub fn within_limits(&self) -> (r: bool)
        ensures
            r == (scale_within(self.price@, super::sane_limit()) && scale_within(self.unfilled_amount@, super::sane_limit())
                && self.price.digits@.len() <= 0x4_0000_0000_0000
                && self.unfilled_amount.digits@.len() <= 0x4_0000_0000_0000),
            r ==> super::order_sane(self@),
    {
        let lim: i64 = 0x100_0000_0000_0000;
        let ok = -lim <= self.price.scale && self.price.scale <= lim && -lim <= self.unfilled_amount.scale
            && self.unfilled_amount.scale <= lim && (self.price.digits.len() as u64) <= 0x4_0000_0000_0000u64
            && (self.unfilled_amount.digits.len() as u64) <= 0x4_0000_0000_0000u64;
        proof {
            if ok {
                crate::decimal::lemma_limbs_bound(self.price.digits@);
                crate::decimal::lemma_pow10_monotone(10 * self.price.digits@.len(), super::sane_limit() as nat);
                crate::decimal::lemma_limbs_bound(self.unfilled_amount.digits@);
                crate::decimal::lemma_pow10_monotone(10 * self.unfilled_amount.digits@.len(), super::sane_limit() as nat);
            }
        }
        ok
    }
}

} // verus!
