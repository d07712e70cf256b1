//! Arbitrary-precision decimals held as plain values.
//!
//! A `BigDec` is the sign-magnitude form of a `bigdecimal::BigDecimal`:
//! the value is `(-1)^negative * digits * 10^(-scale)`, where `digits` is a
//! little-endian sequence of base-2^32 limbs.  All arithmetic is carried out
//! by the `bigdecimal` crate; the functions of this module convert to and from
//! its type around each call.

use vstd::prelude::*;
use bigdecimal::BigDecimal;
use num_bigint::{BigInt, Sign, ToBigInt};
use std::cmp::Ordering;

verus! {

/// Largest magnitude of a scale that the arithmetic wrappers accept.
pub const SCALE_LIMIT: i64 = 0x1000_0000_0000_0000;

/// Value of a little-endian sequence of base-2^32 limbs.
pub open spec fn limbs_value(s: Seq<u32>) -> nat
    decreases s.len(),
{
    if s.len() == 0 {
        0
    } else {
        s[0] as nat + 0x1_0000_0000 * limbs_value(s.drop_first())
    }
}

/// `10^n`.
pub open spec fn pow10(n: nat) -> int
    decreases n,
{
    if n == 0 {
        1
    } else {
        10 * pow10((n - 1) as nat)
    }
}

/// A decimal in sign-magnitude form: `(-1)^negative * limbs_value(digits) * 10^(-scale)`.
#[derive(Clone, Debug)]
pub struct BigDec {
    pub negative: bool,
    pub digits: Vec<u32>,
    pub scale: i64,
}

impl View for BigDec {
    /// The pair (mantissa, scale) of the decimal.
    type V = (int, int);

    open spec fn view(&self) -> (int, int) {
        (
            if self.negative {
                -limbs_value(self.digits@)
            } else {
                limbs_value(self.digits@) as int
            },
            self.scale as int,
        )
    }
}

/// Numerator of the value of a decimal `(m, s)` over the denominator `dec_den`.
pub open spec fn dec_num(d: (int, int)) -> int {
    if d.1 >= 0 {
        d.0
    } else {
        d.0 * pow10((-d.1) as nat)
    }
}

/// Denominator (a positive power of ten) of the value of a decimal `(m, s)`.
pub open spec fn dec_den(d: (int, int)) -> int {
    if d.1 >= 0 {
        pow10(d.1 as nat)
    } else {
        1
    }
}

/// The value of `a` is less than the value of `b`.
pub open spec fn dec_lt(a: (int, int), b: (int, int)) -> bool {
    dec_num(a) * dec_den(b) < dec_num(b) * dec_den(a)
}

/// `a` and `b` denote the same number.
pub open spec fn dec_eq(a: (int, int), b: (int, int)) -> bool {
    dec_num(a) * dec_den(b) == dec_num(b) * dec_den(a)
}

/// The value of `a` is at most the value of `b`.
pub open spec fn dec_le(a: (int, int), b: (int, int)) -> bool {
    dec_num(a) * dec_den(b) <= dec_num(b) * dec_den(a)
}

/// The scale of a decimal lies within `[-limit, limit]`.
pub open spec fn scale_within(d: (int, int), limit: int) -> bool {
    -limit <= d.1 <= limit
}

/// The decimal zero, written with scale 0.
pub open spec fn dec_zero() -> (int, int) {
    (0, 0)
}

/// Integer part of a decimal, rounded toward zero.
pub open spec fn truncated(d: (int, int)) -> int {
    if d.1 >= 0 {
        if d.0 >= 0 {
            d.0 / pow10(d.1 as nat)
        } else {
            -((-d.0) / pow10(d.1 as nat))
        }
    } else {
        d.0 * pow10((-d.1) as nat)
    }
}

/// Every power of ten is positive.
pub proof fn lemma_pow10_positive(n: nat)
    ensures
        pow10(n) > 0,
    decreases n,
{
    if n > 0 {
        lemma_pow10_positive((n - 1) as nat);
    }
}

/// The denominator of a decimal's value is positive.
pub proof fn lemma_den_positive(d: (int, int))
    ensures
        dec_den(d) > 0,
{
    if d.1 >= 0 {
        lemma_pow10_positive(d.1 as nat);
    }
}

proof fn lemma_cross_order(na: int, da: int, nb: int, db: int, nc: int, dc: int)
    by (nonlinear_arith)
    requires
        da > 0,
        db > 0,
        dc > 0,
    ensures
        na * db < nb * da && nb * dc < nc * db ==> na * dc < nc * da,
        na * db < nb * da && nb * dc == nc * db ==> na * dc < nc * da,
        na * db == nb * da && nb * dc < nc * db ==> na * dc < nc * da,
        na * db == nb * da && nb * dc == nc * db ==> na * dc == nc * da,
{
}

/// Comparison of decimals by value is a total order: exactly one of `<`, `=`,
/// `>` holds, and each chain of `<` and `=` is transitive.
pub proof fn lemma_dec_order(a: (int, int), b: (int, int), c: (int, int))
    ensures
        dec_lt(a, b) || dec_eq(a, b) || dec_lt(b, a),
        !(dec_lt(a, b) && dec_eq(a, b)),
        !(dec_lt(a, b) && dec_lt(b, a)),
        dec_eq(a, b) == dec_eq(b, a),
        dec_eq(a, a),
        dec_le(a, b) == (dec_lt(a, b) || dec_eq(a, b)),
        dec_lt(a, b) && dec_lt(b, c) ==> dec_lt(a, c),
        dec_lt(a, b) && dec_eq(b, c) ==> dec_lt(a, c),
        dec_eq(a, b) && dec_lt(b, c) ==> dec_lt(a, c),
        dec_eq(a, b) && dec_eq(b, c) ==> dec_eq(a, c),
{
    lemma_den_positive(a);
    lemma_den_positive(b);
    lemma_den_positive(c);
    lemma_cross_order(dec_num(a), dec_den(a), dec_num(b), dec_den(b), dec_num(c), dec_den(c));
}

/// A product with a factor of mantissa zero denotes zero.
pub proof fn lemma_product_with_zero(a: (int, int), b: (int, int), r: (int, int))
    requires
        b.0 == 0,
        dec_num(r) * (dec_den(a) * dec_den(b)) == dec_num(a) * dec_num(b) * dec_den(r),
    ensures
        dec_num(r) == 0,
{
    lemma_den_positive(a);
    lemma_den_positive(b);
    assert(dec_num(b) == 0) by (nonlinear_arith)
        requires
            b.0 == 0,
            dec_num(b) == (if b.1 >= 0 { b.0 } else { b.0 * pow10((-b.1) as nat) }),
    ;
    assert(dec_num(r) == 0) by (nonlinear_arith)
        requires
            dec_num(r) * (dec_den(a) * dec_den(b)) == dec_num(a) * dec_num(b) * dec_den(r),
            dec_num(b) == 0,
            dec_den(a) > 0,
            dec_den(b) > 0,
    ;
}

/// Subtracting a number that denotes zero keeps the sign.
pub proof fn lemma_difference_with_zero(a: (int, int), b: (int, int), r: (int, int))
    requires
        dec_num(b) == 0,
        dec_num(r) * (dec_den(a) * dec_den(b)) == (dec_num(a) * dec_den(b) - dec_num(b) * dec_den(a))
            * dec_den(r),
    ensures
        dec_num(r) < 0 <==> dec_num(a) < 0,
        dec_num(r) > 0 <==> dec_num(a) > 0,
{
    lemma_den_positive(a);
    lemma_den_positive(b);
    lemma_den_positive(r);
    assert(dec_num(r) < 0 <==> dec_num(a) < 0) by (nonlinear_arith)
        requires
            dec_num(r) * (dec_den(a) * dec_den(b)) == dec_num(a) * dec_den(b) * dec_den(r),
            dec_den(a) > 0,
            dec_den(b) > 0,
            dec_den(r) > 0,
    ;
    assert(dec_num(r) > 0 <==> dec_num(a) > 0) by (nonlinear_arith)
        requires
            dec_num(r) * (dec_den(a) * dec_den(b)) == dec_num(a) * dec_den(b) * dec_den(r),
            dec_den(a) > 0,
            dec_den(b) > 0,
            dec_den(r) > 0,
    ;
}

/// `10^(a + b) == 10^a * 10^b`.
pub proof fn lemma_pow10_add(a: nat, b: nat)
    ensures
        pow10(a + b) == pow10(a) * pow10(b),
    decreases a,
{
    if a > 0 {
        lemma_pow10_add((a - 1) as nat, b);
        let x = pow10((a - 1) as nat);
        let y = pow10(b);
        assert(pow10(a + b) == 10 * pow10((a - 1 + b) as nat));
        assert(pow10((a - 1 + b) as nat) == x * y);
        assert(pow10(a) == 10 * x);
        assert((10 * x) * y == 10 * (x * y)) by (nonlinear_arith);
    }
}

/// The value of a decimal times `10^k`, an integer when its scale is at most `k`.
pub open spec fn scaled(d: (int, int), k: int) -> int {
    d.0 * pow10((k - d.1) as nat)
}

/// `scaled(d, k)` is the value of `d` times `10^k`.
pub proof fn lemma_scaled(d: (int, int), k: int)
    requires
        d.1 <= k,
        0 <= k,
    ensures
        scaled(d, k) * dec_den(d) == dec_num(d) * pow10(k as nat),
{
    if d.1 >= 0 {
        lemma_pow10_add((k - d.1) as nat, d.1 as nat);
        assert(scaled(d, k) * dec_den(d) == d.0 * (pow10((k - d.1) as nat) * pow10(d.1 as nat))) by (nonlinear_arith)
            requires
                scaled(d, k) == d.0 * pow10((k - d.1) as nat),
                dec_den(d) == pow10(d.1 as nat),
        ;
    } else {
        lemma_pow10_add((-d.1) as nat, k as nat);
        assert(d.0 * pow10((k - d.1) as nat) == d.0 * pow10((-d.1) as nat) * pow10(k as nat)) by (nonlinear_arith)
            requires
                pow10((k - d.1) as nat) == pow10((-d.1) as nat) * pow10(k as nat),
        ;
    }
}

/// Scaled to a common power of ten, a difference is the difference of the scaled operands.
pub proof fn lemma_scaled_difference(a: (int, int), b: (int, int), r: (int, int), k: int)
    requires
        a.1 <= k,
        b.1 <= k,
        r.1 <= k,
        0 <= k,
        dec_num(r) * (dec_den(a) * dec_den(b)) == (dec_num(a) * dec_den(b) - dec_num(b) * dec_den(a))
            * dec_den(r),
    ensures
        scaled(r, k) == scaled(a, k) - scaled(b, k),
{
    lemma_scaled(a, k);
    lemma_scaled(b, k);
    lemma_scaled(r, k);
    lemma_den_positive(a);
    lemma_den_positive(b);
    lemma_den_positive(r);
    let (sa, sb, sr) = (scaled(a, k), scaled(b, k), scaled(r, k));
    let (da, db, dr) = (dec_den(a), dec_den(b), dec_den(r));
    let (na, nb, nr) = (dec_num(a), dec_num(b), dec_num(r));
    let p = pow10(k as nat);
    assert(sr * (dr * da * db) == (sr * dr) * (da * db)) by (nonlinear_arith);
    assert((nr * p) * (da * db) == p * (nr * (da * db))) by (nonlinear_arith);
    let (x, y) = (na * db, nb * da);
    assert(p * ((x - y) * dr) == p * x * dr - p * y * dr) by (nonlinear_arith);
    assert(p * (na * db) * dr == dr * db * (na * p)) by (nonlinear_arith);
    assert(p * (nb * da) * dr == dr * da * (nb * p)) by (nonlinear_arith);
    assert(dr * db * (sa * da) - dr * da * (sb * db) == (sa - sb) * (dr * da * db)) by (nonlinear_arith);
    assert(sr * (dr * da * db) == (sa - sb) * (dr * da * db));
    assert(dr * da * db > 0) by (nonlinear_arith)
        requires
            dr > 0,
            da > 0,
            db > 0,
    ;
    assert((dr * da * db) * sr == (dr * da * db) * (sa - sb)) by (nonlinear_arith)
        requires
            sr * (dr * da * db) == (sa - sb) * (dr * da * db),
    ;
    vstd::arithmetic::mul::lemma_mul_equality_converse(dr * da * db, sr, sa - sb);
}

/// Scaled to twice a common power of ten, a product is the product of the
/// operands scaled once.
pub proof fn lemma_scaled_product(a: (int, int), b: (int, int), r: (int, int), k: int)
    requires
        a.1 <= k,
        b.1 <= k,
        r.1 <= 2 * k,
        0 <= k,
        dec_num(r) * (dec_den(a) * dec_den(b)) == dec_num(a) * dec_num(b) * dec_den(r),
    ensures
        scaled(r, 2 * k) == scaled(a, k) * scaled(b, k),
{
    lemma_scaled(a, k);
    lemma_scaled(b, k);
    lemma_scaled(r, 2 * k);
    lemma_pow10_add(k as nat, k as nat);
    lemma_den_positive(a);
    lemma_den_positive(b);
    lemma_den_positive(r);
    let (sa, sb, sr) = (scaled(a, k), scaled(b, k), scaled(r, 2 * k));
    let (da, db, dr) = (dec_den(a), dec_den(b), dec_den(r));
    let (na, nb, nr) = (dec_num(a), dec_num(b), dec_num(r));
    let p = pow10(k as nat);
    assert(sr * (dr * da * db) == (sr * dr) * (da * db)) by (nonlinear_arith);
    assert((nr * (p * p)) * (da * db) == (p * p) * (nr * (da * db))) by (nonlinear_arith);
    assert((p * p) * (na * nb * dr) == dr * ((na * p) * (nb * p))) by (nonlinear_arith);
    assert(dr * ((sa * da) * (sb * db)) == (sa * sb) * (dr * da * db)) by (nonlinear_arith);
    assert(sr * (dr * da * db) == (sa * sb) * (dr * da * db));
    assert(dr * da * db > 0) by (nonlinear_arith)
        requires
            dr > 0,
            da > 0,
            db > 0,
    ;
    assert((dr * da * db) * sr == (dr * da * db) * (sa * sb)) by (nonlinear_arith)
        requires
            sr * (dr * da * db) == (sa * sb) * (dr * da * db),
    ;
    vstd::arithmetic::mul::lemma_mul_equality_converse(dr * da * db, sr, sa * sb);
}

/// A decimal that denotes zero scales to zero.
pub proof fn lemma_scaled_zero(u: (int, int), k: int)
    requires
        dec_eq(u, dec_zero()),
    ensures
        scaled(u, k) == 0,
{
    lemma_den_positive(u);
    assert(dec_num(u) == 0);
    if u.1 < 0 {
        lemma_pow10_positive((-u.1) as nat);
        assert(u.0 == 0) by (nonlinear_arith)
            requires
                u.0 * pow10((-u.1) as nat) == 0,
                pow10((-u.1) as nat) > 0,
        ;
    }
}

/// Powers of ten grow with the exponent.
pub proof fn lemma_pow10_monotone(a: nat, b: nat)
    requires
        a <= b,
    ensures
        pow10(a) <= pow10(b),
{
    lemma_pow10_add(a, (b - a) as nat);
    lemma_pow10_positive(a);
    lemma_pow10_positive((b - a) as nat);
    assert(pow10(a) * pow10((b - a) as nat) >= pow10(a)) by (nonlinear_arith)
        requires
            pow10(a) > 0,
            pow10((b - a) as nat) >= 1,
    ;
}

/// A number of `n` limbs has fewer than `10 * n` decimal digits.
pub proof fn lemma_limbs_bound(s: Seq<u32>)
    ensures
        limbs_value(s) < pow10(10 * s.len()),
    decreases s.len(),
{
    if s.len() > 0 {
        let n = s.len();
        lemma_limbs_bound(s.drop_first());
        let r = limbs_value(s.drop_first());
        let q = pow10((10 * (n - 1)) as nat);
        lemma_pow10_add(10, (10 * (n - 1)) as nat);
        assert(pow10(10) == 10_000_000_000) by {
            reveal_with_fuel(pow10, 11);
        }
        assert((10 + 10 * (n - 1)) as nat == 10 * n);
        assert(s[0] as nat + 0x1_0000_0000 * r < 10_000_000_000 * q) by (nonlinear_arith)
            requires
                r < q,
                s[0] < 0x1_0000_0000,
                r >= 0,
        ;
    }
}

/// A decimal denotes zero exactly when its mantissa is zero.
pub proof fn lemma_zero_value(d: (int, int))
    ensures
        dec_eq(d, dec_zero()) <==> d.0 == 0,
        dec_lt(d, dec_zero()) <==> d.0 < 0,
        dec_lt(dec_zero(), d) <==> d.0 > 0,
{
    lemma_den_positive(d);
    if d.1 < 0 {
        lemma_pow10_positive((-d.1) as nat);
        assert(d.0 == 0 <==> d.0 * pow10((-d.1) as nat) == 0) by (nonlinear_arith)
            requires
                pow10((-d.1) as nat) > 0,
        ;
        assert(d.0 < 0 <==> d.0 * pow10((-d.1) as nat) < 0) by (nonlinear_arith)
            requires
                pow10((-d.1) as nat) > 0,
        ;
        assert(d.0 > 0 <==> d.0 * pow10((-d.1) as nat) > 0) by (nonlinear_arith)
            requires
                pow10((-d.1) as nat) > 0,
        ;
    }
}

/// `a - b` computed at the larger of the two scales.
pub open spec fn aligned_difference(a: (int, int), b: (int, int)) -> (int, int) {
    if a.1 >= b.1 {
        (a.0 - b.0 * pow10((a.1 - b.1) as nat), a.1)
    } else {
        (a.0 * pow10((b.1 - a.1) as nat) - b.0, b.1)
    }
}

/// The decimal that `bigdecimal` returns for `a - b` on owned values: `a`
/// itself when `b` is zero, `-b` when `a` is zero, and otherwise the
/// difference at the larger scale.
#[verifier::opaque]
pub open spec fn difference(a: (int, int), b: (int, int)) -> (int, int) {
    if b.0 == 0 {
        a
    } else if a.0 == 0 {
        (-b.0, b.1)
    } else {
        aligned_difference(a, b)
    }
}

/// The decimal that `bigdecimal` returns for `a / b` (rounded to its default precision).
pub uninterp spec fn quotient(a: (int, int), b: (int, int)) -> (int, int);

/// What `bigdecimal` makes of a text: the decimal it parses, or the text of
/// its error (a function of the input alone).
pub uninterp spec fn parsed_decimal(text: Seq<char>) -> Result<(int, int), Seq<char>>;

/// `q` is the exact quotient of `a` by `b`, written with a mantissa of at most
/// 100 digits.
pub open spec fn short_quotient(a: (int, int), b: (int, int), q: (int, int)) -> bool {
    &&& -pow10(100) < q.0 < pow10(100)
    &&& dec_num(q) * dec_num(b) * dec_den(a) == dec_num(a) * dec_den(q) * dec_den(b)
}

/// The absolute value of an integer.
pub open spec fn abs(n: int) -> int {
    if n >= 0 { n } else { -n }
}

/// Integer division of `n` by `k`, rounded toward zero.
pub open spec fn tdiv(n: int, k: int) -> int {
    if n >= 0 {
        n / k
    } else {
        -((-n) / k)
    }
}

/// The integer part of a decimal is its value divided toward zero.
pub proof fn lemma_truncated_tdiv(d: (int, int))
    ensures
        truncated(d) == tdiv(dec_num(d), dec_den(d)),
{
    if d.1 < 0 {
        let n = dec_num(d);
        assert(n / 1 == n);
        assert((-n) / 1 == -n);
    }
}

/// Scaling numerator and denominator by the same positive factor keeps the
/// quotient toward zero.
pub proof fn lemma_tdiv_scale(n: int, k: int, m: int)
    requires
        k > 0,
        m > 0,
    ensures
        tdiv(n, k) == tdiv(n * m, k * m),
{
    let a = if n >= 0 { n } else { -n };
    assert(a * m == if n >= 0 { n * m } else { -(n * m) }) by (nonlinear_arith)
        requires
            a == if n >= 0 { n } else { -n },
    ;
    assert(n * m >= 0 <==> n >= 0) by (nonlinear_arith)
        requires
            m > 0,
    ;
    let q = a / k;
    let r = a % k;
    vstd::arithmetic::div_mod::lemma_fundamental_div_mod(a, k);
    assert(a * m == q * (k * m) + r * m) by (nonlinear_arith)
        requires
            a == k * q + r,
    ;
    assert(0 <= r * m < k * m) by (nonlinear_arith)
        requires
            0 <= r < k,
            m > 0,
    ;
    vstd::arithmetic::div_mod::lemma_fundamental_div_mod_converse(a * m, k * m, q, r * m);
}

/// Quotients toward zero of equal ratios are equal.
pub proof fn lemma_tdiv_ratio(n1: int, k1: int, n2: int, k2: int)
    requires
        k1 > 0,
        k2 > 0,
        n1 * k2 == n2 * k1,
    ensures
        tdiv(n1, k1) == tdiv(n2, k2),
{
    lemma_tdiv_scale(n1, k1, k2);
    lemma_tdiv_scale(n2, k2, k1);
    assert(k1 * k2 == k2 * k1) by (nonlinear_arith);
}

/// Quotients toward zero grow with the numerator.
pub proof fn lemma_tdiv_monotone(n1: int, n2: int, k: int)
    requires
        k > 0,
        n1 <= n2,
    ensures
        tdiv(n1, k) <= tdiv(n2, k),
{
    if n1 >= 0 {
        vstd::arithmetic::div_mod::lemma_div_is_ordered(n1, n2, k);
    } else if n2 >= 0 {
        vstd::arithmetic::div_mod::lemma_div_pos_is_pos(-n1, k);
        vstd::arithmetic::div_mod::lemma_div_pos_is_pos(n2, k);
    } else {
        vstd::arithmetic::div_mod::lemma_div_is_ordered(-n2, -n1, k);
    }
}

/// Two decimals that denote the same number have the same integer part.
pub proof fn lemma_truncated_value(a: (int, int), b: (int, int))
    requires
        dec_eq(a, b),
    ensures
        truncated(a) == truncated(b),
{
    lemma_truncated_tdiv(a);
    lemma_truncated_tdiv(b);
    lemma_den_positive(a);
    lemma_den_positive(b);
    lemma_tdiv_ratio(dec_num(a), dec_den(a), dec_num(b), dec_den(b));
}

/// At a common power of ten that is at least both scales, decimals compare as
/// their scaled mantissas do.
pub proof fn lemma_scaled_order(a: (int, int), b: (int, int), k: int)
    requires
        a.1 <= k,
        b.1 <= k,
        0 <= k,
    ensures
        dec_le(a, b) <==> scaled(a, k) <= scaled(b, k),
        dec_eq(a, b) <==> scaled(a, k) == scaled(b, k),
{
    lemma_scaled(a, k);
    lemma_scaled(b, k);
    lemma_den_positive(a);
    lemma_den_positive(b);
    lemma_pow10_positive(k as nat);
    let (sa, sb) = (scaled(a, k), scaled(b, k));
    let (na, nb, da, db) = (dec_num(a), dec_num(b), dec_den(a), dec_den(b));
    let p = pow10(k as nat);
    assert((na * db <= nb * da) <==> (sa <= sb)) by (nonlinear_arith)
        requires
            sa * da == na * p,
            sb * db == nb * p,
            da > 0,
            db > 0,
            p > 0,
    ;
    assert((na * db == nb * da) <==> (sa == sb)) by (nonlinear_arith)
        requires
            sa * da == na * p,
            sb * db == nb * p,
            da > 0,
            db > 0,
            p > 0,
    ;
}

/// The three outcomes of comparing two numbers.
#[derive(PartialEq, Eq, Structural, Clone, Copy, Debug)]
pub enum Comparison {
    Less,
    Equal,
    Greater,
}

/// Taking a common factor out of a difference of products.
proof fn lemma_factor_out(na: int, nb: int, da: int, db: int, dr: int, p: int)
    ensures
        ((na * p) * db - (nb * p) * da) * dr == p * ((na * db - nb * da) * dr),
{
    assert((na * p) * db == p * (na * db)) by (nonlinear_arith);
    assert((nb * p) * da == p * (nb * da)) by (nonlinear_arith);
    assert(p * (na * db) - p * (nb * da) == p * (na * db - nb * da)) by (nonlinear_arith);
    assert((p * (na * db - nb * da)) * dr == p * ((na * db - nb * da) * dr)) by (nonlinear_arith);
}

/// What `a - b` returns on owned values denotes the difference of the values.
pub proof fn lemma_difference_value(a: (int, int), b: (int, int))
    ensures
        dec_num(difference(a, b)) * (dec_den(a) * dec_den(b)) == (dec_num(a) * dec_den(b) - dec_num(b) * dec_den(a))
            * dec_den(difference(a, b)),
{
    reveal(difference);
    let r = difference(a, b);
    lemma_den_positive(a);
    lemma_den_positive(b);
    lemma_den_positive(r);
    let (na, nb, nr, da, db, dr) = (dec_num(a), dec_num(b), dec_num(r), dec_den(a), dec_den(b), dec_den(r));
    if b.0 == 0 {
        lemma_zero_value(b);
        assert(nb == 0) by {
            assert(dec_num(dec_zero()) == 0 && dec_den(dec_zero()) == 1);
            assert(nb * 1 == 0 * db) by (nonlinear_arith)
                requires
                    dec_eq(b, dec_zero()),
                    dec_num(dec_zero()) == 0,
                    dec_den(dec_zero()) == 1,
                    nb == dec_num(b),
                    db == dec_den(b),
            ;
        }
        assert(nr * (da * db) == (na * db - nb * da) * dr) by (nonlinear_arith)
            requires
                nr == na,
                dr == da,
                nb == 0,
        ;
    } else if a.0 == 0 {
        lemma_zero_value(a);
        assert(na == 0) by {
            assert(dec_num(dec_zero()) == 0 && dec_den(dec_zero()) == 1);
            assert(na * 1 == 0 * da) by (nonlinear_arith)
                requires
                    dec_eq(a, dec_zero()),
                    dec_num(dec_zero()) == 0,
                    dec_den(dec_zero()) == 1,
                    na == dec_num(a),
                    da == dec_den(a),
            ;
        }
        assert(nr == -nb) by {
            if b.1 < 0 {
                assert((-b.0) * pow10((-b.1) as nat) == -(b.0 * pow10((-b.1) as nat))) by (nonlinear_arith);
            }
        }
        assert(nr * (da * db) == (na * db - nb * da) * dr) by (nonlinear_arith)
            requires
                nr == -nb,
                dr == db,
                na == 0,
        ;
    } else {
        let k: int = (if a.1 >= 0 { a.1 } else { -a.1 }) + (if b.1 >= 0 { b.1 } else { -b.1 });
        lemma_scaled(a, k);
        lemma_scaled(b, k);
        lemma_scaled(r, k);
        lemma_pow10_positive(k as nat);
        if a.1 >= b.1 {
            lemma_pow10_add((a.1 - b.1) as nat, (k - a.1) as nat);
            assert((k - b.1) as nat == (a.1 - b.1) as nat + (k - a.1) as nat);
            assert(scaled(r, k) == scaled(a, k) - scaled(b, k)) by (nonlinear_arith)
                requires
                    scaled(r, k) == (a.0 - b.0 * pow10((a.1 - b.1) as nat)) * pow10((k - a.1) as nat),
                    scaled(a, k) == a.0 * pow10((k - a.1) as nat),
                    scaled(b, k) == b.0 * pow10(((a.1 - b.1) as nat + (k - a.1) as nat) as nat),
                    pow10(((a.1 - b.1) as nat + (k - a.1) as nat) as nat) == pow10((a.1 - b.1) as nat) * pow10((k - a.1) as nat),
            ;
        } else {
            lemma_pow10_add((b.1 - a.1) as nat, (k - b.1) as nat);
            assert((k - a.1) as nat == (b.1 - a.1) as nat + (k - b.1) as nat);
            assert(scaled(r, k) == scaled(a, k) - scaled(b, k)) by (nonlinear_arith)
                requires
                    scaled(r, k) == (a.0 * pow10((b.1 - a.1) as nat) - b.0) * pow10((k - b.1) as nat),
                    scaled(b, k) == b.0 * pow10((k - b.1) as nat),
                    scaled(a, k) == a.0 * pow10(((b.1 - a.1) as nat + (k - b.1) as nat) as nat),
                    pow10(((b.1 - a.1) as nat + (k - b.1) as nat) as nat) == pow10((b.1 - a.1) as nat) * pow10((k - b.1) as nat),
            ;
        }
        let (sa, sb, sr, p) = (scaled(a, k), scaled(b, k), scaled(r, k), pow10(k as nat));
        assert(p * (nr * (da * db)) == (sr * dr) * (da * db)) by (nonlinear_arith)
            requires
                sr * dr == nr * p,
        ;
        assert((sr * dr) * (da * db) == ((sa * da) * db - (sb * db) * da) * dr) by (nonlinear_arith)
            requires
                sr == sa - sb,
        ;
        assert(((sa * da) * db - (sb * db) * da) * dr == ((na * p) * db - (nb * p) * da) * dr);
        lemma_factor_out(na, nb, da, db, dr, p);
        vstd::arithmetic::mul::lemma_mul_equality_converse(p, nr * (da * db), (na * db - nb * da) * dr);
    }
}

/// The decimal that `bigdecimal` returns for `&a - b`, computed as `-(b - a)`:
/// `-b` when `a` is zero, `a` when `b` is zero, and otherwise the difference
/// at the larger scale.
#[verifier::opaque]
pub open spec fn ref_difference(a: (int, int), b: (int, int)) -> (int, int) {
    if a.0 == 0 {
        (-b.0, b.1)
    } else if b.0 == 0 {
        a
    } else {
        aligned_difference(a, b)
    }
}

/// `bigdecimal`'s `Sub` of an owned value from a reference, which the source
/// computes as `-(b - a)`: exact after aligning both operands to the larger
/// scale, and an operand (or its negation) as it is when the other one is
/// zero, so the result's scale lies between the operands' scales.  The result
/// is `ref_difference`.
#[verifier::external_body]
pub fn subtract_from_ref(a: &BigDec, b: BigDec) -> (r: BigDec)
    requires
        scale_within(a@, SCALE_LIMIT as int),
        scale_within(b@, SCALE_LIMIT as int),
    ensures
        r@ == ref_difference(a@, b@),
        dec_num(r@) * (dec_den(a@) * dec_den(b@)) == (dec_num(a@) * dec_den(b@) - dec_num(b@)
            * dec_den(a@)) * dec_den(r@),
        a@.1 <= r@.1 || b@.1 <= r@.1,
        r@.1 <= a@.1 || r@.1 <= b@.1,
{
    let x = BigDecimal::new(BigInt::from_slice(if a.negative { Sign::Minus } else { Sign::Plus }, &a.digits), a.scale);
    let y = BigDecimal::new(BigInt::from_slice(if b.negative { Sign::Minus } else { Sign::Plus }, &b.digits), b.scale);
    let (m, s) = (&x - y).into_bigint_and_exponent();
    let (sign, digits) = m.to_u32_digits();
    BigDec { negative: match sign { Sign::Minus => true, Sign::NoSign => false, Sign::Plus => false }, digits, scale: s }
}

/// `bigdecimal`'s `Sub` for owned values.  The source subtracts exactly after
/// aligning both operands to the larger scale, and returns an operand as it is
/// when the other one is zero, so the result's scale lies between the operands'
/// scales.  The result is `difference`.
#[verifier::external_body]
pub fn subtract(a: &BigDec, b: &BigDec) -> (r: BigDec)
    requires
        scale_within(a@, SCALE_LIMIT as int),
        scale_within(b@, SCALE_LIMIT as int),
    ensures
        r@ == difference(a@, b@),
        dec_num(r@) * (dec_den(a@) * dec_den(b@)) == (dec_num(a@) * dec_den(b@) - dec_num(b@)
            * dec_den(a@)) * dec_den(r@),
        a@.1 <= r@.1 || b@.1 <= r@.1,
        r@.1 <= a@.1 || r@.1 <= b@.1,
{
    let x = BigDecimal::new(BigInt::from_slice(if a.negative { Sign::Minus } else { Sign::Plus }, &a.digits), a.scale);
    let y = BigDecimal::new(BigInt::from_slice(if b.negative { Sign::Minus } else { Sign::Plus }, &b.digits), b.scale);
    let (m, s) = (x - y).into_bigint_and_exponent();
    let (sign, digits) = m.to_u32_digits();
    BigDec { negative: match sign { Sign::Minus => true, Sign::NoSign => false, Sign::Plus => false }, digits, scale: s }
}

/// `bigdecimal`'s quick test for one (`is_one_quickcheck`): the value one,
/// written with a scale from 0 to 38.
pub open spec fn quick_one(d: (int, int)) -> bool {
    0 <= d.1 <= 38 && d.0 == pow10(d.1 as nat)
}

/// A decimal with the trailing zeros of its mantissa dropped and its scale
/// lowered by as many (`BigDecimal::normalized`); zero becomes `(0, 0)`.
pub open spec fn normalized(d: (int, int)) -> (int, int)
    decreases (if d.0 >= 0 { d.0 } else { -d.0 }),
{
    if d.0 == 0 {
        (0, 0)
    } else if d.0 % 10 == 0 {
        normalized((d.0 / 10, d.1 - 1))
    } else {
        d
    }
}

/// What `&a * &b` returns: the other operand normalized when one operand
/// passes the quick test for one, else the product of the mantissas at the
/// sum of the scales.
pub open spec fn ref_product(a: (int, int), b: (int, int)) -> (int, int) {
    if quick_one(a) {
        normalized(b)
    } else if quick_one(b) {
        normalized(a)
    } else {
        (a.0 * b.0, a.1 + b.1)
    }
}

/// Normalizing never raises the scale, except that zero goes to scale 0.
pub proof fn lemma_normalized_scale(d: (int, int))
    ensures
        normalized(d).1 <= d.1 || normalized(d) == (0int, 0int),
    decreases (if d.0 >= 0 { d.0 } else { -d.0 }),
{
    if d.0 != 0 && d.0 % 10 == 0 {
        lemma_normalized_scale((d.0 / 10, d.1 - 1));
    }
}

/// Normalizing keeps the value.
pub proof fn lemma_normalized_value(d: (int, int))
    ensures
        dec_eq(normalized(d), d),
    decreases (if d.0 >= 0 { d.0 } else { -d.0 }),
{
    if d.0 == 0 {
        lemma_zero_value(d);
        lemma_zero_value((0, 0));
        lemma_dec_order((0, 0), dec_zero(), d);
    } else if d.0 % 10 == 0 {
        let e = (d.0 / 10, d.1 - 1);
        lemma_normalized_value(e);
        let k: int = if d.1 >= 0 { d.1 } else { -d.1 };
        lemma_scaled_order(e, d, k);
        assert(pow10((k - e.1) as nat) == 10 * pow10((k - d.1) as nat));
        assert(scaled(e, k) == scaled(d, k)) by (nonlinear_arith)
            requires
                scaled(e, k) == (d.0 / 10) * pow10((k - e.1) as nat),
                pow10((k - e.1) as nat) == 10 * pow10((k - d.1) as nat),
                scaled(d, k) == d.0 * pow10((k - d.1) as nat),
                d.0 % 10 == 0,
                d.0 == 10 * (d.0 / 10) + d.0 % 10,
        ;
        lemma_dec_order(normalized(e), e, d);
    } else {
        lemma_dec_order(d, d, d);
    }
}

/// What `&a * &b` returns denotes the product of the values.
pub proof fn lemma_ref_product_value(a: (int, int), b: (int, int))
    ensures
        dec_num(ref_product(a, b)) * (dec_den(a) * dec_den(b)) == dec_num(a) * dec_num(b) * dec_den(ref_product(a, b)),
{
    let r = ref_product(a, b);
    lemma_den_positive(a);
    lemma_den_positive(b);
    lemma_den_positive(r);
    if quick_one(a) {
        lemma_normalized_value(b);
        assert(dec_num(a) == dec_den(a));
        assert(dec_num(r) * (dec_den(a) * dec_den(b)) == dec_num(a) * dec_num(b) * dec_den(r)) by (nonlinear_arith)
            requires
                dec_num(r) * dec_den(b) == dec_num(b) * dec_den(r),
                dec_num(a) == dec_den(a),
        ;
    } else if quick_one(b) {
        lemma_normalized_value(a);
        assert(dec_num(b) == dec_den(b));
        assert(dec_num(r) * (dec_den(a) * dec_den(b)) == dec_num(a) * dec_num(b) * dec_den(r)) by (nonlinear_arith)
            requires
                dec_num(r) * dec_den(a) == dec_num(a) * dec_den(r),
                dec_num(b) == dec_den(b),
        ;
    } else {
        let k: int = (if a.1 >= 0 { a.1 } else { -a.1 }) + (if b.1 >= 0 { b.1 } else { -b.1 });
        lemma_scaled(a, k);
        lemma_scaled(b, k);
        lemma_scaled(r, 2 * k);
        lemma_pow10_add((k - a.1) as nat, (k - b.1) as nat);
        lemma_pow10_add(k as nat, k as nat);
        lemma_pow10_positive(k as nat);
        assert((2 * k - r.1) as nat == (k - a.1) as nat + (k - b.1) as nat);
        assert(scaled(r, 2 * k) == scaled(a, k) * scaled(b, k)) by (nonlinear_arith)
            requires
                scaled(r, 2 * k) == a.0 * b.0 * pow10(((k - a.1) as nat + (k - b.1) as nat) as nat),
                pow10(((k - a.1) as nat + (k - b.1) as nat) as nat) == pow10((k - a.1) as nat) * pow10((k - b.1) as nat),
                scaled(a, k) == a.0 * pow10((k - a.1) as nat),
                scaled(b, k) == b.0 * pow10((k - b.1) as nat),
        ;
        let (sa, sb, sr) = (scaled(a, k), scaled(b, k), scaled(r, 2 * k));
        let (na, nb, nr, da, db, dr, p) = (dec_num(a), dec_num(b), dec_num(r), dec_den(a), dec_den(b), dec_den(r), pow10(k as nat));
        assert(nr * (p * p) * (da * db) == (sa * da) * (sb * db) * dr) by (nonlinear_arith)
            requires
                sr * dr == nr * (p * p),
                sr == sa * sb,
        ;
        assert((sa * da) * (sb * db) * dr == (na * p) * (nb * p) * dr);
        assert((p * p) * (nr * (da * db)) == (p * p) * (na * nb * dr)) by (nonlinear_arith)
            requires
                nr * (p * p) * (da * db) == (na * p) * (nb * p) * dr,
        ;
        assert(p * p > 0) by (nonlinear_arith)
            requires
                p > 0,
        ;
        vstd::arithmetic::mul::lemma_mul_equality_converse(p * p, nr * (da * db), na * nb * dr);
    }
}

/// Normalizing a mantissa of fewer than `n` digits lowers the scale by less
/// than `n`.
pub proof fn lemma_normalized_lower(d: (int, int), n: nat)
    requires
        -pow10(n) < d.0 < pow10(n),
    ensures
        normalized(d) == (0int, 0int) || normalized(d).1 > d.1 - n,
    decreases (if d.0 >= 0 { d.0 } else { -d.0 }),
{
    if d.0 != 0 {
        if n == 0 {
            assert(pow10(0) == 1);
        } else if d.0 % 10 == 0 {
            assert(pow10(n) == 10 * pow10((n - 1) as nat));
            assert(-pow10((n - 1) as nat) < d.0 / 10 < pow10((n - 1) as nat));
            lemma_normalized_lower((d.0 / 10, d.1 - 1), (n - 1) as nat);
        }
    }
}

/// The value of `d` is below `10^n` in magnitude.
pub open spec fn value_below(d: (int, int), n: nat) -> bool {
    abs(dec_num(d)) < pow10(n) * dec_den(d)
}

/// A mantissa below `10^w` at a scale of at least `-l` gives a value below
/// `10^(w + l)`.
pub proof fn lemma_value_below_of_mantissa(d: (int, int), w: nat, l: nat)
    requires
        -pow10(w) < d.0 < pow10(w),
        -l <= d.1,
    ensures
        value_below(d, w + l),
{
    lemma_pow10_add(w, l);
    lemma_pow10_positive(l);
    lemma_pow10_positive(w);
    if d.1 >= 0 {
        lemma_pow10_positive(d.1 as nat);
        assert(abs(d.0) < pow10(w) * pow10(l) * pow10(d.1 as nat)) by (nonlinear_arith)
            requires
                abs(d.0) < pow10(w),
                pow10(l) >= 1,
                pow10(d.1 as nat) >= 1,
        ;
    } else {
        lemma_pow10_monotone((-d.1) as nat, l);
        lemma_pow10_positive((-d.1) as nat);
        assert(abs(d.0 * pow10((-d.1) as nat)) < pow10(w) * pow10(l) * 1) by (nonlinear_arith)
            requires
                abs(d.0) < pow10(w),
                0 < pow10((-d.1) as nat) <= pow10(l),
        ;
    }
}

/// A bound on a value holds of every value between zero and it.
pub proof fn lemma_value_below_le(a: (int, int), b: (int, int), n: nat)
    requires
        dec_lt(dec_zero(), a),
        dec_le(a, b),
        value_below(b, n),
    ensures
        value_below(a, n),
{
    lemma_den_positive(a);
    lemma_den_positive(b);
    lemma_pow10_positive(n);
    assert(dec_num(dec_zero()) == 0 && dec_den(dec_zero()) == 1);
    let (na, nb, da, db, p) = (dec_num(a), dec_num(b), dec_den(a), dec_den(b), pow10(n));
    assert(abs(na) < p * da) by (nonlinear_arith)
        requires
            0 * da < na * 1,
            na * db <= nb * da,
            abs(nb) < p * db,
            da > 0,
            db > 0,
            p > 0,
    ;
}

/// A bound grows with the number of digits allowed.
pub proof fn lemma_value_below_mono(d: (int, int), n: nat, m: nat)
    requires
        value_below(d, n),
        n <= m,
    ensures
        value_below(d, m),
{
    lemma_pow10_monotone(n, m);
    lemma_den_positive(d);
    assert(pow10(n) * dec_den(d) <= pow10(m) * dec_den(d)) by (nonlinear_arith)
        requires
            pow10(n) <= pow10(m),
            dec_den(d) > 0,
    ;
}

/// Multiplying by `10^p` adds `p` digits to a bound on the value.
pub proof fn lemma_value_below_shift(x: (int, int), p: nat, n: nat)
    requires
        value_below(x, n),
    ensures
        value_below((x.0, x.1 - p), n + p),
{
    let y = (x.0, x.1 - p);
    let k: int = (if x.1 >= 0 { x.1 } else { -x.1 }) + p;
    lemma_scaled(x, k);
    lemma_scaled(y, k);
    lemma_pow10_add((k - x.1) as nat, p);
    lemma_pow10_add(n, p);
    lemma_den_positive(x);
    lemma_den_positive(y);
    lemma_pow10_positive(k as nat);
    lemma_pow10_positive(p);
    lemma_pow10_positive(n);
    assert((k - y.1) as nat == ((k - x.1) + p) as nat);
    let (nx, ny, dx, dy, pk, pp, pn) = (dec_num(x), dec_num(y), dec_den(x), dec_den(y), pow10(k as nat), pow10(p), pow10(n));
    let sx = scaled(x, k);
    assert(k - x.1 >= 0);
    assert(pow10(((k - x.1) + p) as nat) == pow10((k - x.1) as nat) * pp);
    assert(scaled(y, k) == sx * pp) by (nonlinear_arith)
        requires
            scaled(y, k) == x.0 * pow10(((k - x.1) + p) as nat),
            pow10(((k - x.1) + p) as nat) == pow10((k - x.1) as nat) * pp,
            sx == x.0 * pow10((k - x.1) as nat),
    ;
    assert(abs(ny) < pn * pp * dy) by (nonlinear_arith)
        requires
            sx * dx == nx * pk,
            (sx * pp) * dy == ny * pk,
            abs(nx) < pn * dx,
            dx > 0,
            dy > 0,
            pk > 0,
            pp > 0,
    ;
}

/// A quotient toward zero of a value below `N` is below `N`.
pub proof fn lemma_tdiv_bound(n: int, k: int, big: int)
    requires
        k > 0,
        abs(n) < big * k,
    ensures
        abs(tdiv(n, k)) < big,
{
    let a = abs(n);
    vstd::arithmetic::div_mod::lemma_fundamental_div_mod(a, k);
    assert(a / k < big) by (nonlinear_arith)
        requires
            a == k * (a / k) + a % k,
            0 <= a % k,
            a < big * k,
            k > 0,
    ;
    vstd::arithmetic::div_mod::lemma_div_pos_is_pos(a, k);
}

/// `bigdecimal`'s `Mul` for two references.  The source returns the other
/// operand's `normalized()` when one operand passes `is_one_quickcheck`, and
/// otherwise multiplies the mantissas and adds the scales; the result denotes
/// the product either way.  The operand that may be normalized has fewer than
/// 2^60 digits, so its lowered scale stays within `i64`.
#[verifier::external_body]
pub fn multiply(a: &BigDec, b: &BigDec) -> (r: BigDec)
    requires
        scale_within(a@, SCALE_LIMIT as int),
        scale_within(b@, SCALE_LIMIT as int),
        quick_one(a@) ==> -pow10(0x1000_0000_0000_0000) < b@.0 < pow10(0x1000_0000_0000_0000),
        quick_one(b@) ==> -pow10(0x1000_0000_0000_0000) < a@.0 < pow10(0x1000_0000_0000_0000),
    ensures
        r@ == ref_product(a@, b@),
        dec_num(r@) * (dec_den(a@) * dec_den(b@)) == dec_num(a@) * dec_num(b@) * dec_den(r@),
{
    let x = BigDecimal::new(BigInt::from_slice(if a.negative { Sign::Minus } else { Sign::Plus }, &a.digits), a.scale);
    let y = BigDecimal::new(BigInt::from_slice(if b.negative { Sign::Minus } else { Sign::Plus }, &b.digits), b.scale);
    let (m, s) = (&x * &y).into_bigint_and_exponent();
    let (sign, digits) = m.to_u32_digits();
    BigDec { negative: match sign { Sign::Minus => true, Sign::NoSign => false, Sign::Plus => false }, digits, scale: s }
}

/// `bigdecimal`'s `Div` for references.  It panics on a zero divisor.  The
/// source computes the quotient digit by digit and stops as soon as the
/// remainder is zero, rounding only after the crate's default precision of 100
/// digits; so a quotient that has an exact form with a mantissa of at most 100
/// digits comes out exact.  Signs are taken off before dividing and put back
/// after, so negating the dividend negates the quotient's mantissa and keeps
/// its scale.  A divisor that passes the quick test for one gives
/// the dividend back; otherwise the mantissa is at most the dividend's, or
/// below `10^100`, plus one for the rounding.  Its representation is left to
/// the name `quotient`.  The source starts from the scale `a.1 - b.1`
/// (or returns `a` as it is) and raises the scale once per digit of the divisor
/// and once per digit of precision (at most 100), which bounds the result's scale.
#[verifier::external_body]
pub fn divide(a: &BigDec, b: &BigDec) -> (r: BigDec)
    requires
        scale_within(a@, SCALE_LIMIT as int),
        scale_within(b@, SCALE_LIMIT as int),
        b@.0 != 0,
    ensures
        r@ == quotient(a@, b@),
        a@.1 - b@.1 <= r@.1 || r@.1 == a@.1,
        forall|k: nat| -#[trigger] pow10(k) < b@.0 < pow10(k) ==> r@.1 <= a@.1 - b@.1 + k + 100 || r@.1 == a@.1,
        forall|q: (int, int)| #[trigger] short_quotient(a@, b@, q) ==> dec_eq(r@, q),
        quick_one(b@) ==> r@ == a@,
        quotient((-a@.0, a@.1), b@) == (-r@.0, r@.1),
        -(abs(a@.0) + pow10(100)) <= r@.0 <= abs(a@.0) + pow10(100),
{
    let x = BigDecimal::new(BigInt::from_slice(if a.negative { Sign::Minus } else { Sign::Plus }, &a.digits), a.scale);
    let y = BigDecimal::new(BigInt::from_slice(if b.negative { Sign::Minus } else { Sign::Plus }, &b.digits), b.scale);
    let (m, s) = (&x / &y).into_bigint_and_exponent();
    let (sign, digits) = m.to_u32_digits();
    BigDec { negative: match sign { Sign::Minus => true, Sign::NoSign => false, Sign::Plus => false }, digits, scale: s }
}

/// `bigdecimal`'s `Ord::cmp`, which compares the numbers that two decimals
/// denote, whatever their scales.
#[verifier::external_body]
pub fn compare(a: &BigDec, b: &BigDec) -> (r: Comparison)
    ensures
        r == Comparison::Less <==> dec_lt(a@, b@),
        r == Comparison::Equal <==> dec_eq(a@, b@),
        r == Comparison::Greater <==> dec_lt(b@, a@),
{
    let x = BigDecimal::new(BigInt::from_slice(if a.negative { Sign::Minus } else { Sign::Plus }, &a.digits), a.scale);
    let y = BigDecimal::new(BigInt::from_slice(if b.negative { Sign::Minus } else { Sign::Plus }, &b.digits), b.scale);
    match x.cmp(&y) {
        Ordering::Less => Comparison::Less,
        Ordering::Equal => Comparison::Equal,
        Ordering::Greater => Comparison::Greater,
    }
}

/// `bigdecimal`'s `ToBigInt::to_bigint`, which always returns `Some` of the
/// mantissa at scale 0 (`with_scale(0)`): digits after the point are dropped
/// (BigInt division rounds toward zero) and a negative scale multiplies by a
/// power of ten.  The integer is handed back as a decimal of scale 0.
#[verifier::external_body]
pub fn integer_part(a: &BigDec) -> (r: Option<BigDec>)
    ensures
        r is Some,
        r.unwrap()@ == (truncated(a@), 0int),
{
    let x = BigDecimal::new(BigInt::from_slice(if a.negative { Sign::Minus } else { Sign::Plus }, &a.digits), a.scale);
    match x.to_bigint() {
        Some(m) => {
            let (sign, digits) = m.to_u32_digits();
            Some(BigDec { negative: match sign { Sign::Minus => true, Sign::NoSign => false, Sign::Plus => false }, digits, scale: 0 })
        },
        None => None,
    }
}

/// `bigdecimal`'s `FromStr`: the decimal it parses from `text`, or the text of
/// its error (`ParseBigDecimalError`'s `Display`); both are named by
/// `parsed_decimal`.
#[verifier::external_body]
pub fn parse_decimal(text: &str) -> (r: Result<BigDec, String>)
    ensures
        r is Ok <==> parsed_decimal(text@) is Ok,
        r is Ok ==> parsed_decimal(text@) == Ok::<(int, int), Seq<char>>(r.unwrap()@),
        r is Err ==> parsed_decimal(text@) == Err::<(int, int), Seq<char>>(r->Err_0@),
{
    match text.parse::<BigDecimal>() {
        Ok(x) => {
            let (m, s) = x.into_bigint_and_exponent();
            let (sign, digits) = m.to_u32_digits();
            Ok(BigDec { negative: match sign { Sign::Minus => true, Sign::NoSign => false, Sign::Plus => false }, digits, scale: s })
        },
        Err(e) => Err(format!("{}", e)),
    }
}

impl BigDec {
    /// The decimal zero (`BigDecimal::zero()`: mantissa 0, scale 0).
    pub fn zero() -> (r: BigDec)
        ensures
            r@ == dec_zero(),
    {
        BigDec { negative: false, digits: Vec::new(), scale: 0 }
    }

    /// A copy with the same mantissa and scale.
    pub fn duplicate(&self) -> (r: BigDec)
        ensures
            r@ == self@,
    {
        let digits = self.digits.clone();
        assert(digits@ =~= self.digits@);
        BigDec { negative: self.negative, digits, scale: self.scale }
    }
}


impl PartialEq for BigDec {
    /// Two decimals are equal when they denote the same number (as
    /// `BigDecimal`'s `==` decides), whatever their scales.
    fn eq(&self, other: &BigDec) -> (r: bool) {
        compare(self, other) == Comparison::Equal
    }
}

impl vstd::std_specs::cmp::PartialEqSpecImpl for BigDec {
    open spec fn obeys_eq_spec() -> bool {
        true
    }

    open spec fn eq_spec(&self, other: &BigDec) -> bool {
        dec_eq(self@, other@)
    }
}

} // verus!
