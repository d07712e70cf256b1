//! The sorted list of resting orders of one side of the market, kept in a
//! `skiplist::OrderedSkipList`.
//!
//! Each item of the list is a tuple `(price, key, seq, unfilled)`.  The list
//! orders its items by the tuple's lexicographic order, in which `bigdecimal`
//! compares prices and amounts by the numbers they denote.

use vstd::prelude::*;
use bigdecimal::BigDecimal;
use num_bigint::{BigInt, Sign};
use skiplist::OrderedSkipList;
use crate::decimal::{BigDec, dec_eq, dec_lt, lemma_dec_order};

verus! {

#[verifier::external_type_specification]
#[verifier::external_body]
#[verifier::reject_recursive_types(T)]
pub struct ExOrderedSkipList<T>(OrderedSkipList<T>);

#[verifier::external_type_specification]
#[verifier::external_body]
pub struct ExBigDecimal(BigDecimal);

/// The type of the items that a side of the market holds.
pub type BookItem = (BigDecimal, u64, u64, BigDecimal);

/// A resting order as the book holds it: its limit price, its priority key
/// (derived from its id), its insertion stamp and its remaining amount.
#[derive(Clone, Debug)]
pub struct Resting {
    pub price: BigDec,
    pub key: u64,
    pub seq: u64,
    pub unfilled: BigDec,
}

impl View for Resting {
    type V = ((int, int), u64, u64, (int, int));

    open spec fn view(&self) -> ((int, int), u64, u64, (int, int)) {
        (self.price@, self.key, self.seq, self.unfilled@)
    }
}

/// The items of a list, in the list's order.
pub uninterp spec fn items(l: OrderedSkipList<BookItem>) -> Seq<((int, int), u64, u64, (int, int))>;

/// The lexicographic order of items: by price, key, stamp and remaining amount,
/// comparing decimals by value.
pub open spec fn item_lt(a: ((int, int), u64, u64, (int, int)), b: ((int, int), u64, u64, (int, int))) -> bool {
    ||| dec_lt(a.0, b.0)
    ||| dec_eq(a.0, b.0) && a.1 < b.1
    ||| dec_eq(a.0, b.0) && a.1 == b.1 && a.2 < b.2
    ||| dec_eq(a.0, b.0) && a.1 == b.1 && a.2 == b.2 && dec_lt(a.3, b.3)
}

/// No item is smaller than an item before it.
pub open spec fn items_sorted(s: Seq<((int, int), u64, u64, (int, int))>) -> bool {
    forall|i: int, j: int| 0 <= i < j < s.len() ==> !item_lt(#[trigger] s[j], #[trigger] s[i])
}

/// Where the list puts a new item: before the first item that is not smaller.
pub open spec fn insertion_point(s: Seq<((int, int), u64, u64, (int, int))>, x: ((int, int), u64, u64, (int, int))) -> nat
    decreases s.len(),
{
    if s.len() == 0 {
        0
    } else if item_lt(s[0], x) {
        1 + insertion_point(s.drop_first(), x)
    } else {
        0
    }
}

/// The order of items is a strict total preorder.
pub proof fn lemma_item_order(a: ((int, int), u64, u64, (int, int)), b: ((int, int), u64, u64, (int, int)), c: ((int, int), u64, u64, (int, int)))
    ensures
        !(item_lt(a, b) && item_lt(b, a)),
        item_lt(a, b) && item_lt(b, c) ==> item_lt(a, c),
        !item_lt(b, a) && !item_lt(c, b) ==> !item_lt(c, a),
{
    lemma_dec_order(a.0, b.0, c.0);
    lemma_dec_order(b.0, c.0, a.0);
    lemma_dec_order(c.0, a.0, b.0);
    lemma_dec_order(a.3, b.3, c.3);
    lemma_dec_order(b.3, c.3, a.3);
    lemma_dec_order(c.3, a.3, b.3);
    lemma_dec_order(b.0, a.0, c.0);
    lemma_dec_order(a.0, c.0, b.0);
    lemma_dec_order(c.0, b.0, a.0);
    lemma_dec_order(b.3, a.3, c.3);
    lemma_dec_order(a.3, c.3, b.3);
    lemma_dec_order(c.3, b.3, a.3);
}

/// Every item before the insertion point is smaller than the new item, and the
/// item at the insertion point (if any) is not.
pub proof fn lemma_insertion_point(s: Seq<((int, int), u64, u64, (int, int))>, x: ((int, int), u64, u64, (int, int)))
    ensures
        insertion_point(s, x) <= s.len(),
        forall|i: int| 0 <= i < insertion_point(s, x) ==> item_lt(#[trigger] s[i], x),
        insertion_point(s, x) < s.len() ==> !item_lt(s[insertion_point(s, x) as int], x),
    decreases s.len(),
{
    if s.len() > 0 && item_lt(s[0], x) {
        lemma_insertion_point(s.drop_first(), x);
        assert forall|i: int| 0 <= i < insertion_point(s, x) implies item_lt(#[trigger] s[i], x) by {
            if i > 0 {
                assert(s[i] == s.drop_first()[i - 1]);
            }
        }
    }
}

/// Inserting at the insertion point keeps a sorted list sorted.
pub proof fn lemma_insert_sorted(s: Seq<((int, int), u64, u64, (int, int))>, x: ((int, int), u64, u64, (int, int)))
    requires
        items_sorted(s),
    ensures
        items_sorted(s.insert(insertion_point(s, x) as int, x)),
{
    lemma_insertion_point(s, x);
    let p = insertion_point(s, x) as int;
    let t = s.insert(p, x);
    assert forall|i: int, j: int| 0 <= i < j < t.len() implies !item_lt(#[trigger] t[j], #[trigger] t[i]) by {
        if j < p {
            assert(t[i] == s[i] && t[j] == s[j]);
        } else if j == p {
            assert(t[i] == s[i] && t[j] == x);
            lemma_item_order(s[i], x, x);
        } else if i == p {
            assert(t[j] == s[j - 1] && t[i] == x);
            if j - 1 > p {
                lemma_item_order(x, s[p], s[j - 1]);
            }
        } else if i < p {
            assert(t[i] == s[i] && t[j] == s[j - 1]);
        } else {
            assert(t[i] == s[i - 1] && t[j] == s[j - 1]);
        }
    }
}

/// `OrderedSkipList::with_capacity`: an empty list.
#[verifier::external_body]
pub fn new_list(capacity: usize) -> (l: OrderedSkipList<BookItem>)
    ensures
        items(l) == Seq::<((int, int), u64, u64, (int, int))>::empty(),
{
    OrderedSkipList::with_capacity(capacity)
}

/// `OrderedSkipList::insert`: the source walks past every item that compares
/// smaller than the new one and links it in before the next, so on a sorted
/// list the new item lands at `insertion_point`.  It panics only on the
/// list's internal consistency checks (and on items that cannot be compared,
/// which decimals and integers always can), so the call is taken not to unwind.
#[verifier::external_body]
pub fn list_insert(l: &mut OrderedSkipList<BookItem>, e: Resting)
    requires
        items_sorted(items(*old(l))),
    ensures
        items(*final(l)) == items(*old(l)).insert(insertion_point(items(*old(l)), e@) as int, e@),
    no_unwind
{
    let p = BigDecimal::new(BigInt::from_slice(if e.price.negative { Sign::Minus } else { Sign::Plus }, &e.price.digits), e.price.scale);
    let u = BigDecimal::new(BigInt::from_slice(if e.unfilled.negative { Sign::Minus } else { Sign::Plus }, &e.unfilled.digits), e.unfilled.scale);
    l.insert((p, e.key, e.seq, u));
}

/// `OrderedSkipList::front`: the first item, handed out as plain values.
#[verifier::external_body]
pub fn list_front(l: &OrderedSkipList<BookItem>) -> (r: Option<Resting>)
    ensures
        r is None <==> items(*l).len() == 0,
        r is Some ==> r.unwrap()@ == items(*l)[0],
{
    match l.front() {
        Some(e) => {
            let (pm, ps) = e.0.as_bigint_and_exponent();
            let (um, us) = e.3.as_bigint_and_exponent();
            let ((pg, pd), (ug, ud)) = (pm.to_u32_digits(), um.to_u32_digits());
            Some(Resting {
                price: BigDec { negative: match pg { Sign::Minus => true, Sign::NoSign => false, Sign::Plus => false }, digits: pd, scale: ps },
                key: e.1, seq: e.2,
                unfilled: BigDec { negative: match ug { Sign::Minus => true, Sign::NoSign => false, Sign::Plus => false }, digits: ud, scale: us },
            })
        },
        None => None,
    }
}

/// `OrderedSkipList::back`: the last item, handed out as plain values.
#[verifier::external_body]
pub fn list_back(l: &OrderedSkipList<BookItem>) -> (r: Option<Resting>)
    ensures
        r is None <==> items(*l).len() == 0,
        r is Some ==> r.unwrap()@ == items(*l).last(),
{
    match l.back() {
        Some(e) => {
            let (pm, ps) = e.0.as_bigint_and_exponent();
            let (um, us) = e.3.as_bigint_and_exponent();
            let ((pg, pd), (ug, ud)) = (pm.to_u32_digits(), um.to_u32_digits());
            Some(Resting {
                price: BigDec { negative: match pg { Sign::Minus => true, Sign::NoSign => false, Sign::Plus => false }, digits: pd, scale: ps },
                key: e.1, seq: e.2,
                unfilled: BigDec { negative: match ug { Sign::Minus => true, Sign::NoSign => false, Sign::Plus => false }, digits: ud, scale: us },
            })
        },
        None => None,
    }
}

/// `OrderedSkipList::pop_front`: removes and hands out the first item.  The
/// source removes index 0 only when the list is not empty, so the call is
/// taken not to unwind.
#[verifier::external_body]
pub fn list_pop_front(l: &mut OrderedSkipList<BookItem>) -> (r: Option<Resting>)
    ensures
        r is None <==> items(*old(l)).len() == 0,
        r is None ==> items(*final(l)) == items(*old(l)),
        r is Some ==> r.unwrap()@ == items(*old(l))[0] && items(*final(l)) == items(*old(l)).drop_first(),
    no_unwind
{
    match l.pop_front() {
        Some((p, key, seq, u)) => {
            let ((pm, ps), (um, us)) = (p.into_bigint_and_exponent(), u.into_bigint_and_exponent());
            let ((pg, pd), (ug, ud)) = (pm.to_u32_digits(), um.to_u32_digits());
            Some(Resting {
                price: BigDec { negative: match pg { Sign::Minus => true, Sign::NoSign => false, Sign::Plus => false }, digits: pd, scale: ps },
                key, seq,
                unfilled: BigDec { negative: match ug { Sign::Minus => true, Sign::NoSign => false, Sign::Plus => false }, digits: ud, scale: us },
            })
        },
        None => None,
    }
}

/// `OrderedSkipList::pop_back`: removes and hands out the last item.  The
/// source removes the last index only when the list is not empty, so the call
/// is taken not to unwind.
#[verifier::external_body]
pub fn list_pop_back(l: &mut OrderedSkipList<BookItem>) -> (r: Option<Resting>)
    ensures
        r is None <==> items(*old(l)).len() == 0,
        r is None ==> items(*final(l)) == items(*old(l)),
        r is Some ==> r.unwrap()@ == items(*old(l)).last() && items(*final(l)) == items(*old(l)).drop_last(),
    no_unwind
{
    match l.pop_back() {
        Some((p, key, seq, u)) => {
            let ((pm, ps), (um, us)) = (p.into_bigint_and_exponent(), u.into_bigint_and_exponent());
            let ((pg, pd), (ug, ud)) = (pm.to_u32_digits(), um.to_u32_digits());
            Some(Resting {
                price: BigDec { negative: match pg { Sign::Minus => true, Sign::NoSign => false, Sign::Plus => false }, digits: pd, scale: ps },
                key, seq,
                unfilled: BigDec { negative: match ug { Sign::Minus => true, Sign::NoSign => false, Sign::Plus => false }, digits: ud, scale: us },
            })
        },
        None => None,
    }
}

} // verus!
