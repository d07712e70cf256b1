# rustex

An order-matching engine for one market, written in Verus.

Orders arrive one at a time as lines such as

    (:order-id 1 :action :sell-limit :price "10" :amount "2" :unfilled-amount "2" :state :submitted)

and are matched against the resting orders of the opposite side, best price
first and, at one price, oldest (smallest id) first.  Each match is reported
as a line of results, one per resting order that traded, followed by the
result of the incoming order.  What is left of a limit order rests on its own
side; what is left of a market order is canceled.  A market buy's amount is
money: it is spent at the makers' prices.

Prices and amounts are exact decimals computed by the `bigdecimal` crate; each
side of the market is a `skiplist::OrderedSkipList`.

## Layout

- `src/decimal.rs`: decimals as plain values, and the calls into `bigdecimal`.
- `src/book.rs`: the sorted list of one side, and the calls into `skiplist`.
- `src/rustex.rs`: the exchange and `process`, whose contract gives the results
  and the book after each order exactly.
- `src/rustex/records.rs`: orders and match results, and reading them from text.
- `src/rustex/laws.rs`: what matching guarantees, proved: the book never
  crosses, limit prices are respected, makers come best price first and, at
  one price, oldest first, the report has one taker line at its end, and what
  rests is what the report says is left, and flooring is odd, idempotent and
  monotone (flooring is exact, and these laws carry over to it, while the
  digits kept number at most 100; cutting `-x` gives minus the result on every
  input).  Conservation of the traded amount, and that amounts on the book stay
  above zero (for a market buy, wherever its division is exact), are part of
  `process`'s contract.
- `src/text.rs`: the text helpers the readers use.
- `app/main.rs`: replays `data/in.dat` and compares with `data/out.dat`.
