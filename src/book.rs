use vstd::prelude::*;
use crate::domain::{fresh_id, Order, Side, Trade, TradeView};

verus! {

/// Whether price `a` stands at least as well as price `b` on a book side:
/// the higher bid and the lower ask come first.
pub open spec fn at_least_as_good(side: Side, a: u64, b: u64) -> bool {
    match side {
        Side::Bid => a >= b,
        Side::Ask => a <= b,
    }
}

/// A book side in priority order: best price first, and at one price in
/// order of arrival. Every order on it is open and carries the side's tag.
pub open spec fn tidy_side(s: Seq<Order>, side: Side) -> bool {
    &&& forall|i: int, j: int|
        0 <= i < j < s.len() ==> at_least_as_good(side, #[trigger] s[i].price, #[trigger] s[j].price)
    &&& forall|i: int| 0 <= i < s.len() ==> #[trigger] s[i].qty > 0 && s[i].side == side
}

/// `new` is `old` with `o` placed at `k`: behind every order whose price is
/// at least as good, ahead of every order whose price is worse.
pub open spec fn placed_at(old: Seq<Order>, new: Seq<Order>, o: Order, k: int, side: Side) -> bool {
    &&& 0 <= k <= old.len()
    &&& new == old.take(k).push(o) + old.skip(k)
    &&& forall|i: int| 0 <= i < k ==> at_least_as_good(side, #[trigger] old[i].price, o.price)
    &&& forall|i: int| k <= i < old.len() ==> !at_least_as_good(side, #[trigger] old[i].price, o.price)
}

/// Whether an incoming order on `side` with limit `limit` may trade against a
/// resting order at `price`. A limit of zero is a market order: it trades at
/// any price.
pub open spec fn crosses(side: Side, limit: u64, price: u64) -> bool {
    match side {
        Side::Bid => limit == 0 || price <= limit,
        Side::Ask => price >= limit,
    }
}

/// The trade of `qty` units between the taker on `side` and `resting`, at the
/// resting order's price.
pub open spec fn fill_of(side: Side, taker: Seq<char>, resting: Order, qty: u64) -> TradeView {
    match side {
        Side::Bid => TradeView { buyer: taker, seller: resting.user_id@, qty, price: resting.price },
        Side::Ask => TradeView { buyer: resting.user_id@, seller: taker, qty, price: resting.price },
    }
}

/// What matching leaves: the trades made, the opposite side after them, and
/// the quantity left unfilled.
pub struct MatchOutcome {
    pub fills: Seq<TradeView>,
    pub rest: Seq<Order>,
    pub remaining: u64,
}

/// Price-time-priority matching of `qty` units on `side` with limit `limit`
/// against the opposite side `opp`, taken from its front.
pub open spec fn match_against(opp: Seq<Order>, side: Side, taker: Seq<char>, qty: u64, limit: u64) -> MatchOutcome
    decreases opp.len(),
{
    if qty == 0 || opp.len() == 0 || !crosses(side, limit, opp[0].price) {
        MatchOutcome { fills: seq![], rest: opp, remaining: qty }
    } else if qty < opp[0].qty {
        MatchOutcome {
            fills: seq![fill_of(side, taker, opp[0], qty)],
            rest: opp.update(0, Order { qty: (opp[0].qty - qty) as u64, ..opp[0] }),
            remaining: 0,
        }
    } else {
        let next = match_against(opp.drop_first(), side, taker, (qty - opp[0].qty) as u64, limit);
        MatchOutcome {
            fills: seq![fill_of(side, taker, opp[0], opp[0].qty)] + next.fills,
            rest: next.rest,
            remaining: next.remaining,
        }
    }
}

/// The terms of each trade of `v`, in order.
pub open spec fn terms(v: Seq<Trade>) -> Seq<TradeView> {
    v.map_values(|t: Trade| t@)
}

/// The side opposite to `side`.
pub open spec fn opposite(side: Side) -> Side {
    match side {
        Side::Bid => Side::Ask,
        Side::Ask => Side::Bid,
    }
}

/// One market's book: bids best (highest) first, asks best (lowest) first,
/// each in order of arrival at one price.
pub struct MarketBook {
    pub bids: Vec<Order>,
    pub asks: Vec<Order>,
}

fn crosses_at(side: Side, limit: u64, price: u64) -> (r: bool)
    ensures
        r == crosses(side, limit, price),
{
    match side {
        Side::Bid => limit == 0 || price <= limit,
        Side::Ask => price >= limit,
    }
}

fn at_least_as_good_at(side: Side, a: u64, b: u64) -> (r: bool)
    ensures
        r == at_least_as_good(side, a, b),
{
    match side {
        Side::Bid => a >= b,
        Side::Ask => a <= b,
    }
}

/// Places `o` on the tidy side `s` behind every order at a price at least as
/// good as its own.
fn rest_on(s: &mut Vec<Order>, side: Side, o: Order)
    requires
        tidy_side(old(s)@, side),
        o.qty > 0,
        o.side == side,
    ensures
        tidy_side(final(s)@, side),
        exists|k: int| placed_at(old(s)@, final(s)@, o, k, side),
{
    let mut k: usize = 0;
    while k < s.len() && at_least_as_good_at(side, s[k].price, o.price)
        invariant
            k <= s.len(),
            tidy_side(s@, side),
            forall|i: int| 0 <= i < k ==> at_least_as_good(side, #[trigger] s@[i].price, o.price),
        decreases s.len() - k,
    {
        k = k + 1;
    }
    let ghost before = s@;
    proof {
        assert forall|i: int| k <= i < before.len() implies !at_least_as_good(side, #[trigger] before[i].price, o.price) by {
            assert(at_least_as_good(side, before[k as int].price, before[i].price) || i == k);
        }
    }
    s.insert(k, o);
    assert(s@ =~= before.take(k as int).push(o) + before.skip(k as int));
    assert(placed_at(before, s@, o, k as int, side));
    proof {
        lemma_placed_tidy(before, s@, o, k as int, side);
    }
}

proof fn lemma_placed_tidy(s0: Seq<Order>, s1: Seq<Order>, o: Order, k: int, side: Side)
    requires
        tidy_side(s0, side),
        placed_at(s0, s1, o, k, side),
        o.qty > 0,
        o.side == side,
    ensures
        tidy_side(s1, side),
{
    assert forall|i: int| 0 <= i < s1.len() implies #[trigger] s1[i].qty > 0 && s1[i].side == side by {
        if i > k {
            assert(s1[i] == s0[i - 1]);
        } else if i < k {
            assert(s1[i] == s0[i]);
        }
    }
    assert forall|i: int, j: int| 0 <= i < j < s1.len() implies at_least_as_good(side, #[trigger] s1[i].price, #[trigger] s1[j].price) by {
        if i < k {
            assert(s1[i] == s0[i]);
        }
        if i > k {
            assert(s1[i] == s0[i - 1]);
        }
        if j < k {
            assert(s1[j] == s0[j]);
        }
        if j > k {
            assert(s1[j] == s0[j - 1]);
        }
    }
}

/// Trades `qty` units of the taker on `side` with limit `limit` against the
/// opposite side `opp`, best first; returns the trades and the unfilled rest.
fn match_side(opp: &mut Vec<Order>, side: Side, taker: &String, qty: u64, limit: u64) -> (r: (Vec<Trade>, u64))
    ensures
        ({
            let out = match_against(old(opp)@, side, taker@, qty, limit);
            &&& terms(r.0@) == out.fills
            &&& final(opp)@ == out.rest
            &&& r.1 == out.remaining
        }),
{
    let ghost v = opp@;
    let mut fills: Vec<Trade> = Vec::new();
    let mut remaining: u64 = qty;
    let mut i: usize = 0;
    let mut partial: bool = false;
    let mut partial_fill: u64 = 0;
    assert(v.skip(0) =~= v);
    assert(terms(fills@) + match_against(v, side, taker@, qty, limit).fills
        =~= match_against(v, side, taker@, qty, limit).fills);
    while i < opp.len() && remaining > 0 && crosses_at(side, limit, opp[i].price)
        invariant_except_break
            !partial,
            ({
                let here = match_against(v.skip(i as int), side, taker@, remaining, limit);
                match_against(v, side, taker@, qty, limit) == (MatchOutcome {
                    fills: terms(fills@) + here.fills,
                    rest: here.rest,
                    remaining: here.remaining,
                })
            }),
        invariant
            opp@ == v,
            i <= v.len(),
        ensures
            partial ==> remaining == 0 && i < v.len() && 0 < partial_fill < v[i as int].qty && match_against(v, side, taker@, qty, limit) == (MatchOutcome {
                fills: terms(fills@),
                rest: v.skip(i as int).update(0, Order { qty: (v[i as int].qty - partial_fill) as u64, ..v[i as int] }),
                remaining: 0,
            }),
            !partial ==> match_against(v, side, taker@, qty, limit) == (MatchOutcome {
                fills: terms(fills@),
                rest: v.skip(i as int),
                remaining: remaining,
            }),
        decreases v.len() - i,
    {
        let ghost tail = v.skip(i as int);
        assert(tail[0] == v[i as int]);
        let resting_qty = opp[i].qty;
        let fill: u64 = if remaining < resting_qty { remaining } else { resting_qty };
        let (buyer, seller) = match side {
            Side::Bid => (taker.clone(), opp[i].user_id.clone()),
            Side::Ask => (opp[i].user_id.clone(), taker.clone()),
        };
        let t = Trade { id: fresh_id(), buyer, seller, qty: fill, price: opp[i].price };
        let ghost before = fills@;
        fills.push(t);
        assert(terms(fills@) =~= terms(before).push(t@));
        assert(t@ == fill_of(side, taker@, tail[0], fill));
        if remaining < resting_qty {
            partial_fill = remaining;
            remaining = 0;
            partial = true;
            assert(terms(fills@) =~= terms(before) + seq![t@]);
            break;
        }
        assert(tail.drop_first() =~= v.skip(i + 1));
        remaining = remaining - resting_qty;
        i = i + 1;
        assert(terms(before) + (seq![t@] + match_against(v.skip(i as int), side, taker@, remaining, limit).fills)
            =~= terms(fills@) + match_against(v.skip(i as int), side, taker@, remaining, limit).fills);
    }
    proof {
        if !partial {
            assert(terms(fills@) + seq![] =~= terms(fills@));
        }
    }
    let mut rest = opp.split_off(i);
    assert(rest@ =~= v.skip(i as int));
    if partial {
        let mut head = rest.remove(0);
        head.qty = head.qty - partial_fill;
        rest.insert(0, head);
        assert(rest@ =~= v.skip(i as int).update(0, Order { qty: (v[i as int].qty - partial_fill) as u64, ..v[i as int] }));
    }
    *opp = rest;
    assert(opp@ == match_against(v, side, taker@, qty, limit).rest);
    assert(terms(fills@) == match_against(v, side, taker@, qty, limit).fills);
    assert(remaining == match_against(v, side, taker@, qty, limit).remaining);
    (fills, remaining)
}

/// The total quantity of a sequence of trades.
pub open spec fn filled(fills: Seq<TradeView>) -> nat
    decreases fills.len(),
{
    if fills.len() == 0 {
        0
    } else {
        fills[0].qty as nat + filled(fills.drop_first())
    }
}

/// The shape of a match: the first `fills.len()` resting orders are the ones
/// traded against, in order, each at its own price; all but the last are
/// filled whole; what is left of the opposite side is the untouched suffix
/// (its head possibly reduced); the quantities add up; and an unfilled rest
/// means the opposite side no longer crosses.
pub proof fn lemma_match_shape(opp: Seq<Order>, side: Side, taker: Seq<char>, qty: u64, limit: u64)
    requires
        tidy_side(opp, opposite(side)),
    ensures
        ({
            let out = match_against(opp, side, taker, qty, limit);
            let n = out.fills.len();
            let d = opp.len() - out.rest.len();
            &&& n <= opp.len()
            &&& 0 <= d <= n
            &&& tidy_side(out.rest, opposite(side))
            &&& forall|i: int| 0 <= i < out.rest.len() ==> (#[trigger] out.rest[i]).price == opp[i + d].price
                && out.rest[i].id == opp[i + d].id
            &&& forall|m: int| 0 <= m < n ==> #[trigger] out.fills[m] == fill_of(side, taker, opp[m], out.fills[m].qty)
            &&& forall|m: int| 0 <= m < n - 1 ==> (#[trigger] out.fills[m]).qty == opp[m].qty
            &&& forall|m: int| 0 <= m < n ==> (#[trigger] out.fills[m]).qty > 0
            &&& filled(out.fills) + out.remaining == qty
            &&& out.remaining <= qty
            &&& out.remaining > 0 ==> out.rest.len() == 0 || !crosses(side, limit, out.rest[0].price)
        }),
    decreases opp.len(),
{
    if qty == 0 || opp.len() == 0 || !crosses(side, limit, opp[0].price) {
    } else if qty < opp[0].qty {
        let out = match_against(opp, side, taker, qty, limit);
        assert(out.fills.drop_first() =~= Seq::<TradeView>::empty());
        assert(filled(out.fills.drop_first()) == 0);
        assert(filled(out.fills) == qty);
        assert(forall|i: int| 0 <= i < out.rest.len() ==> (#[trigger] out.rest[i]).price == opp[i].price
                && out.rest[i].id == opp[i].id && out.rest[i].side == opp[i].side && out.rest[i].qty > 0);
        assert(tidy_side(out.rest, opposite(side)));
    } else {
        let tail = opp.drop_first();
        assert(tidy_side(tail, opposite(side)));
        lemma_match_shape(tail, side, taker, (qty - opp[0].qty) as u64, limit);
        let next = match_against(tail, side, taker, (qty - opp[0].qty) as u64, limit);
        let out = match_against(opp, side, taker, qty, limit);
        assert(out.fills.drop_first() =~= next.fills);
        assert(filled(out.fills) == opp[0].qty + filled(next.fills));
        assert(forall|i: int| 0 <= i < tail.len() ==> tail[i] == opp[i + 1]);
        assert forall|m: int| 0 <= m < out.fills.len() implies #[trigger] out.fills[m] == fill_of(side, taker, opp[m], out.fills[m].qty) by {
            if m > 0 {
                assert(out.fills[m] == next.fills[m - 1]);
            }
        }
        assert forall|m: int| 0 <= m < out.fills.len() - 1 implies (#[trigger] out.fills[m]).qty == opp[m].qty by {
            if m > 0 {
                assert(out.fills[m] == next.fills[m - 1]);
            }
        }
        assert forall|m: int| 0 <= m < out.fills.len() implies (#[trigger] out.fills[m]).qty > 0 by {
            if m > 0 {
                assert(out.fills[m] == next.fills[m - 1]);
            }
        }
    }
}

/// Price-time priority: of two orders on one side, the earlier in priority
/// order (at one price, the earlier arrival) is filled whole before any fill
/// goes to the later.
pub proof fn lemma_price_time_priority(opp: Seq<Order>, side: Side, taker: Seq<char>, qty: u64, limit: u64, i: int, j: int)
    requires
        tidy_side(opp, opposite(side)),
        0 <= i < j,
        j < match_against(opp, side, taker, qty, limit).fills.len(),
    ensures
        match_against(opp, side, taker, qty, limit).fills[i].qty == opp[i].qty,
{
    lemma_match_shape(opp, side, taker, qty, limit);
}

/// An order placed at one price goes behind every order already there at
/// that price.
pub proof fn lemma_arrival_order_kept(old: Seq<Order>, new: Seq<Order>, o: Order, k: int, side: Side, i: int)
    requires
        placed_at(old, new, o, k, side),
        0 <= i < old.len(),
        old[i].price == o.price,
    ensures
        i < k,
        new[i] == old[i],
        new[k] == o,
{
    if i >= k {
        assert(!at_least_as_good(side, old[i].price, o.price));
    }
}

/// Every trade is made at the price of the resting order it fills.
pub proof fn lemma_trade_at_resting_price(opp: Seq<Order>, side: Side, taker: Seq<char>, qty: u64, limit: u64, m: int)
    requires
        tidy_side(opp, opposite(side)),
        0 <= m < match_against(opp, side, taker, qty, limit).fills.len(),
    ensures
        m < opp.len(),
        match_against(opp, side, taker, qty, limit).fills[m].price == opp[m].price,
{
    lemma_match_shape(opp, side, taker, qty, limit);
}

/// What is left unfilled is the submitted quantity less the quantity of
/// all fills.
pub proof fn lemma_residual_quantity(opp: Seq<Order>, side: Side, taker: Seq<char>, qty: u64, limit: u64)
    requires
        tidy_side(opp, opposite(side)),
    ensures
        match_against(opp, side, taker, qty, limit).remaining == qty - filled(match_against(opp, side, taker, qty, limit).fills),
{
    lemma_match_shape(opp, side, taker, qty, limit);
}

/// Against an empty opposite side nothing trades and the whole quantity is
/// left.
pub proof fn lemma_empty_opposite(side: Side, taker: Seq<char>, qty: u64, limit: u64)
    ensures
        match_against(Seq::empty(), side, taker, qty, limit).fills.len() == 0,
        match_against(Seq::empty(), side, taker, qty, limit).remaining == qty,
{
}

/// After a cancel, no order with that identifier is left on the side.
pub proof fn lemma_cancel_removes(s: Seq<Order>, id: u128)
    ensures
        forall|i: int| 0 <= i < s.filter(keeps(id)).len() ==> (#[trigger] s.filter(keeps(id))[i]).id != id,
{
    assert forall|i: int| 0 <= i < s.filter(keeps(id)).len() implies (#[trigger] s.filter(keeps(id))[i]).id != id by {
        s.lemma_filter_pred(keeps(id), i);
    }
}

/// Every order on `new` is `o` or was on `old`.
proof fn lemma_placed_members(old: Seq<Order>, new: Seq<Order>, o: Order, k: int, side: Side)
    requires
        placed_at(old, new, o, k, side),
    ensures
        forall|i: int| 0 <= i < new.len() ==> #[trigger] new[i] == o
            || exists|i0: int| 0 <= i0 < old.len() && new[i] == old[i0],
{
    assert forall|i: int| 0 <= i < new.len() implies #[trigger] new[i] == o
        || exists|i0: int| 0 <= i0 < old.len() && new[i] == old[i0] by {
        if i < k {
            assert(new[i] == old[i]);
        } else if i > k {
            assert(new[i] == old[i - 1]);
        }
    }
}

/// The matching conditions under which a limit order leaves the book
/// uncrossed, for the book before and after.
pub open spec fn limit_step(before: MarketBook, after: MarketBook, o: Order) -> bool {
    let out = match_against(before.side_of(opposite(o.side)), o.side, o.user_id@, o.qty, o.price);
    &&& after.side_of(opposite(o.side)) == out.rest
    &&& out.remaining > 0 && o.price != 0 ==> exists|k: int| placed_at(
        before.side_of(o.side),
        after.side_of(o.side),
        Order { qty: out.remaining, ..o },
        k,
        o.side,
    )
    &&& !(out.remaining > 0 && o.price != 0) ==> after.side_of(o.side) == before.side_of(o.side)
}

proof fn lemma_own_side(before: MarketBook, after: MarketBook, o: Order)
    requires
        limit_step(before, after, o),
    ensures
        ({
            let out = match_against(before.side_of(opposite(o.side)), o.side, o.user_id@, o.qty, o.price);
            forall|i: int| 0 <= i < after.side_of(o.side).len() ==>
                (out.remaining > 0 && o.price != 0 && (#[trigger] after.side_of(o.side)[i]).price == o.price)
                || exists|i0: int| 0 <= i0 < before.side_of(o.side).len()
                    && after.side_of(o.side)[i].price == before.side_of(o.side)[i0].price
        }),
{
    let out = match_against(before.side_of(opposite(o.side)), o.side, o.user_id@, o.qty, o.price);
    let own = before.side_of(o.side);
    let own2 = after.side_of(o.side);
    if out.remaining > 0 && o.price != 0 {
        let r = Order { qty: out.remaining, ..o };
        let k = choose|k: int| placed_at(own, own2, r, k, o.side);
        lemma_placed_members(own, own2, r, k, o.side);
        assert forall|i: int| 0 <= i < own2.len() implies
            (#[trigger] own2[i]).price == o.price
            || exists|i0: int| 0 <= i0 < own.len() && own2[i].price == own[i0].price by {
            if own2[i] != r {
                let i0 = choose|i0: int| 0 <= i0 < own.len() && own2[i] == own[i0];
                assert(own2[i].price == own[i0].price);
            }
        }
    } else {
        assert forall|i: int| 0 <= i < own2.len() implies
            exists|i0: int| 0 <= i0 < own.len() && (#[trigger] own2[i]).price == own[i0].price by {
            assert(own2[i] == own[i]);
        }
    }
}

/// A limit order that is matched and whose unfilled rest is then placed on
/// its own side leaves an uncrossed book uncrossed: every bid stays below
/// every ask.
pub proof fn lemma_limit_leaves_uncrossed(before: MarketBook, after: MarketBook, o: Order)
    requires
        before.wf(),
        before.uncrossed(),
        limit_step(before, after, o),
    ensures
        after.uncrossed(),
{
    let opp = before.side_of(opposite(o.side));
    lemma_match_shape(opp, o.side, o.user_id@, o.qty, o.price);
    lemma_own_side(before, after, o);
    let out = match_against(opp, o.side, o.user_id@, o.qty, o.price);
    let d = opp.len() - out.rest.len();
    let rested = out.remaining > 0 && o.price != 0;
    match o.side {
        Side::Bid => {
            assert forall|i: int, j: int| 0 <= i < after.bids@.len() && 0 <= j < after.asks@.len()
                implies (#[trigger] after.bids@[i]).price < (#[trigger] after.asks@[j]).price by {
                assert(after.asks@[j].price == opp[j + d].price);
                if rested && after.bids@[i].price == o.price {
                    assert(out.rest[0].price <= out.rest[j].price);
                } else {
                    let i0 = choose|i0: int| 0 <= i0 < before.bids@.len() && after.bids@[i].price == before.bids@[i0].price;
                    assert(before.bids@[i0].price < before.asks@[j + d].price);
                }
            }
        },
        Side::Ask => {
            assert forall|i: int, j: int| 0 <= i < after.bids@.len() && 0 <= j < after.asks@.len()
                implies (#[trigger] after.bids@[i]).price < (#[trigger] after.asks@[j]).price by {
                assert(after.bids@[i].price == opp[i + d].price);
                if rested && after.asks@[j].price == o.price {
                    assert(out.rest[0].price >= out.rest[i].price);
                } else {
                    let j0 = choose|j0: int| 0 <= j0 < before.asks@.len() && after.asks@[j].price == before.asks@[j0].price;
                    assert(before.bids@[i + d].price < before.asks@[j0].price);
                }
            }
        },
    }
}

impl MarketBook {
    /// The book is tidy on both sides.
    pub open spec fn wf(&self) -> bool {
        &&& tidy_side(self.bids@, Side::Bid)
        &&& tidy_side(self.asks@, Side::Ask)
    }

    /// Every bid is priced below every ask.
    pub open spec fn uncrossed(&self) -> bool {
        forall|i: int, j: int|
            0 <= i < self.bids@.len() && 0 <= j < self.asks@.len()
                ==> (#[trigger] self.bids@[i]).price < (#[trigger] self.asks@[j]).price
    }

    /// The side of the book on which orders of `side` rest.
    pub open spec fn side_of(&self, side: Side) -> Seq<Order> {
        match side {
            Side::Bid => self.bids@,
            Side::Ask => self.asks@,
        }
    }

    /// An empty book.
    pub fn new() -> (r: MarketBook)
        ensures
            r.wf(),
            r.uncrossed(),
            r.bids@.len() == 0,
            r.asks@.len() == 0,
    {
        MarketBook { bids: Vec::new(), asks: Vec::new() }
    }

    /// Rests `order` on its own side, behind every order at a price at least
    /// as good.
    pub fn insert_order(&mut self, order: Order)
        requires
            old(self).wf(),
            order.qty > 0,
        ensures
            final(self).wf(),
            exists|k: int| placed_at(old(self).side_of(order.side), final(self).side_of(order.side), order, k, order.side),
            final(self).side_of(opposite(order.side)) == old(self).side_of(opposite(order.side)),
    {
        let ghost o = order;
        match order.side {
            Side::Bid => {
                rest_on(&mut self.bids, Side::Bid, order);
                proof {
                    let k = choose|k: int| placed_at(old(self).bids@, self.bids@, o, k, Side::Bid);
                    assert(placed_at(old(self).side_of(o.side), self.side_of(o.side), o, k, o.side));
                }
            },
            Side::Ask => {
                rest_on(&mut self.asks, Side::Ask, order);
                proof {
                    let k = choose|k: int| placed_at(old(self).asks@, self.asks@, o, k, Side::Ask);
                    assert(placed_at(old(self).side_of(o.side), self.side_of(o.side), o, k, o.side));
                }
            },
        }
    }

    /// Matches `incoming` against the opposite side in price-time priority.
    /// Returns the trades, and the unfilled rest of a limit order (under the
    /// incoming order's identifier); a market order (price zero) leaves none.
    pub fn match_order(&mut self, incoming: Order) -> (r: (Vec<Trade>, Option<Order>))
        requires
            old(self).wf(),
        ensures
            final(self).wf(),
            ({
                let out = match_against(
                    old(self).side_of(opposite(incoming.side)),
                    incoming.side,
                    incoming.user_id@,
                    incoming.qty,
                    incoming.price,
                );
                &&& terms(r.0@) == out.fills
                &&& final(self).side_of(opposite(incoming.side)) == out.rest
                &&& final(self).side_of(incoming.side) == old(self).side_of(incoming.side)
                &&& r.1 == if out.remaining > 0 && incoming.price != 0 {
                    Some(Order { qty: out.remaining, ..incoming })
                } else {
                    None
                }
            }),
    {
        let ghost before = *self;
        let (fills, remaining) = match incoming.side {
            Side::Bid => match_side(&mut self.asks, Side::Bid, &incoming.user_id, incoming.qty, incoming.price),
            Side::Ask => match_side(&mut self.bids, Side::Ask, &incoming.user_id, incoming.qty, incoming.price),
        };
        proof {
            lemma_match_shape(before.side_of(opposite(incoming.side)), incoming.side, incoming.user_id@, incoming.qty, incoming.price);
            let out = match_against(before.side_of(opposite(incoming.side)), incoming.side, incoming.user_id@, incoming.qty, incoming.price);
            assert(tidy_side(out.rest, opposite(incoming.side)));
        }
        if remaining > 0 && incoming.price != 0 {
            (fills, Some(Order { qty: remaining, ..incoming }))
        } else {
            (fills, None)
        }
    }

    /// Matches the limit order `incoming`, then rests its unfilled rest at
    /// its price (none for a price of zero, a market order). Returns the
    /// trades and the quantity that rests.
    pub fn place_limit_order(&mut self, incoming: Order) -> (r: (Vec<Trade>, u64))
        requires
            old(self).wf(),
            old(self).uncrossed(),
        ensures
            final(self).wf(),
            final(self).uncrossed(),
            ({
                let out = match_against(
                    old(self).side_of(opposite(incoming.side)),
                    incoming.side,
                    incoming.user_id@,
                    incoming.qty,
                    incoming.price,
                );
                let rested = out.remaining > 0 && incoming.price != 0;
                &&& terms(r.0@) == out.fills
                &&& limit_step(*old(self), *final(self), incoming)
                &&& r.1 == if rested { out.remaining } else { 0 }
            }),
    {
        let ghost before = *self;
        let ghost o = incoming;
        let (fills, residual) = self.match_order(incoming);
        let mut rested: u64 = 0;
        match residual {
            Some(rest) => {
                proof {
                    lemma_match_shape(before.side_of(opposite(o.side)), o.side, o.user_id@, o.qty, o.price);
                }
                rested = rest.qty;
                self.insert_order(rest);
            },
            None => {},
        }
        proof {
            lemma_limit_leaves_uncrossed(before, *self, o);
        }
        (fills, rested)
    }

    /// Removes every order with identifier `order_id` from `side`; returns
    /// whether there was one.
    pub fn cancel_order(&mut self, side: Side, order_id: u128) -> (r: bool)
        requires
            old(self).wf(),
        ensures
            final(self).wf(),
            final(self).side_of(side) == old(self).side_of(side).filter(keeps(order_id)),
            final(self).side_of(opposite(side)) == old(self).side_of(opposite(side)),
            r == exists|i: int| 0 <= i < old(self).side_of(side).len() && (#[trigger] old(self).side_of(side)[i]).id == order_id,
    {
        match side {
            Side::Bid => drop_id(&mut self.bids, Side::Bid, order_id),
            Side::Ask => drop_id(&mut self.asks, Side::Ask, order_id),
        }
    }
}

/// Whether an order does not carry the identifier `id`.
pub open spec fn keeps(id: u128) -> spec_fn(Order) -> bool {
    |o: Order| o.id != id
}

/// Pushing the order at `i` of the tidy side `v` onto a tidy `kept` whose
/// orders all stand at least as well as those from `i` on keeps it tidy.
proof fn lemma_push_from(v: Seq<Order>, kept: Seq<Order>, i: int, side: Side)
    requires
        tidy_side(v, side),
        tidy_side(kept, side),
        0 <= i < v.len(),
        forall|k: int, j: int| 0 <= k < kept.len() && i <= j < v.len()
            ==> at_least_as_good(side, #[trigger] kept[k].price, #[trigger] v[j].price),
    ensures
        tidy_side(kept.push(v[i]), side),
        forall|k: int, j: int| 0 <= k < kept.push(v[i]).len() && i + 1 <= j < v.len()
            ==> at_least_as_good(side, #[trigger] kept.push(v[i])[k].price, #[trigger] v[j].price),
{
    let n = kept.push(v[i]);
    assert forall|k: int, j: int| 0 <= k < n.len() && i + 1 <= j < v.len()
        implies at_least_as_good(side, #[trigger] n[k].price, #[trigger] v[j].price) by {
        if k < kept.len() {
            assert(n[k] == kept[k]);
        } else {
            assert(n[k] == v[i]);
        }
    }
    assert forall|k: int| 0 <= k < n.len() implies #[trigger] n[k].qty > 0 && n[k].side == side by {
        if k < kept.len() {
            assert(n[k] == kept[k]);
        } else {
            assert(n[k] == v[i]);
        }
    }
    assert forall|a: int, b: int| 0 <= a < b < n.len() implies at_least_as_good(side, #[trigger] n[a].price, #[trigger] n[b].price) by {
        if b == kept.len() {
            assert(n[a] == kept[a]);
            assert(n[b] == v[i]);
        } else {
            assert(n[a] == kept[a] && n[b] == kept[b]);
        }
    }
}

/// Keeps on the tidy side `s` only the orders whose identifier is not `id`.
fn drop_id(s: &mut Vec<Order>, side: Side, id: u128) -> (r: bool)
    requires
        tidy_side(old(s)@, side),
    ensures
        tidy_side(final(s)@, side),
        final(s)@ == old(s)@.filter(keeps(id)),
        r == exists|i: int| 0 <= i < old(s)@.len() && (#[trigger] old(s)@[i]).id == id,
{
    let ghost v = s@;
    let mut kept: Vec<Order> = Vec::new();
    let mut found = false;
    let mut i: usize = 0;
    assert(v.take(0) =~= Seq::<Order>::empty());
    while i < s.len()
        invariant
            s@ == v,
            i <= v.len(),
            tidy_side(v, side),
            tidy_side(kept@, side),
            kept@ == v.take(i as int).filter(keeps(id)),
            forall|k: int, j: int| 0 <= k < kept@.len() && i <= j < v.len()
                ==> at_least_as_good(side, #[trigger] kept@[k].price, #[trigger] v[j].price),
            found == exists|j: int| 0 <= j < i && (#[trigger] v[j]).id == id,
        decreases v.len() - i,
    {
        assert(v.take(i + 1).drop_last() =~= v.take(i as int));
        assert(v.take(i + 1).last() == v[i as int]);

        let oid = s[i].id;
        if oid != id {
            assert(v.take(i + 1).filter(keeps(id)) == v.take(i as int).filter(keeps(id)).push(v[i as int])) by {
                reveal(Seq::filter);
                let t = v.take(i + 1);
                assert(t.len() > 0);
                assert(t.drop_last() == v.take(i as int));
                assert(t.last() == v[i as int]);
                assert(v[i as int].id == oid);
                assert(keeps(id)(t.last()));
            }
            let ghost before = kept@;
            proof {
                lemma_push_from(v, before, i as int, side);
            }
            kept.push(s[i].copy());
            assert(kept@ == before.push(v[i as int]));
        } else {
            assert(v.take(i + 1).filter(keeps(id)) == v.take(i as int).filter(keeps(id))) by {
                reveal(Seq::filter);
                let t = v.take(i + 1);
                assert(t.len() > 0);
                assert(t.drop_last() == v.take(i as int));
                assert(t.last() == v[i as int]);
                assert(v[i as int].id == oid);
                assert(!keeps(id)(t.last()));
            }
            found = true;
        }
        i = i + 1;
    }
    assert(v.take(v.len() as int) =~= v);
    *s = kept;
    found
}

} // verus!
