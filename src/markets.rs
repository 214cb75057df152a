use vstd::prelude::*;
use crate::book::{keeps, match_against, opposite, placed_at, terms, MarketBook};
use crate::domain::{decimal, decimal_of, Order, Side, Trade, User};

verus! {

/// The reply of the book owner. Fields that a request does not use are
/// empty, zero or `None`.
pub struct OrderbookResponse {
    pub status: String,
    pub fills: Vec<Trade>,
    pub remaining_qty: u64,
    pub bids: Option<Vec<Order>>,
    pub asks: Option<Vec<Order>>,
    pub market_ids: Option<Vec<u64>>,
    pub canceled: bool,
}

impl OrderbookResponse {
    /// A reply that carries only a status.
    pub fn empty(status: String) -> (r: OrderbookResponse)
        ensures
            r.status == status,
            r.fills@.len() == 0,
            r.remaining_qty == 0,
            r.bids.is_none(),
            r.asks.is_none(),
            r.market_ids.is_none(),
            !r.canceled,
    {
        OrderbookResponse {
            status,
            fills: Vec::new(),
            remaining_qty: 0,
            bids: None,
            asks: None,
            market_ids: None,
            canceled: false,
        }
    }
}

/// "Market <id>" followed by `tail`.
fn market_status(market_id: u64, tail: &str) -> (r: String)
    ensures
        r@ == "Market "@ + decimal_of(market_id as nat) + tail@,
{
    let mut s = "Market ".to_string();
    s.append(decimal(market_id).as_str());
    s.append(tail);
    s
}

/// Whether a user's snapshot covers an order: a bid needs its whole notional
/// in balance, an ask its quantity in holdings.
pub open spec fn admits(user: User, side: Side, qty: u64, price: u64) -> bool {
    match side {
        Side::Bid => price * qty <= user.balance,
        Side::Ask => qty <= user.holdings,
    }
}

/// Whether `m` is among the market identifiers `ids`.
pub open spec fn has_market(ids: Seq<u64>, m: u64) -> bool {
    exists|i: int| 0 <= i < ids.len() && ids[i] == m
}

/// The position of market `m` in `ids`.
pub open spec fn market_index(ids: Seq<u64>, m: u64) -> int {
    choose|i: int| 0 <= i < ids.len() && ids[i] == m
}

/// The market identifiers after asking to create `m`.
pub open spec fn with_market(ids: Seq<u64>, m: u64) -> Seq<u64> {
    if has_market(ids, m) {
        ids
    } else {
        ids.push(m)
    }
}

/// `m` occurs in `ids` exactly once.
pub open spec fn once(ids: Seq<u64>, m: u64) -> bool {
    &&& has_market(ids, m)
    &&& forall|i: int, j: int| 0 <= i < ids.len() && 0 <= j < ids.len() && ids[i] == m && ids[j] == m ==> i == j
}

/// Creating a market twice: the second request finds it there, changes
/// nothing, and the market is listed exactly once.
pub proof fn lemma_create_market_twice(ids: Seq<u64>, m: u64)
    requires
        forall|i: int, j: int| 0 <= i < j < ids.len() ==> ids[i] != ids[j],
    ensures
        has_market(with_market(ids, m), m),
        with_market(with_market(ids, m), m) == with_market(ids, m),
        once(with_market(ids, m), m),
{
    let s = with_market(ids, m);
    if !has_market(ids, m) {
        assert(s[ids.len() as int] == m);
        assert forall|i: int, j: int| 0 <= i < s.len() && 0 <= j < s.len() && s[i] == m && s[j] == m implies i == j by {
            if i < ids.len() {
                assert(ids[i] == m);
            }
            if j < ids.len() {
                assert(ids[j] == m);
            }
        }
    } else {
        let k = choose|k: int| 0 <= k < ids.len() && ids[k] == m;
        assert forall|i: int, j: int| 0 <= i < s.len() && 0 <= j < s.len() && s[i] == m && s[j] == m implies i == j by {
            if i < j {
                assert(ids[i] != ids[j]);
            } else if j < i {
                assert(ids[j] != ids[i]);
            }
        }
    }
}

/// The owner of all market books, keyed by market identifier in order of
/// creation.
pub struct Markets {
    pub ids: Vec<u64>,
    pub books: Vec<MarketBook>,
}

fn copy_side(s: &Vec<Order>) -> (r: Vec<Order>)
    ensures
        r@ == s@,
{
    let mut r: Vec<Order> = Vec::new();
    let mut i: usize = 0;
    while i < s.len()
        invariant
            i <= s@.len(),
            r@ == s@.take(i as int),
        decreases s@.len() - i,
    {
        r.push(s[i].copy());
        i = i + 1;
        assert(r@ =~= s@.take(i as int));
    }
    assert(s@.take(s@.len() as int) =~= s@);
    r
}

impl Markets {
    /// Identifiers are unique, one book each, every book tidy and uncrossed.
    pub open spec fn wf(&self) -> bool {
        &&& self.ids@.len() == self.books@.len()
        &&& forall|i: int, j: int| 0 <= i < j < self.ids@.len() ==> self.ids@[i] != self.ids@[j]
        &&& forall|i: int| 0 <= i < self.books@.len() ==> (#[trigger] self.books@[i]).wf() && self.books@[i].uncrossed()
    }

    /// The book of market `m`.
    pub open spec fn book(&self, m: u64) -> MarketBook {
        self.books@[market_index(self.ids@, m)]
    }

    /// Only the book of market `m` may differ between `self` and `other`.
    pub open spec fn others_kept(&self, other: &Markets, m: u64) -> bool {
        &&& other.ids@ == self.ids@
        &&& other.books@.len() == self.books@.len()
        &&& forall|i: int| 0 <= i < self.books@.len() && i != market_index(self.ids@, m)
            ==> other.books@[i] == #[trigger] self.books@[i]
    }

    /// No markets yet.
    pub fn new() -> (r: Markets)
        ensures
            r.wf(),
            r.ids@.len() == 0,
    {
        Markets { ids: Vec::new(), books: Vec::new() }
    }

    fn find(&self, m: u64) -> (r: Option<usize>)
        requires
            self.wf(),
        ensures
            match r {
                Some(i) => has_market(self.ids@, m) && i == market_index(self.ids@, m) && i < self.books@.len(),
                None => !has_market(self.ids@, m),
            },
    {
        let mut i: usize = 0;
        while i < self.ids.len()
            invariant
                self.wf(),
                i <= self.ids@.len(),
                forall|j: int| 0 <= j < i ==> self.ids@[j] != m,
            decreases self.ids@.len() - i,
        {
            if self.ids[i] == m {
                assert(has_market(self.ids@, m));
                let ghost k = market_index(self.ids@, m);
                assert(k == i) by {
                    if k < i {
                    } else if k > i {
                        assert(self.ids@[i as int] != self.ids@[k]);
                    }
                }
                return Some(i);
            }
            i = i + 1;
        }
        None
    }

    /// Whether market `market_id` exists.
    pub fn has_market(&self, market_id: u64) -> (r: bool)
        requires
            self.wf(),
        ensures
            r == has_market(self.ids@, market_id),
    {
        self.find(market_id).is_some()
    }

    /// Opens an empty book for `market_id`, unless there is one.
    pub fn create_market(&mut self, market_id: u64) -> (r: OrderbookResponse)
        requires
            old(self).wf(),
        ensures
            final(self).wf(),
            final(self).ids@ == with_market(old(self).ids@, market_id),
            has_market(old(self).ids@, market_id) ==> {
                &&& final(self).books@ == old(self).books@
                &&& r.status@ == "Market "@ + decimal_of(market_id as nat) + " already exists"@
                &&& r.market_ids.is_none()
            },
            !has_market(old(self).ids@, market_id) ==> {
                &&& final(self).books@.len() == old(self).books@.len() + 1
                &&& forall|i: int| 0 <= i < old(self).books@.len() ==> final(self).books@[i] == #[trigger] old(self).books@[i]
                &&& final(self).book(market_id).bids@.len() == 0
                &&& final(self).book(market_id).asks@.len() == 0
                &&& r.status@ == "Market "@ + decimal_of(market_id as nat) + " created"@
                &&& r.market_ids.is_some() && r.market_ids.unwrap()@ == final(self).ids@
            },
            !r.canceled,
            r.fills@.len() == 0,
    {
        match self.find(market_id) {
            Some(_) => OrderbookResponse::empty(market_status(market_id, " already exists")),
            None => {
                let ghost before = self.ids@;
                self.ids.push(market_id);
                self.books.push(MarketBook::new());
                proof {
                    let n = before.len() as int;
                    assert(self.ids@[n] == market_id);
                    assert(has_market(self.ids@, market_id));
                    let k = market_index(self.ids@, market_id);
                    if k != n {
                        assert(self.ids@[k] == before[k]);
                    }
                }
                let mut r = OrderbookResponse::empty(market_status(market_id, " created"));
                r.market_ids = Some(self.copy_ids());
                r
            },
        }
    }

    fn copy_ids(&self) -> (r: Vec<u64>)
        ensures
            r@ == self.ids@,
    {
        let mut ids: Vec<u64> = Vec::new();
        let mut i: usize = 0;
        while i < self.ids.len()
            invariant
                i <= self.ids@.len(),
                ids@ == self.ids@.take(i as int),
            decreases self.ids@.len() - i,
        {
            ids.push(self.ids[i]);
            i = i + 1;
            assert(ids@ =~= self.ids@.take(i as int));
        }
        assert(self.ids@.take(self.ids@.len() as int) =~= self.ids@);
        ids
    }

    /// The identifiers of all markets, in order of creation.
    pub fn list_markets(&self) -> (r: OrderbookResponse)
        ensures
            r.status@ == "Markets listed"@,
            r.market_ids.is_some() && r.market_ids.unwrap()@ == self.ids@,
            !r.canceled,
            r.fills@.len() == 0,
    {
        let mut r = OrderbookResponse::empty("Markets listed".to_string());
        r.market_ids = Some(self.copy_ids());
        r
    }

    /// Takes the book at `i` out, leaving an empty one in its place.
    fn take_book(&mut self, i: usize) -> (r: MarketBook)
        requires
            old(self).wf(),
            i < old(self).books@.len(),
        ensures
            r == old(self).books@[i as int],
            final(self).ids@ == old(self).ids@,
            final(self).books@ == old(self).books@.update(i as int, final(self).books@[i as int]),
            final(self).wf(),
    {
        let b = self.books.remove(i);
        self.books.insert(i, MarketBook::new());
        assert(self.books@ =~= old(self).books@.update(i as int, self.books@[i as int]));
        b
    }

    /// Puts `b` back as the book at `i`.
    fn put_book(&mut self, i: usize, b: MarketBook)
        requires
            old(self).wf(),
            i < old(self).books@.len(),
            b.wf(),
            b.uncrossed(),
        ensures
            final(self).ids@ == old(self).ids@,
            final(self).books@ == old(self).books@.update(i as int, b),
            final(self).wf(),
    {
        self.books.set(i, b);
    }

    /// Submits a limit order of `user_id`, whose ledger snapshot is `user`.
    /// It is refused if the market is unknown, the user is unknown, or the
    /// snapshot does not cover it; otherwise it is matched in price-time
    /// priority and its unfilled rest, under the order's identifier, rests at
    /// its price (a price of zero makes it a market order, which never
    /// rests). The trades are returned as `fills`, for the ledger to settle.
    pub fn new_limit_order(
        &mut self,
        market_id: u64,
        user_id: String,
        user: Option<User>,
        side: Side,
        qty: u64,
        price: u64,
    ) -> (r: OrderbookResponse)
        requires
            old(self).wf(),
        ensures
            final(self).wf(),
            !has_market(old(self).ids@, market_id) ==> *final(self) == *old(self) && r.status@ == "Market does not exist"@
                && r.fills@.len() == 0,
            has_market(old(self).ids@, market_id) && user.is_none() ==> *final(self) == *old(self)
                && r.status@ == "User does not exist"@ && r.fills@.len() == 0,
            has_market(old(self).ids@, market_id) && user.is_some() && !admits(user.unwrap(), side, qty, price)
                ==> *final(self) == *old(self) && r.fills@.len() == 0 && r.status@ == match side {
                    Side::Bid => "Insufficient balance"@,
                    Side::Ask => "Insufficient holdings"@,
                },
            has_market(old(self).ids@, market_id) && user.is_some() && admits(user.unwrap(), side, qty, price) ==> {
                let before = old(self).book(market_id);
                let after = final(self).book(market_id);
                let out = match_against(before.side_of(opposite(side)), side, user_id@, qty, price);
                let rested = out.remaining > 0 && price != 0;
                &&& old(self).others_kept(final(self), market_id)
                &&& terms(r.fills@) == out.fills
                &&& after.side_of(opposite(side)) == out.rest
                &&& rested ==> exists|id: u128, k: int| placed_at(
                    before.side_of(side),
                    after.side_of(side),
                    Order { id, user_id, qty: out.remaining, price, side },
                    k,
                    side,
                )
                &&& !rested ==> after.side_of(side) == before.side_of(side)
                &&& r.remaining_qty == if rested { out.remaining } else { 0 }
                &&& r.status@ == if rested {
                    "Success, resting remaining order"@
                } else {
                    "Success, fully matched"@
                }
            },
            !r.canceled,
    {
        let i = match self.find(market_id) {
            Some(i) => i,
            None => return OrderbookResponse::empty("Market does not exist".to_string()),
        };
        let u = match user {
            Some(u) => u,
            None => return OrderbookResponse::empty("User does not exist".to_string()),
        };
        match side {
            Side::Bid => {
                let covered = match price.checked_mul(qty) {
                    Some(notional) => notional <= u.balance,
                    None => false,
                };
                if !covered {
                    return OrderbookResponse::empty("Insufficient balance".to_string());
                }
            },
            Side::Ask => {
                if qty > u.holdings {
                    return OrderbookResponse::empty("Insufficient holdings".to_string());
                }
            },
        }
        let mut book = self.take_book(i);
        let ghost before = book;
        let (fills, remaining_qty) = book.place_limit_order(Order::new(user_id, qty, price, side));
        let rested = remaining_qty > 0;
        assert(rested == (match_against(before.side_of(opposite(side)), side, user_id@, qty, price).remaining > 0 && price != 0));
        self.put_book(i, book);
        let mut r = if rested {
            OrderbookResponse::empty("Success, resting remaining order".to_string())
        } else {
            OrderbookResponse::empty("Success, fully matched".to_string())
        };
        r.fills = fills;
        r.remaining_qty = remaining_qty;
        r
    }

    /// Submits a market order of `user_id`, whose ledger snapshot is `user`:
    /// it needs only a known market and a known user, trades against the
    /// opposite side best first at any price, and what is left unfilled is
    /// dropped. The trades are returned as `fills`, for the ledger to settle.
    pub fn new_market_order(
        &mut self,
        market_id: u64,
        user_id: String,
        user: Option<User>,
        side: Side,
        qty: u64,
    ) -> (r: OrderbookResponse)
        requires
            old(self).wf(),
        ensures
            final(self).wf(),
            !has_market(old(self).ids@, market_id) ==> *final(self) == *old(self) && r.status@ == "Market does not exist"@
                && r.fills@.len() == 0,
            has_market(old(self).ids@, market_id) && user.is_none() ==> *final(self) == *old(self)
                && r.status@ == "Error finding user"@ && r.fills@.len() == 0,
            has_market(old(self).ids@, market_id) && user.is_some() ==> {
                let before = old(self).book(market_id);
                let after = final(self).book(market_id);
                let out = match_against(before.side_of(opposite(side)), side, user_id@, qty, 0);
                &&& old(self).others_kept(final(self), market_id)
                &&& terms(r.fills@) == out.fills
                &&& after.side_of(opposite(side)) == out.rest
                &&& after.side_of(side) == before.side_of(side)
                &&& r.status@ == "Market order processed"@
            },
            !r.canceled,
            r.remaining_qty == 0,
    {
        let i = match self.find(market_id) {
            Some(i) => i,
            None => return OrderbookResponse::empty("Market does not exist".to_string()),
        };
        if user.is_none() {
            return OrderbookResponse::empty("Error finding user".to_string());
        }
        let mut book = self.take_book(i);
        let (fills, _rest) = book.place_limit_order(Order::new(user_id, qty, 0, side));
        self.put_book(i, book);
        let mut r = OrderbookResponse::empty("Market order processed".to_string());
        r.fills = fills;
        r
    }

    /// Cancels the orders with identifier `order_id` on `side` of market
    /// `market_id`.
    pub fn cancel_order(&mut self, market_id: u64, side: Side, order_id: u128) -> (r: OrderbookResponse)
        requires
            old(self).wf(),
        ensures
            final(self).wf(),
            !has_market(old(self).ids@, market_id) ==> *final(self) == *old(self) && !r.canceled
                && r.status@ == "Market does not exist"@,
            has_market(old(self).ids@, market_id) ==> {
                let before = old(self).book(market_id);
                let after = final(self).book(market_id);
                let found = exists|i: int| 0 <= i < before.side_of(side).len()
                    && (#[trigger] before.side_of(side)[i]).id == order_id;
                &&& old(self).others_kept(final(self), market_id)
                &&& after.side_of(side) == before.side_of(side).filter(keeps(order_id))
                &&& after.side_of(opposite(side)) == before.side_of(opposite(side))
                &&& r.canceled == found
                &&& r.status@ == if found { "Order canceled"@ } else { "Order not found"@ }
            },
            r.fills@.len() == 0,
    {
        let i = match self.find(market_id) {
            Some(i) => i,
            None => return OrderbookResponse::empty("Market does not exist".to_string()),
        };
        let mut book = self.take_book(i);
        let ghost before = book;
        let removed = book.cancel_order(side, order_id);
        proof {
            assert forall|a: int, b: int| 0 <= a < book.bids@.len() && 0 <= b < book.asks@.len()
                implies (#[trigger] book.bids@[a]).price < (#[trigger] book.asks@[b]).price by {
                if side == Side::Bid {
                    assert(book.bids@.contains(book.bids@[a]));
                    before.bids@.lemma_filter_contains_rev(keeps(order_id), book.bids@[a]);
                } else {
                    assert(before.bids@.contains(book.bids@[a]));
                    assert(book.asks@.contains(book.asks@[b]));
                    before.asks@.lemma_filter_contains_rev(keeps(order_id), book.asks@[b]);
                }
                if side == Side::Bid {
                    assert(before.asks@.contains(book.asks@[b]));
                }
                let pa = choose|k: int| 0 <= k < before.bids@.len() && before.bids@[k] == book.bids@[a];
                let pb = choose|k: int| 0 <= k < before.asks@.len() && before.asks@[k] == book.asks@[b];
                assert(before.bids@[pa].price < before.asks@[pb].price);
            }
        }
        self.put_book(i, book);
        if removed {
            let mut r = OrderbookResponse::empty("Order canceled".to_string());
            r.canceled = true;
            r
        } else {
            OrderbookResponse::empty("Order not found".to_string())
        }
    }

    /// A copy of both sides of the book of `market_id`.
    pub fn get_book(&self, market_id: u64) -> (r: OrderbookResponse)
        requires
            self.wf(),
        ensures
            !has_market(self.ids@, market_id) ==> r.status@ == "Market does not exist"@ && r.bids.is_none()
                && r.asks.is_none(),
            has_market(self.ids@, market_id) ==> {
                &&& r.status@ == "Successful! Current order book snapshot"@
                &&& r.bids.is_some() && r.bids.unwrap()@ == self.book(market_id).bids@
                &&& r.asks.is_some() && r.asks.unwrap()@ == self.book(market_id).asks@
            },
            !r.canceled,
            r.fills@.len() == 0,
    {
        match self.find(market_id) {
            Some(i) => {
                let mut r = OrderbookResponse::empty("Successful! Current order book snapshot".to_string());
                r.bids = Some(copy_side(&self.books[i].bids));
                r.asks = Some(copy_side(&self.books[i].asks));
                r
            },
            None => OrderbookResponse::empty("Market does not exist".to_string()),
        }
    }
}

} // verus!
