use vstd::prelude::*;

verus! {

/// The side of an order.
#[derive(Clone, Copy, Debug, PartialEq, Eq, Structural)]
pub enum Side {
    /// A buy order
    Bid,
    /// A sell order
    Ask,
}

/// Relies on uuid::Uuid::new_v4 (read out with Uuid::as_u128): a random
/// identifier; nothing is known of its value.
#[verifier::external_body]
pub(crate) fn fresh_id() -> (r: u128) {
    uuid::Uuid::new_v4().as_u128()
}

/// The decimal digit for `d` below ten.
pub open spec fn digit(d: nat) -> char {
    if d == 0 {
        '0'
    } else if d == 1 {
        '1'
    } else if d == 2 {
        '2'
    } else if d == 3 {
        '3'
    } else if d == 4 {
        '4'
    } else if d == 5 {
        '5'
    } else if d == 6 {
        '6'
    } else if d == 7 {
        '7'
    } else if d == 8 {
        '8'
    } else {
        '9'
    }
}

/// `n` written in decimal, without sign or leading zeros.
pub open spec fn decimal_of(n: nat) -> Seq<char>
    decreases n,
{
    if n < 10 {
        seq![digit(n)]
    } else {
        decimal_of(n / 10).push(digit(n % 10))
    }
}

/// Relies on the `Display` impl of `u64` through `ToString::to_string`: an
/// integer is written in decimal, without sign, padding or leading zeros.
#[verifier::external_body]
pub(crate) fn decimal(n: u64) -> (r: String)
    ensures
        r@ == decimal_of(n as nat),
{
    n.to_string()
}

/// An order: `qty` base units still open at `price` quote units per unit.
/// A price of zero marks a market order, which never rests.
#[derive(Clone, Debug)]
pub struct Order {
    pub id: u128,
    pub user_id: String,
    pub qty: u64,
    pub price: u64,
    pub side: Side,
}

impl Order {
    /// A new order under a fresh random identifier.
    pub fn new(user_id: String, qty: u64, price: u64, side: Side) -> (r: Order)
        ensures
            r.user_id == user_id,
            r.qty == qty,
            r.price == price,
            r.side == side,
    {
        Order { id: fresh_id(), user_id, qty, price, side }
    }

    /// A copy of the order, field for field.
    pub fn copy(&self) -> (r: Order)
        ensures
            r == *self,
    {
        Order {
            id: self.id,
            user_id: self.user_id.clone(),
            qty: self.qty,
            price: self.price,
            side: self.side,
        }
    }
}

/// What a client sees of a resting order.
#[derive(Clone, Debug)]
pub struct OrderSummary {
    pub owner: String,
    pub qty: u64,
    pub price: u64,
    pub side: Side,
}

/// The terms of a trade: who bought from whom, how much, at what price.
pub struct TradeView {
    pub buyer: Seq<char>,
    pub seller: Seq<char>,
    pub qty: u64,
    pub price: u64,
}

/// A trade between an aggressor and a resting order.
#[derive(Clone, Debug)]
pub struct Trade {
    pub id: u128,
    pub buyer: String,
    pub seller: String,
    pub qty: u64,
    pub price: u64,
}

impl View for Trade {
    type V = TradeView;

    /// The trade's terms; its identifier is a random tag and is left out.
    open spec fn view(&self) -> TradeView {
        TradeView { buyer: self.buyer@, seller: self.seller@, qty: self.qty, price: self.price }
    }
}

impl Trade {
    /// A copy of the trade, field for field.
    pub fn copy(&self) -> (r: Trade)
        ensures
            r == *self,
    {
        Trade {
            id: self.id,
            buyer: self.buyer.clone(),
            seller: self.seller.clone(),
            qty: self.qty,
            price: self.price,
        }
    }

    /// A trade of the whole of `order` between `buyer` and `seller`, at the
    /// order's price.
    pub fn new(buyer: &User, order: &Order, seller: &User) -> (r: Trade)
        ensures
            r@ == (TradeView {
                buyer: buyer.email@,
                seller: seller.email@,
                qty: order.qty,
                price: order.price,
            }),
    {
        Trade {
            id: fresh_id(),
            buyer: buyer.email.clone(),
            seller: seller.email.clone(),
            qty: order.qty,
            price: order.price,
        }
    }
}

/// A user of the ledger: its email identifies it, its password is opaque.
#[derive(Clone, Debug)]
pub struct User {
    pub email: String,
    pub password: String,
    pub balance: u64,
    pub holdings: u64,
}

impl User {
    /// A new user with nothing on account.
    pub fn new(email: String, password: String) -> (r: User)
        ensures
            r == (User { email, password, balance: 0, holdings: 0 }),
    {
        User { email, password, balance: 0, holdings: 0 }
    }

    /// A copy of the user, field for field.
    pub fn copy(&self) -> (r: User)
        ensures
            r == *self,
    {
        User {
            email: self.email.clone(),
            password: self.password.clone(),
            balance: self.balance,
            holdings: self.holdings,
        }
    }
}

} // verus!
