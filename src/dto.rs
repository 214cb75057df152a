use vstd::prelude::*;
use crate::domain::Side;

verus! {

/// Credentials of a signup or a sign-in.
pub struct AuthRequest {
    pub email: String,
    pub password: String,
}

/// A top-up of a user's balance and holdings.
pub struct OnRampHttpRequest {
    pub user_email: String,
    pub balance: u64,
    pub holding: u64,
}

/// The order part of a submission.
pub struct OrderInput {
    pub qty: u64,
    pub price: u64,
    pub side: Side,
}

/// A limit order submission.
pub struct CreateLimitOrderRequest {
    pub market_id: u64,
    pub user_email: String,
    pub order: OrderInput,
}

/// A market order submission; its price is not used.
pub struct CreateMarketOrderRequest {
    pub market_id: u64,
    pub user_email: String,
    pub order: OrderInput,
}

/// A cancel of the order with identifier `order_id` on `side`.
pub struct CancelOrderRequest {
    pub market_id: u64,
    pub side: Side,
    pub order_id: u128,
}

/// A request to open a market.
pub struct CreateMarketRequest {
    pub market_id: u64,
}

/// A request for a market's book.
pub struct GetOrderBookRequest {
    pub user_email: String,
    pub market_id: u64,
}

} // verus!
