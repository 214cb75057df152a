use orderbook::book::MarketBook;
use orderbook::domain::{Order, Side, Trade, User};
use orderbook::ledger::Ledger;
use orderbook::markets::{Markets, OrderbookResponse};

fn s(x: &str) -> String {
    x.to_string()
}

fn user(ledger: &mut Ledger, email: &str, balance: u64, holdings: u64) {
    ledger.signup(s(email), s("pw"));
    ledger.onramp(&s(email), balance, holdings);
}

fn limit(ledger: &mut Ledger, markets: &mut Markets, m: u64, email: &str, side: Side, qty: u64, price: u64) -> OrderbookResponse {
    let snapshot = ledger.get_user(&s(email)).user;
    let r = markets.new_limit_order(m, s(email), snapshot, side, qty, price);
    ledger.reconcile(r.fills.clone());
    r
}

fn market(ledger: &mut Ledger, markets: &mut Markets, m: u64, email: &str, side: Side, qty: u64) -> OrderbookResponse {
    let snapshot = ledger.get_user(&s(email)).user;
    let r = markets.new_market_order(m, s(email), snapshot, side, qty);
    ledger.reconcile(r.fills.clone());
    r
}

fn levels(orders: &[Order]) -> Vec<(u64, u64, String)> {
    orders.iter().map(|o| (o.price, o.qty, o.user_id.clone())).collect()
}

fn book(markets: &Markets, m: u64) -> (Vec<(u64, u64, String)>, Vec<(u64, u64, String)>) {
    let r = markets.get_book(m);
    (levels(r.bids.as_ref().unwrap()), levels(r.asks.as_ref().unwrap()))
}

fn terms(fills: &[Trade]) -> Vec<(String, String, u64, u64)> {
    fills.iter().map(|t| (t.buyer.clone(), t.seller.clone(), t.qty, t.price)).collect()
}

fn account(ledger: &Ledger, email: &str) -> (u64, u64) {
    let u = ledger.get_user(&s(email)).user.unwrap();
    (u.balance, u.holdings)
}

fn setup() -> (Ledger, Markets) {
    let mut markets = Markets::new();
    markets.create_market(1);
    (Ledger::new(), markets)
}

#[test]
fn simple_cross() {
    let (mut ledger, mut markets) = setup();
    user(&mut ledger, "A", 10_000, 0);
    user(&mut ledger, "B", 0, 100);
    let r = limit(&mut ledger, &mut markets, 1, "B", Side::Ask, 10, 100);
    assert_eq!(r.status, "Success, resting remaining order");
    assert!(r.fills.is_empty());
    let r = limit(&mut ledger, &mut markets, 1, "A", Side::Bid, 10, 100);
    assert_eq!(r.status, "Success, fully matched");
    assert_eq!(terms(&r.fills), vec![(s("A"), s("B"), 10, 100)]);
    assert_eq!(book(&markets, 1), (vec![], vec![]));
    assert_eq!(account(&ledger, "A"), (9_000, 10));
    assert_eq!(account(&ledger, "B"), (1_000, 90));
}

#[test]
fn price_time_priority_within_level() {
    let (mut ledger, mut markets) = setup();
    user(&mut ledger, "C", 0, 10);
    user(&mut ledger, "D", 0, 10);
    user(&mut ledger, "E", 1_000, 0);
    limit(&mut ledger, &mut markets, 1, "C", Side::Ask, 5, 50);
    limit(&mut ledger, &mut markets, 1, "D", Side::Ask, 5, 50);
    let r = limit(&mut ledger, &mut markets, 1, "E", Side::Bid, 7, 50);
    assert_eq!(terms(&r.fills), vec![(s("E"), s("C"), 5, 50), (s("E"), s("D"), 2, 50)]);
    assert_eq!(book(&markets, 1), (vec![], vec![(50, 3, s("D"))]));
}

#[test]
fn walk_the_book() {
    let (mut ledger, mut markets) = setup();
    user(&mut ledger, "S", 0, 100);
    user(&mut ledger, "T", 1_000, 0);
    limit(&mut ledger, &mut markets, 1, "S", Side::Ask, 4, 12);
    limit(&mut ledger, &mut markets, 1, "S", Side::Ask, 4, 10);
    let r = limit(&mut ledger, &mut markets, 1, "T", Side::Bid, 6, 15);
    assert_eq!(terms(&r.fills), vec![(s("T"), s("S"), 4, 10), (s("T"), s("S"), 2, 12)]);
    assert_eq!(book(&markets, 1), (vec![], vec![(12, 2, s("S"))]));
    assert_eq!(r.remaining_qty, 0);
}

#[test]
fn residual_rests() {
    let (mut ledger, mut markets) = setup();
    user(&mut ledger, "S", 0, 100);
    user(&mut ledger, "T", 1_000, 0);
    limit(&mut ledger, &mut markets, 1, "S", Side::Ask, 2, 20);
    let r = limit(&mut ledger, &mut markets, 1, "T", Side::Bid, 10, 20);
    assert_eq!(terms(&r.fills), vec![(s("T"), s("S"), 2, 20)]);
    assert_eq!(r.status, "Success, resting remaining order");
    assert_eq!(r.remaining_qty, 8);
    assert_eq!(book(&markets, 1), (vec![(20, 8, s("T"))], vec![]));
}

#[test]
fn admission_rejects_insufficient_balance() {
    let (mut ledger, mut markets) = setup();
    user(&mut ledger, "U", 100, 0);
    let r = limit(&mut ledger, &mut markets, 1, "U", Side::Bid, 5, 30);
    assert_eq!(r.status, "Insufficient balance");
    assert!(r.fills.is_empty());
    assert_eq!(book(&markets, 1), (vec![], vec![]));
}

#[test]
fn admission_rejects_insufficient_holdings() {
    let (mut ledger, mut markets) = setup();
    user(&mut ledger, "U", 0, 4);
    let r = limit(&mut ledger, &mut markets, 1, "U", Side::Ask, 5, 30);
    assert_eq!(r.status, "Insufficient holdings");
    assert_eq!(book(&markets, 1), (vec![], vec![]));
}

#[test]
fn admission_rejects_overflowing_notional() {
    let (mut ledger, mut markets) = setup();
    user(&mut ledger, "U", u64::MAX, 0);
    let r = limit(&mut ledger, &mut markets, 1, "U", Side::Bid, 2, u64::MAX);
    assert_eq!(r.status, "Insufficient balance");
    assert_eq!(book(&markets, 1), (vec![], vec![]));
}

#[test]
fn cancel() {
    let (mut ledger, mut markets) = setup();
    user(&mut ledger, "S", 0, 100);
    limit(&mut ledger, &mut markets, 1, "S", Side::Ask, 1, 10);
    limit(&mut ledger, &mut markets, 1, "S", Side::Ask, 2, 10);
    let asks = markets.get_book(1).asks.unwrap();
    let (x, y) = (asks[0].id, asks[1].id);
    assert_ne!(x, y);
    let r = markets.cancel_order(1, Side::Ask, x);
    assert!(r.canceled);
    assert_eq!(r.status, "Order canceled");
    let asks = markets.get_book(1).asks.unwrap();
    assert_eq!(asks.len(), 1);
    assert_eq!(asks[0].id, y);
    assert_eq!(asks[0].price, 10);
    let r = markets.cancel_order(1, Side::Ask, x);
    assert!(!r.canceled);
    assert_eq!(r.status, "Order not found");
}

#[test]
fn cancel_on_other_side_finds_nothing() {
    let (mut ledger, mut markets) = setup();
    user(&mut ledger, "S", 0, 100);
    limit(&mut ledger, &mut markets, 1, "S", Side::Ask, 1, 10);
    let x = markets.get_book(1).asks.unwrap()[0].id;
    assert!(!markets.cancel_order(1, Side::Bid, x).canceled);
    assert_eq!(markets.cancel_order(9, Side::Ask, x).status, "Market does not exist");
}

#[test]
fn limit_against_empty_side_rests_whole() {
    let (mut ledger, mut markets) = setup();
    user(&mut ledger, "T", 1_000, 0);
    let r = limit(&mut ledger, &mut markets, 1, "T", Side::Bid, 3, 7);
    assert!(r.fills.is_empty());
    assert_eq!(r.remaining_qty, 3);
    assert_eq!(book(&markets, 1), (vec![(7, 3, s("T"))], vec![]));
}

#[test]
fn market_order_against_empty_side_is_dropped() {
    let (mut ledger, mut markets) = setup();
    user(&mut ledger, "T", 1_000, 0);
    let r = market(&mut ledger, &mut markets, 1, "T", Side::Bid, 3);
    assert!(r.fills.is_empty());
    assert_eq!(r.status, "Market order processed");
    assert_eq!(book(&markets, 1), (vec![], vec![]));
}

#[test]
fn market_order_sweeps_any_price() {
    let (mut ledger, mut markets) = setup();
    user(&mut ledger, "S", 0, 100);
    user(&mut ledger, "T", 1_000, 0);
    limit(&mut ledger, &mut markets, 1, "S", Side::Ask, 2, 10);
    limit(&mut ledger, &mut markets, 1, "S", Side::Ask, 2, 90);
    let r = market(&mut ledger, &mut markets, 1, "T", Side::Bid, 5);
    assert_eq!(terms(&r.fills), vec![(s("T"), s("S"), 2, 10), (s("T"), s("S"), 2, 90)]);
    assert_eq!(book(&markets, 1), (vec![], vec![]));
}

#[test]
fn market_ask_hits_best_bid_first() {
    let (mut ledger, mut markets) = setup();
    user(&mut ledger, "B", 10_000, 0);
    user(&mut ledger, "S", 0, 100);
    limit(&mut ledger, &mut markets, 1, "B", Side::Bid, 2, 10);
    limit(&mut ledger, &mut markets, 1, "B", Side::Bid, 2, 30);
    let r = market(&mut ledger, &mut markets, 1, "S", Side::Ask, 3);
    assert_eq!(terms(&r.fills), vec![(s("B"), s("S"), 2, 30), (s("B"), s("S"), 1, 10)]);
    assert_eq!(book(&markets, 1), (vec![(10, 1, s("B"))], vec![]));
}

#[test]
fn bid_at_best_ask_price_crosses() {
    let (mut ledger, mut markets) = setup();
    user(&mut ledger, "S", 0, 100);
    user(&mut ledger, "T", 1_000, 0);
    limit(&mut ledger, &mut markets, 1, "S", Side::Ask, 1, 25);
    let r = limit(&mut ledger, &mut markets, 1, "T", Side::Bid, 1, 25);
    assert_eq!(terms(&r.fills), vec![(s("T"), s("S"), 1, 25)]);
}

#[test]
fn bid_below_best_ask_rests() {
    let (mut ledger, mut markets) = setup();
    user(&mut ledger, "S", 0, 100);
    user(&mut ledger, "T", 1_000, 0);
    limit(&mut ledger, &mut markets, 1, "S", Side::Ask, 1, 25);
    let r = limit(&mut ledger, &mut markets, 1, "T", Side::Bid, 1, 24);
    assert!(r.fills.is_empty());
    assert_eq!(book(&markets, 1), (vec![(24, 1, s("T"))], vec![(25, 1, s("S"))]));
}

#[test]
fn unknown_market_and_user() {
    let (mut ledger, mut markets) = setup();
    user(&mut ledger, "T", 1_000, 0);
    assert_eq!(limit(&mut ledger, &mut markets, 2, "T", Side::Bid, 1, 1).status, "Market does not exist");
    assert_eq!(limit(&mut ledger, &mut markets, 1, "Z", Side::Bid, 1, 1).status, "User does not exist");
    assert_eq!(market(&mut ledger, &mut markets, 2, "T", Side::Bid, 1).status, "Market does not exist");
    assert_eq!(market(&mut ledger, &mut markets, 1, "Z", Side::Bid, 1).status, "Error finding user");
    assert_eq!(markets.get_book(2).status, "Market does not exist");
}

#[test]
fn create_market_twice() {
    let mut markets = Markets::new();
    let r = markets.create_market(7);
    assert_eq!(r.status, "Market 7 created");
    assert_eq!(r.market_ids, Some(vec![7]));
    let r = markets.create_market(7);
    assert_eq!(r.status, "Market 7 already exists");
    assert_eq!(markets.list_markets().market_ids, Some(vec![7]));
    assert_eq!(markets.create_market(30).status, "Market 30 created");
    assert!(markets.has_market(30) && !markets.has_market(4));
    assert_eq!(markets.list_markets().market_ids, Some(vec![7, 30]));
}

#[test]
fn signup_twice_keeps_first_password() {
    let mut ledger = Ledger::new();
    assert_eq!(ledger.signup(s("e"), s("c")).status, "User Created Successfully ");
    assert_eq!(ledger.signup(s("e"), s("d")).status, "User already exists");
    assert_eq!(ledger.get_user(&s("e")).user.unwrap().password, "c");
    assert_eq!(ledger.signin(&s("e"), &s("c")).status, "User Authenticated");
    assert_eq!(ledger.signin(&s("e"), &s("d")).status, "Incorrect Password");
    assert_eq!(ledger.signin(&s("x"), &s("c")).status, "Kindly SignUp!");
}

#[test]
fn onramp_saturates_and_reports() {
    let mut ledger = Ledger::new();
    ledger.signup(s("e"), s("c"));
    let r = ledger.onramp(&s("e"), 5, 6);
    assert_eq!((r.status.as_str(), r.balance, r.holdings), ("Successfull! User e now has balance : 5 , holding: 6 ", 5, 6));
    let r = ledger.onramp(&s("e"), u64::MAX, 1);
    assert_eq!((r.balance, r.holdings), (u64::MAX, 7));
    assert_eq!(r.status, "Successfull! User e now has balance : 18446744073709551615 , holding: 7 ");
    let r = ledger.onramp(&s("x"), 5, 6);
    assert_eq!((r.status.as_str(), r.balance, r.holdings), ("User not found! User: x found", 0, 0));
    assert!(ledger.check_user(&s("e")).user_exists);
    assert!(!ledger.check_user(&s("x")).user_exists);
    assert!(ledger.get_user(&s("x")).user.is_none());
}

#[test]
fn new_limit_then_cancel_leaves_no_trace() {
    let (mut ledger, mut markets) = setup();
    user(&mut ledger, "T", 1_000, 0);
    limit(&mut ledger, &mut markets, 1, "T", Side::Bid, 3, 7);
    let id = markets.get_book(1).bids.unwrap()[0].id;
    assert!(markets.cancel_order(1, Side::Bid, id).canceled);
    assert!(markets.get_book(1).bids.unwrap().iter().all(|o| o.id != id));
}

fn trade(buyer: &str, seller: &str, qty: u64, price: u64) -> Trade {
    Trade { id: 0, buyer: s(buyer), seller: s(seller), qty, price }
}

fn totals(ledger: &Ledger) -> (u128, u128) {
    ledger.users.iter().fold((0, 0), |(b, h), u| (b + u.balance as u128, h + u.holdings as u128))
}

#[test]
fn reconcile_moves_value_side_by_side() {
    let mut ledger = Ledger::new();
    user(&mut ledger, "A", 1_000, 5);
    user(&mut ledger, "B", 50, 20);
    let (b0, h0) = totals(&ledger);
    let recs = ledger.reconcile(vec![
        trade("A", "B", 3, 100),
        trade("A", "B", 100, 100),
        trade("B", "A", 1, 10),
        trade("Z", "A", 1, 1),
        trade("A", "A", 2, 5),
    ]);
    assert_eq!(recs.len(), 5);
    assert_eq!(account(&ledger, "A"), (711, 6));
    assert_eq!(account(&ledger, "B"), (340, 18));
    // the unknown buyer paid nothing while the seller delivered and was paid
    assert_eq!(totals(&ledger), (b0 + 1, h0 - 1));
    // both sides settled: both snapshots before, both after
    assert_eq!(recs[0].prev_balances.iter().map(|u| u.balance).collect::<Vec<_>>(), vec![1_000, 50]);
    assert_eq!(recs[0].curr_balances.iter().map(|u| u.balance).collect::<Vec<_>>(), vec![700, 350]);
    // neither side could settle
    assert!(recs[1].prev_balances.is_empty());
    assert_eq!(recs[1].curr_balances.len(), 2);
    // unknown buyer: only the seller settles and is reported
    assert_eq!(recs[3].prev_balances.iter().map(|u| u.email.clone()).collect::<Vec<_>>(), vec![s("A")]);
    assert_eq!(recs[3].curr_balances.iter().map(|u| (u.balance, u.holdings)).collect::<Vec<_>>(), vec![(711, 6)]);
    assert_eq!(recs[3].buyer, "Z");
    // a trade with oneself settles both sides and nets out
    assert_eq!(recs[4].prev_balances.iter().map(|u| (u.balance, u.holdings)).collect::<Vec<_>>(), vec![(711, 6), (701, 8)]);
    assert_eq!(recs[4].curr_balances.iter().map(|u| (u.balance, u.holdings)).collect::<Vec<_>>(), vec![(701, 8), (711, 6)]);
}

#[test]
fn reconcile_conserves_totals_when_both_sides_settle() {
    let mut ledger = Ledger::new();
    user(&mut ledger, "A", 1_000, 5);
    user(&mut ledger, "B", 50, 20);
    let before = totals(&ledger);
    ledger.reconcile(vec![trade("A", "B", 3, 100), trade("B", "A", 1, 10)]);
    assert_eq!(totals(&ledger), before);
}

#[test]
fn reconcile_buyer_pays_when_seller_cannot_deliver() {
    let mut ledger = Ledger::new();
    user(&mut ledger, "A", 1_000, 0);
    user(&mut ledger, "B", 0, 0);
    let recs = ledger.reconcile(vec![trade("A", "B", 1, 10)]);
    assert_eq!(account(&ledger, "A"), (990, 1));
    assert_eq!(account(&ledger, "B"), (0, 0));
    assert_eq!(recs[0].prev_balances.len(), 1);
}

#[test]
fn reconcile_seller_delivers_when_buyer_cannot_pay() {
    let mut ledger = Ledger::new();
    user(&mut ledger, "A", 0, 0);
    user(&mut ledger, "B", 0, 100);
    ledger.reconcile(vec![trade("A", "B", 10, 100)]);
    assert_eq!(account(&ledger, "A"), (0, 0));
    assert_eq!(account(&ledger, "B"), (1_000, 90));
}

#[test]
fn reconcile_requires_full_notional() {
    let mut ledger = Ledger::new();
    user(&mut ledger, "A", 150, 0);
    user(&mut ledger, "B", 0, 10);
    ledger.reconcile(vec![trade("A", "B", 2, 100)]);
    assert_eq!(account(&ledger, "A"), (150, 0));
    assert_eq!(account(&ledger, "B"), (200, 8));
    ledger.reconcile(vec![trade("A", "B", 10, 15)]);
    assert_eq!(account(&ledger, "A"), (0, 10));
    assert_eq!(account(&ledger, "B"), (200, 8));
}

#[test]
fn reconcile_skips_overflowing_notional() {
    let mut ledger = Ledger::new();
    user(&mut ledger, "A", u64::MAX, 0);
    user(&mut ledger, "B", 0, 10);
    ledger.reconcile(vec![trade("A", "B", 2, u64::MAX)]);
    assert_eq!(account(&ledger, "A"), (u64::MAX, 0));
    assert_eq!(account(&ledger, "B"), (0, 10));
}

#[test]
fn fresh_identifiers_differ() {
    let a = Order::new(s("u"), 1, 1, Side::Bid);
    let b = Order::new(s("u"), 1, 1, Side::Bid);
    assert_ne!(a.id, b.id);
    let buyer = User::new(s("b"), s("p"));
    let seller = User::new(s("s"), s("p"));
    let t = Trade::new(&buyer, &a, &seller);
    let u = Trade::new(&buyer, &a, &seller);
    assert_ne!(t.id, u.id);
    assert_eq!((t.buyer.as_str(), t.seller.as_str(), t.qty, t.price), ("b", "s", 1, 1));
}

#[test]
fn market_book_residual_keeps_id() {
    let mut book = MarketBook::new();
    let o = Order::new(s("u"), 4, 9, Side::Ask);
    let id = o.id;
    let (fills, rest) = book.match_order(o);
    assert!(fills.is_empty());
    let rest = rest.unwrap();
    assert_eq!((rest.id, rest.qty, rest.price, rest.side), (id, 4, 9, Side::Ask));
    book.insert_order(rest);
    assert_eq!(book.asks.len(), 1);
    let (fills, rest) = book.match_order(Order::new(s("v"), 4, 0, Side::Bid));
    assert_eq!(terms(&fills), vec![(s("v"), s("u"), 4, 9)]);
    assert!(rest.is_none());
    assert!(book.asks.is_empty());
}
