use vstd::prelude::*;
use crate::domain::{decimal, decimal_of, Trade, TradeView, User};

verus! {

/// The reply to a signup.
pub struct SignupResponseType {
    pub status: String,
}

/// The reply to a sign-in.
pub struct SigninResponseType {
    pub status: String,
}

/// The reply to a top-up: the user's account after it.
pub struct OnRampDbResponseType {
    pub status: String,
    pub balance: u64,
    pub holdings: u64,
}

/// The reply to an existence check.
pub struct CheckUserDbResponseType {
    pub user_exists: bool,
}

/// The reply to a lookup: a snapshot of the user, if there is one.
pub struct GetUserDbResponseType {
    pub user: Option<User>,
}

/// What settling one trade did: the parties' accounts before the transfer,
/// if it took place, and after the attempt.
pub struct ReconciliationDbResponseType {
    pub trade: Trade,
    pub buyer: String,
    pub seller: String,
    pub prev_balances: Vec<User>,
    pub curr_balances: Vec<User>,
}

/// Whether a user with email `e` is in `s`.
pub open spec fn has_user(s: Seq<User>, e: Seq<char>) -> bool {
    exists|i: int| 0 <= i < s.len() && (#[trigger] s[i]).email@ == e
}

/// The position of the user with email `e` in `s`, if there is one.
pub open spec fn index_of(s: Seq<User>, e: Seq<char>) -> int {
    choose|i: int| 0 <= i < s.len() && (#[trigger] s[i]).email@ == e
}

/// The user with email `e` in `s`.
pub open spec fn lookup(s: Seq<User>, e: Seq<char>) -> Option<User> {
    if has_user(s, e) {
        Some(s[index_of(s, e)])
    } else {
        None
    }
}

/// No two users share an email.
pub open spec fn emails_unique(s: Seq<User>) -> bool {
    forall|i: int, j: int| 0 <= i < s.len() && 0 <= j < s.len() && i != j
        ==> (#[trigger] s[i]).email@ != (#[trigger] s[j]).email@
}

/// The users after asking to sign up `email` with `password`.
pub open spec fn with_user(s: Seq<User>, email: String, password: String) -> Seq<User> {
    if has_user(s, email@) {
        s
    } else {
        s.push(User { email, password, balance: 0, holdings: 0 })
    }
}

/// Signing up one email twice: the second request changes nothing, and the
/// stored password is the first one.
pub proof fn lemma_signup_twice(s: Seq<User>, email: String, password: String, other: String)
    requires
        emails_unique(s),
    ensures
        with_user(with_user(s, email, password), email, other) == with_user(s, email, password),
        lookup(with_user(s, email, password), email@) is Some,
        !has_user(s, email@) ==> lookup(with_user(s, email, password), email@)->0.password == password,
{
    let t = with_user(s, email, password);
    if !has_user(s, email@) {
        let n = s.len() as int;
        assert(t[n].email@ == email@);
        assert(emails_unique(t)) by {
            assert forall|i: int, j: int| 0 <= i < t.len() && 0 <= j < t.len() && i != j
                implies (#[trigger] t[i]).email@ != (#[trigger] t[j]).email@ by {
                if i < n && j < n {
                    assert(t[i] == s[i] && t[j] == s[j]);
                } else if i < n {
                    assert(t[i] == s[i]);
                } else {
                    assert(t[j] == s[j]);
                }
            }
        }
        lemma_index_of(t, n);
    }
}

/// The sum of all balances in `s`.
pub open spec fn total_balance(s: Seq<User>) -> int
    decreases s.len(),
{
    if s.len() == 0 {
        0
    } else {
        total_balance(s.drop_last()) + s.last().balance
    }
}

/// The sum of all holdings in `s`.
pub open spec fn total_holdings(s: Seq<User>) -> int
    decreases s.len(),
{
    if s.len() == 0 {
        0
    } else {
        total_holdings(s.drop_last()) + s.last().holdings
    }
}

/// The notional of a trade: its price times its quantity.
pub open spec fn notional(t: TradeView) -> int {
    t.price * t.qty
}

/// Whether the buyer of `t` pays for it against the accounts `s`: the buyer
/// exists, the notional fits in 64 bits and the balance covers it. Orders are
/// admitted against a snapshot taken before matching; this check runs again
/// at settlement, so an account that changed in between is never overdrawn.
pub open spec fn pays(s: Seq<User>, t: TradeView) -> bool {
    &&& has_user(s, t.buyer)
    &&& notional(t) <= u64::MAX
    &&& s[index_of(s, t.buyer)].balance >= notional(t)
}

/// The accounts after the buyer's side of `t`: if the buyer pays, the
/// balance loses the notional and the holdings gain the quantity
/// (saturating); otherwise nothing changes.
pub open spec fn after_buyer(s: Seq<User>, t: TradeView) -> Seq<User> {
    if pays(s, t) {
        let i = index_of(s, t.buyer);
        let b = s[i];
        s.update(i, User {
            balance: (b.balance - notional(t)) as u64,
            holdings: b.holdings.saturating_add(t.qty),
            ..b
        })
    } else {
        s
    }
}

/// Whether the seller of `t` delivers against the accounts `s`: the seller
/// exists, the notional fits in 64 bits and the holdings cover the quantity.
pub open spec fn delivers(s: Seq<User>, t: TradeView) -> bool {
    &&& has_user(s, t.seller)
    &&& notional(t) <= u64::MAX
    &&& s[index_of(s, t.seller)].holdings >= t.qty
}

/// The accounts after the seller's side of `t`: if the seller delivers, the
/// holdings lose the quantity and the balance gains the notional
/// (saturating); otherwise nothing changes.
pub open spec fn after_seller(s: Seq<User>, t: TradeView) -> Seq<User> {
    if delivers(s, t) {
        let i = index_of(s, t.seller);
        let v = s[i];
        s.update(i, User {
            balance: v.balance.saturating_add(notional(t) as u64),
            holdings: (v.holdings - t.qty) as u64,
            ..v
        })
    } else {
        s
    }
}

/// The accounts after settling `t`: the buyer's side, then the seller's, each
/// under its own check. An unknown party is skipped.
pub open spec fn settle(s: Seq<User>, t: TradeView) -> Seq<User> {
    after_seller(after_buyer(s, t), t)
}

/// Whether settling `t` against `s` would cut a credit at the largest value:
/// the buyer's holdings or the seller's balance.
pub open spec fn saturates(s: Seq<User>, t: TradeView) -> bool {
    let mid = after_buyer(s, t);
    ||| pays(s, t) && s[index_of(s, t.buyer)].holdings + t.qty > u64::MAX
    ||| delivers(mid, t) && mid[index_of(mid, t.seller)].balance + notional(t) > u64::MAX
}

/// How settling `t` against `s` changes the total of balances: the seller is
/// credited the notional if it delivers, the buyer debited it if it pays.
pub open spec fn balance_flow(s: Seq<User>, t: TradeView) -> int {
    (if delivers(after_buyer(s, t), t) { notional(t) } else { 0 }) - (if pays(s, t) { notional(t) } else { 0 })
}

/// How settling `t` against `s` changes the total of holdings: the buyer
/// gains the quantity if it pays, the seller loses it if it delivers.
pub open spec fn holdings_flow(s: Seq<User>, t: TradeView) -> int {
    (if pays(s, t) { t.qty as int } else { 0 }) - (if delivers(after_buyer(s, t), t) { t.qty as int } else { 0 })
}

/// The accounts after settling `ts` in order.
pub open spec fn settle_all(s: Seq<User>, ts: Seq<TradeView>) -> Seq<User>
    decreases ts.len(),
{
    if ts.len() == 0 {
        s
    } else {
        settle(settle_all(s, ts.drop_last()), ts.last())
    }
}

/// Whether settling `ts` in order against `s` cuts any credit.
pub open spec fn saturates_any(s: Seq<User>, ts: Seq<TradeView>) -> bool
    decreases ts.len(),
{
    if ts.len() == 0 {
        false
    } else {
        saturates_any(s, ts.drop_last()) || saturates(settle_all(s, ts.drop_last()), ts.last())
    }
}

/// The net change of the total of balances over settling `ts` in order.
pub open spec fn balance_flow_all(s: Seq<User>, ts: Seq<TradeView>) -> int
    decreases ts.len(),
{
    if ts.len() == 0 {
        0
    } else {
        balance_flow_all(s, ts.drop_last()) + balance_flow(settle_all(s, ts.drop_last()), ts.last())
    }
}

/// The net change of the total of holdings over settling `ts` in order.
pub open spec fn holdings_flow_all(s: Seq<User>, ts: Seq<TradeView>) -> int
    decreases ts.len(),
{
    if ts.len() == 0 {
        0
    } else {
        holdings_flow_all(s, ts.drop_last()) + holdings_flow(settle_all(s, ts.drop_last()), ts.last())
    }
}

/// The snapshot of the user with email `e` in `s`, as a sequence of at most one.
pub open spec fn snapshot_of(s: Seq<User>, e: Seq<char>) -> Seq<User> {
    if has_user(s, e) {
        seq![s[index_of(s, e)]]
    } else {
        seq![]
    }
}

/// `rec` records settling `t` against `before`: the snapshot of each party
/// just before its side settled, for each side that did, and the snapshot of
/// each known party just after its side was attempted.
pub open spec fn records(before: Seq<User>, t: Trade, rec: ReconciliationDbResponseType) -> bool {
    let mid = after_buyer(before, t@);
    let after = after_seller(mid, t@);
    &&& rec.trade == t
    &&& rec.buyer@ == t.buyer@
    &&& rec.seller@ == t.seller@
    &&& rec.prev_balances@ == (if pays(before, t@) { snapshot_of(before, t.buyer@) } else { seq![] })
        + (if delivers(mid, t@) { snapshot_of(mid, t.seller@) } else { seq![] })
    &&& rec.curr_balances@ == snapshot_of(mid, t.buyer@) + snapshot_of(after, t.seller@)
}

/// The owner of all users: signup, sign-in, top-ups, lookups and settlement
/// of trades.
pub struct Ledger {
    pub users: Vec<User>,
}

proof fn lemma_totals_update(s: Seq<User>, i: int, u: User)
    requires
        0 <= i < s.len(),
    ensures
        total_balance(s.update(i, u)) == total_balance(s) - s[i].balance + u.balance,
        total_holdings(s.update(i, u)) == total_holdings(s) - s[i].holdings + u.holdings,
    decreases s.len(),
{
    let t = s.update(i, u);
    if i == s.len() - 1 {
        assert(t.drop_last() =~= s.drop_last());
    } else {
        assert(t.drop_last() =~= s.drop_last().update(i, u));
        lemma_totals_update(s.drop_last(), i, u);
    }
}

proof fn lemma_index_of(s: Seq<User>, i: int)
    requires
        emails_unique(s),
        0 <= i < s.len(),
    ensures
        has_user(s, s[i].email@),
        index_of(s, s[i].email@) == i,
{
    assert(has_user(s, s[i].email@));
}

/// Replacing a user by one with the same email keeps emails unique and
/// every user where it was.
proof fn lemma_update_keeps_emails(s: Seq<User>, i: int, u: User)
    requires
        emails_unique(s),
        0 <= i < s.len(),
        u.email == s[i].email,
    ensures
        emails_unique(s.update(i, u)),
        forall|e: Seq<char>| #[trigger] has_user(s.update(i, u), e) == has_user(s, e),
        forall|e: Seq<char>| has_user(s, e) ==> #[trigger] index_of(s.update(i, u), e) == index_of(s, e),
{
    let s2 = s.update(i, u);
    assert forall|a: int, b: int| 0 <= a < s2.len() && 0 <= b < s2.len() && a != b
        implies (#[trigger] s2[a]).email@ != (#[trigger] s2[b]).email@ by {
        assert(s2[a].email == s[a].email && s2[b].email == s[b].email);
    }
    assert forall|e: Seq<char>| #[trigger] has_user(s2, e) == has_user(s, e) by {
        if has_user(s, e) {
            let j = choose|j: int| 0 <= j < s.len() && (#[trigger] s[j]).email@ == e;
            assert(s2[j].email == s[j].email);
        }
        if has_user(s2, e) {
            let j = choose|j: int| 0 <= j < s2.len() && (#[trigger] s2[j]).email@ == e;
            assert(s2[j].email == s[j].email);
        }
    }
    assert forall|e: Seq<char>| has_user(s, e) implies #[trigger] index_of(s2, e) == index_of(s, e) by {
        let j = index_of(s, e);
        assert(s2[j].email == s[j].email);
        lemma_index_of(s2, j);
    }
}

/// Settling one trade: emails stay unique and every user stays where it was;
/// unless a credit is cut at the largest value, the total of balances changes
/// by exactly `balance_flow` and the total of holdings by `holdings_flow`,
/// which are both zero when both sides settle or neither does.
pub proof fn lemma_settle_flows(s: Seq<User>, t: TradeView)
    requires
        emails_unique(s),
    ensures
        emails_unique(settle(s, t)),
        settle(s, t).len() == s.len(),
        forall|i: int| 0 <= i < s.len() ==> (#[trigger] settle(s, t)[i]).email == s[i].email,
        !saturates(s, t) ==> total_balance(settle(s, t)) == total_balance(s) + balance_flow(s, t),
        !saturates(s, t) ==> total_holdings(settle(s, t)) == total_holdings(s) + holdings_flow(s, t),
        pays(s, t) == delivers(after_buyer(s, t), t) ==> balance_flow(s, t) == 0 && holdings_flow(s, t) == 0,
{
    let mid = after_buyer(s, t);
    if pays(s, t) {
        let i = index_of(s, t.buyer);
        let b = s[i];
        let nb = User { balance: (b.balance - notional(t)) as u64, holdings: b.holdings.saturating_add(t.qty), ..b };
        lemma_totals_update(s, i, nb);
        lemma_update_keeps_emails(s, i, nb);
    }
    assert(emails_unique(mid));
    if delivers(mid, t) {
        let i = index_of(mid, t.seller);
        let v = mid[i];
        let nv = User { balance: v.balance.saturating_add(notional(t) as u64), holdings: (v.holdings - t.qty) as u64, ..v };
        lemma_totals_update(mid, i, nv);
        lemma_update_keeps_emails(mid, i, nv);
    }
}

/// Across any sequence of trades settled in order, unless a credit is cut at
/// the largest value, the total of balances changes by exactly the notionals
/// credited to delivering sellers less those debited from paying buyers, and
/// the total of holdings by the quantities bought less those delivered; so
/// both totals are conserved when every trade settles on both sides.
pub proof fn lemma_settle_all_flows(s: Seq<User>, ts: Seq<TradeView>)
    requires
        emails_unique(s),
    ensures
        emails_unique(settle_all(s, ts)),
        !saturates_any(s, ts) ==> total_balance(settle_all(s, ts)) == total_balance(s) + balance_flow_all(s, ts),
        !saturates_any(s, ts) ==> total_holdings(settle_all(s, ts)) == total_holdings(s) + holdings_flow_all(s, ts),
    decreases ts.len(),
{
    if ts.len() > 0 {
        lemma_settle_all_flows(s, ts.drop_last());
        lemma_settle_flows(settle_all(s, ts.drop_last()), ts.last());
    }
}

impl Ledger {
    /// Emails are unique.
    pub open spec fn wf(&self) -> bool {
        emails_unique(self.users@)
    }

    /// An empty ledger.
    pub fn new() -> (r: Ledger)
        ensures
            r.wf(),
            r.users@.len() == 0,
    {
        Ledger { users: Vec::new() }
    }

    /// The position of the user with email `email`.
    fn find(&self, email: &String) -> (r: Option<usize>)
        requires
            self.wf(),
        ensures
            match r {
                Some(i) => i < self.users@.len() && has_user(self.users@, email@) && i == index_of(self.users@, email@),
                None => !has_user(self.users@, email@),
            },
    {
        let mut i: usize = 0;
        while i < self.users.len()
            invariant
                self.wf(),
                i <= self.users@.len(),
                forall|j: int| 0 <= j < i ==> (#[trigger] self.users@[j]).email@ != email@,
            decreases self.users@.len() - i,
        {
            if self.users[i].email == *email {
                proof {
                    lemma_index_of(self.users@, i as int);
                }
                return Some(i);
            }
            i = i + 1;
        }
        None
    }

    /// Creates a user with nothing on account, unless the email is taken.
    pub fn signup(&mut self, email: String, password: String) -> (r: SignupResponseType)
        requires
            old(self).wf(),
        ensures
            final(self).wf(),
            final(self).users@ == with_user(old(self).users@, email, password),
            has_user(old(self).users@, email@) ==> final(self).users@ == old(self).users@
                && r.status@ == "User already exists"@,
            !has_user(old(self).users@, email@) ==> final(self).users@ == old(self).users@.push(
                User { email, password, balance: 0, holdings: 0 },
            ) && r.status@ == "User Created Successfully "@,
    {
        match self.find(&email) {
            Some(_) => SignupResponseType { status: "User already exists".to_string() },
            None => {
                let ghost before = self.users@;
                self.users.push(User::new(email, password));
                proof {
                    assert forall|i: int, j: int| 0 <= i < self.users@.len() && 0 <= j < self.users@.len() && i != j
                        implies (#[trigger] self.users@[i]).email@ != (#[trigger] self.users@[j]).email@ by {
                        if i == before.len() {
                            assert(self.users@[j] == before[j]);
                        } else if j == before.len() {
                            assert(self.users@[i] == before[i]);
                        } else {
                            assert(self.users@[i] == before[i] && self.users@[j] == before[j]);
                        }
                    }
                }
                SignupResponseType { status: "User Created Successfully ".to_string() }
            },
        }
    }

    /// Classifies a sign-in: authenticated, wrong password, or unknown user.
    pub fn signin(&self, email: &String, password: &String) -> (r: SigninResponseType)
        requires
            self.wf(),
        ensures
            r.status@ == match lookup(self.users@, email@) {
                Some(u) => if u.password@ == password@ {
                    "User Authenticated"@
                } else {
                    "Incorrect Password"@
                },
                None => "Kindly SignUp!"@,
            },
    {
        match self.find(email) {
            Some(i) => {
                if self.users[i].password == *password {
                    SigninResponseType { status: "User Authenticated".to_string() }
                } else {
                    SigninResponseType { status: "Incorrect Password".to_string() }
                }
            },
            None => SigninResponseType { status: "Kindly SignUp!".to_string() },
        }
    }

    /// Credits a user's balance and holdings, each saturating at the largest
    /// value; an unknown user gets a "not found" reply with zeros.
    pub fn onramp(&mut self, email: &String, delta_balance: u64, delta_holdings: u64) -> (r: OnRampDbResponseType)
        requires
            old(self).wf(),
        ensures
            final(self).wf(),
            match lookup(old(self).users@, email@) {
                Some(u) => {
                    let i = index_of(old(self).users@, email@);
                    let nu = User {
                        balance: u.balance.saturating_add(delta_balance),
                        holdings: u.holdings.saturating_add(delta_holdings),
                        ..u
                    };
                    &&& final(self).users@ == old(self).users@.update(i, nu)
                    &&& r.status@ == "Successfull! User "@ + u.email@ + " now has balance : "@ + decimal_of(
                        nu.balance as nat,
                    ) + " , holding: "@ + decimal_of(nu.holdings as nat) + " "@
                    &&& r.balance == nu.balance
                    &&& r.holdings == nu.holdings
                    &&& total_balance(final(self).users@) == total_balance(old(self).users@) - u.balance + nu.balance
                    &&& total_holdings(final(self).users@) == total_holdings(old(self).users@) - u.holdings + nu.holdings
                },
                None => {
                    &&& final(self).users@ == old(self).users@
                    &&& r.status@ == "User not found! User: "@ + email@ + " found"@
                    &&& r.balance == 0
                    &&& r.holdings == 0
                },
            },
    {
        match self.find(email) {
            Some(i) => {
                let mut u = self.users[i].copy();
                u.balance = u.balance.saturating_add(delta_balance);
                u.holdings = u.holdings.saturating_add(delta_holdings);
                let balance = u.balance;
                let holdings = u.holdings;
                proof {
                    lemma_totals_update(self.users@, i as int, u);
                }
                self.users.set(i, u);
                let mut status = "Successfull! User ".to_string();
                status.append(self.users[i].email.as_str());
                status.append(" now has balance : ");
                status.append(decimal(balance).as_str());
                status.append(" , holding: ");
                status.append(decimal(holdings).as_str());
                status.append(" ");
                OnRampDbResponseType { status, balance, holdings }
            },
            None => {
                let mut status = "User not found! User: ".to_string();
                status.append(email.as_str());
                status.append(" found");
                OnRampDbResponseType { status, balance: 0, holdings: 0 }
            },
        }
    }

    /// Whether a user with this email exists.
    pub fn check_user(&self, email: &String) -> (r: CheckUserDbResponseType)
        requires
            self.wf(),
        ensures
            r.user_exists == has_user(self.users@, email@),
    {
        CheckUserDbResponseType { user_exists: self.find(email).is_some() }
    }

    /// A snapshot of the user with this email, if there is one.
    pub fn get_user(&self, email: &String) -> (r: GetUserDbResponseType)
        requires
            self.wf(),
        ensures
            r.user == lookup(self.users@, email@),
    {
        match self.find(email) {
            Some(i) => GetUserDbResponseType { user: Some(self.users[i].copy()) },
            None => GetUserDbResponseType { user: None },
        }
    }

    /// A snapshot of the user at `i`, if any, as a vector of at most one.
    fn snapshot(&self, i: Option<usize>) -> (r: Vec<User>)
        requires
            match i {
                Some(k) => k < self.users@.len(),
                None => true,
            },
        ensures
            r@ == match i {
                Some(k) => seq![self.users@[k as int]],
                None => seq![],
            },
    {
        let mut r: Vec<User> = Vec::new();
        match i {
            Some(k) => {
                r.push(self.users[k].copy());
                assert(r@ =~= seq![self.users@[k as int]]);
            },
            None => {},
        }
        r
    }

    /// Settles one trade: the buyer's side, then the seller's, each under its
    /// own check.
    fn settle_one(&mut self, t: Trade) -> (r: ReconciliationDbResponseType)
        requires
            old(self).wf(),
        ensures
            final(self).wf(),
            final(self).users@ == settle(old(self).users@, t@),
            records(old(self).users@, t, r),
    {
        let ghost s0 = self.users@;
        let product = t.price.checked_mul(t.qty);
        let mut prev: Vec<User> = Vec::new();
        let mut curr: Vec<User> = Vec::new();
        let bi = self.find(&t.buyer);
        match bi {
            Some(b) => {
                let covered = match product {
                    Some(pq) => self.users[b].balance >= pq,
                    None => false,
                };
                if covered {
                    let pq = product.unwrap();
                    prev.push(self.users[b].copy());
                    let mut u = self.users[b].copy();
                    u.balance = u.balance - pq;
                    u.holdings = u.holdings.saturating_add(t.qty);
                    proof {
                        lemma_update_keeps_emails(self.users@, b as int, u);
                    }
                    self.users.set(b, u);
                    proof {
                        lemma_index_of(self.users@, b as int);
                    }
                }
                curr.push(self.users[b].copy());
                assert(prev@ =~= if pays(s0, t@) { snapshot_of(s0, t.buyer@) } else { seq![] });
            },
            None => {},
        }
        assert(self.users@ =~= after_buyer(s0, t@));
        let ghost s1 = self.users@;
        let ghost prev_buyer = prev@;
        assert(curr@ =~= snapshot_of(s1, t.buyer@));
        let si = self.find(&t.seller);
        match si {
            Some(v) => {
                let delivered = match product {
                    Some(_) => self.users[v].holdings >= t.qty,
                    None => false,
                };
                if delivered {
                    let pq = product.unwrap();
                    prev.push(self.users[v].copy());
                    let mut u = self.users[v].copy();
                    u.holdings = u.holdings - t.qty;
                    u.balance = u.balance.saturating_add(pq);
                    proof {
                        lemma_update_keeps_emails(self.users@, v as int, u);
                    }
                    self.users.set(v, u);
                    proof {
                        lemma_index_of(self.users@, v as int);
                    }
                }
                let ghost c1 = curr@;
                curr.push(self.users[v].copy());
                assert(curr@ =~= c1 + snapshot_of(after_seller(s1, t@), t.seller@));
                assert(prev@ =~= prev_buyer + if delivers(s1, t@) { snapshot_of(s1, t.seller@) } else { seq![] });
            },
            None => {
                assert(prev@ =~= prev_buyer + seq![]);
                assert(curr@ =~= curr@ + seq![]);
            },
        }
        assert(self.users@ =~= settle(s0, t@));
        let buyer = t.buyer.clone();
        let seller = t.seller.clone();
        ReconciliationDbResponseType { trade: t, buyer, seller, prev_balances: prev, curr_balances: curr }
    }

    /// Settles `trades` in order, one record each. Unless a credit is cut at
    /// the largest value, the totals of balances and of holdings change by
    /// exactly the value that the settled sides moved.
    pub fn reconcile(&mut self, trades: Vec<Trade>) -> (r: Vec<ReconciliationDbResponseType>)
        requires
            old(self).wf(),
        ensures
            final(self).wf(),
            final(self).users@ == settle_all(old(self).users@, trades@.map_values(|t: Trade| t@)),
            !saturates_any(old(self).users@, trades@.map_values(|t: Trade| t@)) ==> total_balance(final(self).users@)
                == total_balance(old(self).users@) + balance_flow_all(old(self).users@, trades@.map_values(|t: Trade| t@)),
            !saturates_any(old(self).users@, trades@.map_values(|t: Trade| t@)) ==> total_holdings(final(self).users@)
                == total_holdings(old(self).users@) + holdings_flow_all(old(self).users@, trades@.map_values(|t: Trade| t@)),
            r@.len() == trades@.len(),
            forall|k: int| 0 <= k < trades@.len() ==> records(
                settle_all(old(self).users@, trades@.map_values(|t: Trade| t@).take(k)),
                trades@[k],
                #[trigger] r@[k],
            ),
    {
        let ghost start = self.users@;
        let ghost ts = trades@.map_values(|t: Trade| t@);
        let mut out: Vec<ReconciliationDbResponseType> = Vec::new();
        let mut i: usize = 0;
        assert(ts.take(0) =~= Seq::<TradeView>::empty());
        while i < trades.len()
            invariant
                self.wf(),
                i <= trades@.len(),
                ts == trades@.map_values(|t: Trade| t@),
                self.users@ == settle_all(start, ts.take(i as int)),
                out@.len() == i,
                forall|k: int| 0 <= k < i ==> records(settle_all(start, ts.take(k)), trades@[k], #[trigger] out@[k]),
            decreases trades@.len() - i,
        {
            let ghost here = self.users@;
            let rec = self.settle_one(trades[i].copy());
            assert(ts.take(i + 1).drop_last() =~= ts.take(i as int));
            assert(ts.take(i + 1).last() == trades@[i as int]@);
            out.push(rec);
            i = i + 1;
        }
        assert(ts.take(trades@.len() as int) =~= ts);
        proof {
            lemma_settle_all_flows(start, ts);
        }
        out
    }
}

} // verus!
