//! One account of the ledger: its cash, its holdings, the quantities that its
//! open orders reserve, and the cross-node trades it has provisionally made.

use vstd::prelude::*;
use crate::sums::{lemma_sum_push, lemma_sum_update, seq_sum};
use crate::idmap::{id_map, lemma_id_absent, lemma_id_at, lemma_id_remove, unique_ids};
use crate::tally::{Tally, TallyKey};
use crate::depth::{depth, depth_of, level_sum, Level};
use crate::types::{AllOrders, BuySell, OrderReq, OrderType, Order, QuantityPrice, Trade, TradeID, UserID};

verus! {

/// A ledger operation that cannot go ahead; the account is left as it was.
#[derive(Clone, Copy, Debug, PartialEq, Eq, Structural)]
pub enum LedgerError {
    /// No account has this number on this node.
    UnknownAccount,
    /// No pending trade has this identifier.
    UnknownTrade,
    /// A pending trade with this identifier exists already.
    DuplicateTrade,
    /// The trade does not have this account (or this node) on exactly one side.
    NotOwner,
    /// The cash, holding or reservation that the trade consumes is not there.
    Insufficient,
    /// A trade from the matcher names no existing account of this node.
    UnknownParty,
    /// An amount would not fit in 64 bits.
    Overflow,
}

/// Why an account cannot be deleted.
#[derive(Clone, Copy, Debug, PartialEq, Eq, Structural)]
pub enum NotEmpty {
    Balance,
    Portfolio,
    BuyOrders,
    SellOrders,
}

pub type Entry = ((String, u64), u64);

/// Sum of price times quantity over reservation entries.
pub open spec fn weighted(s: Seq<Entry>) -> int {
    seq_sum(s.map_values(|e: Entry| e.0.1 * e.1))
}

/// Sum of the quantities reserved for ticker `t` over reservation entries.
pub open spec fn ticker_total(s: Seq<Entry>, t: Seq<char>) -> int {
    seq_sum(s.map_values(|e: Entry| if e.0.0@ == t { e.1 as int } else { 0 }))
}

proof fn lemma_entry_update(s: Seq<Entry>, i: int, nq: u64)
    requires
        0 <= i < s.len(),
    ensures
        weighted(s.update(i, (s[i].0, nq))) == weighted(s) - s[i].0.1 * s[i].1 + s[i].0.1 * nq,
        forall|t: Seq<char>| #[trigger] ticker_total(s.update(i, (s[i].0, nq)), t)
            == ticker_total(s, t) - (if s[i].0.0@ == t { s[i].1 as int } else { 0 }) + (if s[i].0.0@
                == t { nq as int } else { 0 }),
{
    let n = s.update(i, (s[i].0, nq));
    let f = |e: Entry| e.0.1 * e.1;
    assert(n.map_values(f) =~= s.map_values(f).update(i, f(n[i])));
    lemma_sum_update(s.map_values(f), i, f(n[i]));
    assert forall|t: Seq<char>| #[trigger] ticker_total(n, t) == ticker_total(s, t) - (if s[i].0.0@
        == t { s[i].1 as int } else { 0 }) + (if s[i].0.0@ == t { nq as int } else { 0 }) by {
        let g = |e: Entry| if e.0.0@ == t { e.1 as int } else { 0 };
        assert(n.map_values(g) =~= s.map_values(g).update(i, g(n[i])));
        lemma_sum_update(s.map_values(g), i, g(n[i]));
    }
}

proof fn lemma_entry_push(s: Seq<Entry>, e: Entry)
    ensures
        weighted(s.push(e)) == weighted(s) + e.0.1 * e.1,
        forall|t: Seq<char>| #[trigger] ticker_total(s.push(e), t) == ticker_total(s, t) + (if e.0.0@
            == t { e.1 as int } else { 0 }),
{
    let f = |e: Entry| e.0.1 * e.1;
    assert(s.push(e).map_values(f) =~= s.map_values(f).push(f(e)));
    lemma_sum_push(s.map_values(f), f(e));
    assert forall|t: Seq<char>| #[trigger] ticker_total(s.push(e), t) == ticker_total(s, t) + (if e.0.0@
        == t { e.1 as int } else { 0 }) by {
        let g = |e: Entry| if e.0.0@ == t { e.1 as int } else { 0 };
        assert(s.push(e).map_values(g) =~= s.map_values(g).push(g(e)));
        lemma_sum_push(s.map_values(g), g(e));
    }
}

/// Reservation entries as (ticker, price, quantity).
pub open spec fn entry_levels(s: Seq<Entry>) -> Seq<Level> {
    s.map_values(|e: Entry| (e.0.0, e.0.1, e.1))
}

proof fn lemma_entry_levels_sum(s: Seq<Entry>, t: Seq<char>, p: u64)
    ensures
        level_sum(entry_levels(s), t, p) == seq_sum(crate::tally::shares(s, (t, p))),
    decreases s.len(),
{
    if s.len() > 0 {
        lemma_entry_levels_sum(s.drop_last(), t, p);
        assert(entry_levels(s).drop_last() =~= entry_levels(s.drop_last()));
        assert(crate::tally::shares(s, (t, p)).drop_last() =~= crate::tally::shares(s.drop_last(), (t, p)));
    }
}

fn levels_of_entries(s: &Vec<Entry>) -> (r: Vec<Level>)
    ensures
        r@ == entry_levels(s@),
{
    let mut out: Vec<Level> = Vec::new();
    let mut i: usize = 0;
    while i < s.len()
        invariant
            i <= s@.len(),
            out@ == entry_levels(s@.take(i as int)),
        decreases s@.len() - i,
    {
        out.push((s[i].0.0.clone(), s[i].0.1, s[i].1));
        proof {
            assert(entry_levels(s@.take(i + 1)) =~= entry_levels(s@.take(i as int)).push(
                (s@[i as int].0.0, s@[i as int].0.1, s@[i as int].1)));
        }
        i = i + 1;
    }
    assert(s@.take(i as int) =~= s@);
    out
}

pub struct Account {
    id: UserID,
    balance: u64,
    portfolio: Tally<String>,
    buys: Tally<(String, u64)>,
    sells: Tally<(String, u64)>,
    pending: Vec<(TradeID, Trade)>,
}

impl Account {
    pub closed spec fn wf(&self) -> bool {
        &&& self.portfolio.wf()
        &&& self.buys.wf()
        &&& self.sells.wf()
        &&& unique_ids(self.pending@)
    }

    pub closed spec fn user(&self) -> UserID {
        self.id
    }

    pub closed spec fn cash(&self) -> int {
        self.balance as int
    }

    /// Shares of ticker `t` held.
    pub closed spec fn held(&self, t: Seq<char>) -> int {
        self.portfolio.amount(t)
    }

    /// Quantity that open orders of side `side` at price `p` reserve for ticker `t`.
    pub closed spec fn reserved(&self, side: OrderType, t: Seq<char>, p: u64) -> int {
        match side {
            OrderType::Buy => self.buys.amount((t, p)),
            OrderType::Sell => self.sells.amount((t, p)),
        }
    }

    /// Cash that open buy orders reserve: price times quantity, summed.
    pub closed spec fn exposure(&self) -> int {
        weighted(self.buys.entries@)
    }

    /// Shares of `t` that open sell orders reserve, over all prices.
    pub closed spec fn sell_total(&self, t: Seq<char>) -> int {
        ticker_total(self.sells.entries@, t)
    }

    /// The trades awaiting the remote side's answer, by identifier.
    pub closed spec fn pending_trades(&self) -> Map<TradeID, Trade> {
        id_map(self.pending@)
    }

    /// Reservations never exceed what backs them: buy exposure stays within
    /// the cash, and the shares reserved for sale stay within the holding.
    pub open spec fn solvent(&self) -> bool {
        &&& self.exposure() <= self.cash()
        &&& forall|t: Seq<char>| #[trigger] self.sell_total(t) <= self.held(t)
    }

    /// True of two accounts that differ by `delta` shares of `t` only.
    pub open spec fn holdings_moved(&self, other: &Account, t: Seq<char>, delta: int) -> bool {
        forall|u: Seq<char>| #[trigger] other.held(u) == self.held(u) + if u == t { delta } else { 0 }
    }

    /// True of two accounts that differ by `delta` in one reservation only.
    pub open spec fn reservations_moved(
        &self,
        other: &Account,
        side: OrderType,
        t: Seq<char>,
        p: u64,
        delta: int,
    ) -> bool {
        forall|s: OrderType, u: Seq<char>, q: u64| #[trigger] other.reserved(s, u, q)
            == self.reserved(s, u, q) + if s == side && u == t && q == p { delta } else { 0 }
    }

    /// The side of `trade` that this account is on: the buyer's if it is both.
    pub open spec fn side_in(&self, trade: Trade) -> OrderType {
        if trade.buyer_id == self.user() {
            OrderType::Buy
        } else {
            OrderType::Sell
        }
    }

    /// The limit price of this account's order in `trade`.
    pub open spec fn limit_in(&self, trade: Trade) -> u64 {
        if trade.buyer_id == self.user() {
            trade.buy_price
        } else {
            trade.sell_price
        }
    }

    /// Balance, holdings and pending trades are those of `other`.
    pub open spec fn same_books(&self, other: &Account) -> bool {
        &&& self.user() == other.user()
        &&& self.cash() == other.cash()
        &&& self.holdings_moved(other, Seq::empty(), 0)
        &&& self.reservations_moved(other, OrderType::Buy, Seq::empty(), 0, 0)
        &&& self.pending_trades() == other.pending_trades()
    }

    /// The effect of provisionally committing to `trade` under `trade_id`: the
    /// side that needs no remote confirmation is applied, the reservation is consumed.
    pub open spec fn pending_added(&self, trade_id: TradeID, trade: Trade, after: &Account) -> bool {
        let q = trade.quantity as int;
        &&& after.wf()
        &&& after.user() == self.user()
        &&& after.pending_trades() == self.pending_trades().insert(trade_id, trade)
        &&& self.reservations_moved(after, self.side_in(trade), trade.ticker@, self.limit_in(trade), -q)
        &&& if trade.buyer_id == self.user() {
            &&& after.cash() == self.cash() - trade.cost()
            &&& self.holdings_moved(after, trade.ticker@, 0)
            &&& after.exposure() == self.exposure() - trade.buy_price * trade.quantity
            &&& forall|u: Seq<char>| #[trigger] after.sell_total(u) == self.sell_total(u)
        } else {
            &&& after.cash() == self.cash()
            &&& self.holdings_moved(after, trade.ticker@, -q)
            &&& after.exposure() == self.exposure()
            &&& forall|u: Seq<char>| #[trigger] after.sell_total(u) == self.sell_total(u) - if u == trade.ticker@ { q } else { 0 }
        }
    }

    /// The effect of the remote side accepting pending `trade_id`.
    pub open spec fn pending_committed(&self, trade_id: TradeID, after: &Account) -> bool {
        let trade = self.pending_trades()[trade_id];
        &&& after.wf()
        &&& after.user() == self.user()
        &&& after.pending_trades() == self.pending_trades().remove(trade_id)
        &&& self.reservations_moved(after, OrderType::Buy, trade.ticker@, 0, 0)
        &&& if trade.buyer_id == self.user() {
            &&& after.cash() == self.cash()
            &&& self.holdings_moved(after, trade.ticker@, trade.quantity as int)
        } else {
            &&& after.cash() == self.cash() + trade.cost()
            &&& self.holdings_moved(after, trade.ticker@, 0)
        }
    }

    /// The effect of the remote side rejecting pending `trade_id`: the debit and
    /// the reservation are given back.
    pub open spec fn pending_aborted(&self, trade_id: TradeID, after: &Account) -> bool {
        let trade = self.pending_trades()[trade_id];
        let q = trade.quantity as int;
        &&& after.wf()
        &&& after.user() == self.user()
        &&& after.pending_trades() == self.pending_trades().remove(trade_id)
        &&& self.reservations_moved(after, self.side_in(trade), trade.ticker@, self.limit_in(trade), q)
        &&& if trade.buyer_id == self.user() {
            &&& after.cash() == self.cash() + trade.cost()
            &&& self.holdings_moved(after, trade.ticker@, 0)
        } else {
            &&& after.cash() == self.cash()
            &&& self.holdings_moved(after, trade.ticker@, q)
        }
    }

    /// The effect of taking the remote side's offer `trade` at once: both
    /// sides of the transfer and the reservation are applied.
    pub open spec fn offer_taken(&self, trade: Trade, after: &Account) -> bool {
        let q = trade.quantity as int;
        &&& after.wf()
        &&& after.user() == self.user()
        &&& after.pending_trades() == self.pending_trades()
        &&& self.reservations_moved(after, self.side_in(trade), trade.ticker@, self.limit_in(trade), -q)
        &&& if trade.buyer_id == self.user() {
            &&& after.cash() == self.cash() - trade.cost()
            &&& self.holdings_moved(after, trade.ticker@, q)
        } else {
            &&& after.cash() == self.cash() + trade.cost()
            &&& self.holdings_moved(after, trade.ticker@, -q)
        }
    }

    /// True of two accounts that differ by `dcash` in cash, by `dheld` shares
    /// of `t`, by `dbuy` in the buy reservation of `t` at `bp` and by `dsell`
    /// in the sell reservation of `t` at `sp`, and in nothing else.
    pub open spec fn shifted(
        &self,
        after: &Account,
        dcash: int,
        t: Seq<char>,
        dheld: int,
        bp: u64,
        dbuy: int,
        sp: u64,
        dsell: int,
    ) -> bool {
        &&& after.wf()
        &&& after.user() == self.user()
        &&& after.cash() == self.cash() + dcash
        &&& self.holdings_moved(after, t, dheld)
        &&& forall|s: OrderType, u: Seq<char>, p: u64| #[trigger] after.reserved(s, u, p)
            == self.reserved(s, u, p) + (if s == OrderType::Buy && u == t && p == bp { dbuy } else { 0 })
            + (if s == OrderType::Sell && u == t && p == sp { dsell } else { 0 })
        &&& after.exposure() == self.exposure() + bp * dbuy
        &&& forall|u: Seq<char>| #[trigger] after.sell_total(u) == self.sell_total(u) + if u == t { dsell } else { 0 }
        &&& after.pending_trades() == self.pending_trades()
    }

    /// Whether the buyer's side of `trade` can be settled at once.
    pub open spec fn can_settle_buy(&self, trade: Trade) -> bool {
        &&& self.reserved(OrderType::Buy, trade.ticker@, trade.buy_price) >= trade.quantity
        &&& self.cash() >= trade.cost()
        &&& self.held(trade.ticker@) + trade.quantity <= u64::MAX
    }

    /// Whether the seller's side of `trade` can be settled at once.
    pub open spec fn can_settle_sell(&self, trade: Trade) -> bool {
        &&& self.reserved(OrderType::Sell, trade.ticker@, trade.sell_price) >= trade.quantity
        &&& self.held(trade.ticker@) >= trade.quantity
        &&& self.cash() + trade.cost() <= u64::MAX
    }

    /// Whether the account may be deleted, and if not, the first reason why.
    pub open spec fn delete_verdict(&self) -> Result<(), NotEmpty> {
        if self.cash() != 0 {
            Err(NotEmpty::Balance)
        } else if exists|t: Seq<char>| #[trigger] self.held(t) != 0 {
            Err(NotEmpty::Portfolio)
        } else if exists|t: Seq<char>, p: u64| #[trigger] self.reserved(OrderType::Buy, t, p) != 0 {
            Err(NotEmpty::BuyOrders)
        } else if exists|t: Seq<char>, p: u64| #[trigger] self.reserved(OrderType::Sell, t, p) != 0 {
            Err(NotEmpty::SellOrders)
        } else {
            Ok(())
        }
    }

    /// The order that re-enters the matcher when pending `trade` is given back.
    pub open spec fn restored_order(&self, trade: Trade) -> Order {
        Order {
            order_type: self.side_in(trade),
            ticker: trade.ticker,
            user_id: self.user(),
            quantity: trade.quantity,
            price: self.limit_in(trade),
        }
    }

    /// Whether a buy order of `req` fits in the free cash, and a sell order in the free shares.
    pub open spec fn has_capacity(&self, req: OrderReq) -> bool {
        match req.order_type {
            OrderType::Buy => self.exposure() + req.price * req.quantity <= self.cash(),
            OrderType::Sell => self.sell_total(req.ticker@) + req.quantity <= self.held(req.ticker@),
        }
    }

    /// This account is exactly one side of `trade`.
    pub open spec fn one_side(&self, trade: Trade) -> bool {
        (trade.buyer_id == self.user()) != (trade.seller_id == self.user())
    }

    /// Whether the remote side's offer `trade` can be taken: the reservation is
    /// still there, the cash or the shares too, and the result fits in 64 bits.
    pub open spec fn accepts(&self, trade: Trade) -> bool {
        let q = trade.quantity as int;
        let t = trade.ticker@;
        &&& self.reserved(self.side_in(trade), t, self.limit_in(trade)) >= q
        &&& if trade.buyer_id == self.user() {
            &&& self.cash() >= trade.cost()
            &&& self.held(t) + q <= u64::MAX
        } else {
            &&& self.held(t) >= q
            &&& self.cash() + trade.cost() <= u64::MAX
        }
    }

    /// Whether pending trade `trade_id` exists and its deferred side fits in 64 bits.
    pub open spec fn can_commit(&self, trade_id: TradeID) -> bool {
        &&& self.pending_trades().contains_key(trade_id)
        &&& {
            let t = self.pending_trades()[trade_id];
            if t.buyer_id == self.user() {
                self.held(t.ticker@) + t.quantity <= u64::MAX
            } else {
                self.cash() + t.cost() <= u64::MAX
            }
        }
    }

    /// Whether pending trade `trade_id` exists and giving it back fits in 64 bits.
    pub open spec fn can_abort(&self, trade_id: TradeID) -> bool {
        &&& self.pending_trades().contains_key(trade_id)
        &&& {
            let t = self.pending_trades()[trade_id];
            &&& self.reserved(self.side_in(t), t.ticker@, self.limit_in(t)) + t.quantity <= u64::MAX
            &&& if t.buyer_id == self.user() {
                self.cash() + t.cost() <= u64::MAX
            } else {
                self.held(t.ticker@) + t.quantity <= u64::MAX
            }
        }
    }

    /// Whether `trade` can be provisionally committed to.
    pub open spec fn can_pend(&self, trade: Trade) -> bool {
        let q = trade.quantity as int;
        let t = trade.ticker@;
        &&& self.reserved(self.side_in(trade), t, self.limit_in(trade)) >= q
        &&& if trade.buyer_id == self.user() {
            self.cash() >= trade.cost()
        } else {
            self.held(t) >= q
        }
    }

    pub proof fn lemma_shift_compose(
        &self,
        mid: &Account,
        after: &Account,
        t: Seq<char>,
        bp: u64,
        sp: u64,
        dc1: int,
        dh1: int,
        db1: int,
        ds1: int,
        dc2: int,
        dh2: int,
        db2: int,
        ds2: int,
    )
        requires
            self.shifted(mid, dc1, t, dh1, bp, db1, sp, ds1),
            mid.shifted(after, dc2, t, dh2, bp, db2, sp, ds2),
        ensures
            self.shifted(after, dc1 + dc2, t, dh1 + dh2, bp, db1 + db2, sp, ds1 + ds2),
    {
        assert forall|u: Seq<char>| #[trigger] after.held(u) == self.held(u) + if u == t { dh1 + dh2 } else { 0 } by {
            assert(mid.held(u) == self.held(u) + if u == t { dh1 } else { 0 });
        }
        assert forall|s: OrderType, u: Seq<char>, p: u64| #[trigger] after.reserved(s, u, p)
            == self.reserved(s, u, p) + (if s == OrderType::Buy && u == t && p == bp { db1 + db2 } else { 0 })
            + (if s == OrderType::Sell && u == t && p == sp { ds1 + ds2 } else { 0 }) by {
            assert(mid.reserved(s, u, p) == self.reserved(s, u, p) + (if s == OrderType::Buy && u == t && p == bp { db1 } else { 0 })
                + (if s == OrderType::Sell && u == t && p == sp { ds1 } else { 0 }));
        }
        assert(bp * db1 + bp * db2 == bp * (db1 + db2)) by (nonlinear_arith);
        assert forall|u: Seq<char>| #[trigger] after.sell_total(u) == self.sell_total(u) + if u == t { ds1 + ds2 } else { 0 } by {
            assert(mid.sell_total(u) == self.sell_total(u) + if u == t { ds1 } else { 0 });
        }
    }

    pub proof fn lemma_wf_nonneg(&self)
        requires
            self.wf(),
        ensures
            self.cash() <= u64::MAX,
            self.cash() >= 0,
            forall|t: Seq<char>| #[trigger] self.held(t) >= 0,
            forall|s: OrderType, t: Seq<char>, p: u64| #[trigger] self.reserved(s, t, p) >= 0,
            forall|t: Seq<char>| #[trigger] self.held(t) <= u64::MAX,
            forall|s: OrderType, t: Seq<char>, p: u64| #[trigger] self.reserved(s, t, p) <= u64::MAX,
    {
        assert forall|t: Seq<char>| #[trigger] self.held(t) <= u64::MAX by {
            lemma_tally_bound(&self.portfolio, t);
        }
        assert forall|s: OrderType, t: Seq<char>, p: u64| #[trigger] self.reserved(s, t, p) <= u64::MAX by {
            lemma_tally_bound(&self.buys, (t, p));
            lemma_tally_bound(&self.sells, (t, p));
        }
        assert forall|t: Seq<char>| #[trigger] self.held(t) >= 0 by {
            self.portfolio.lemma_amount_nonneg(t);
        }
        assert forall|s: OrderType, t: Seq<char>, p: u64| #[trigger] self.reserved(s, t, p) >= 0 by {
            self.buys.lemma_amount_nonneg((t, p));
            self.sells.lemma_amount_nonneg((t, p));
        }
    }

    /// The buy exposure covers each buy reservation at its price, and the
    /// shares reserved for sale of a ticker cover each of its sell reservations.
    pub proof fn lemma_reservations_covered(&self, t: Seq<char>, p: u64)
        requires
            self.wf(),
        ensures
            self.exposure() >= p * self.reserved(OrderType::Buy, t, p),
            self.sell_total(t) >= self.reserved(OrderType::Sell, t, p),
    {
        let f = |e: Entry| e.0.1 * e.1;
        let m = self.buys.entries@.map_values(f);
        assert forall|j: int| 0 <= j < m.len() implies m[j] >= 0 by {
            let a = self.buys.entries@[j].0.1;
            let b = self.buys.entries@[j].1;
            assert(a * b >= 0) by (nonlinear_arith);
        }
        crate::sums::lemma_sum_nonneg(m);
        if exists|i: int| 0 <= i < self.buys.entries@.len() && self.buys.entries@[i].0@ == (t, p) {
            let i = choose|i: int| 0 <= i < self.buys.entries@.len() && self.buys.entries@[i].0@ == (t, p);
            self.buys.lemma_amount_at(i);
            assert(m[i] == f(self.buys.entries@[i]));
        } else {
            self.buys.lemma_amount_absent((t, p));
            self.lemma_exposure_nonneg();
            assert(p * 0int == 0) by (nonlinear_arith);
        }
        assert forall|u: Seq<char>| #[trigger] self.sell_total(u) >= self.reserved(OrderType::Sell, u, p) by {
            let g = |e: Entry| if e.0.0@ == u { e.1 as int } else { 0 };
            let n = self.sells.entries@.map_values(g);
            crate::sums::lemma_sum_nonneg(n);
            if exists|i: int| 0 <= i < self.sells.entries@.len() && self.sells.entries@[i].0@ == (u, p) {
                let i = choose|i: int| 0 <= i < self.sells.entries@.len() && self.sells.entries@[i].0@ == (u, p);
                self.sells.lemma_amount_at(i);
                assert(n[i] == self.sells.entries@[i].1);
            } else {
                self.sells.lemma_amount_absent((u, p));
            }
        }
        assert(self.sell_total(t) >= self.reserved(OrderType::Sell, t, p));
    }

    proof fn lemma_exposure_nonneg(&self)
        ensures
            self.exposure() >= 0,
    {
        let f = |e: Entry| e.0.1 * e.1;
        let m = self.buys.entries@.map_values(f);
        assert forall|j: int| 0 <= j < m.len() implies m[j] >= 0 by {
            let a = self.buys.entries@[j].0.1;
            let b = self.buys.entries@[j].1;
            assert(a * b >= 0) by (nonlinear_arith);
        }
        crate::sums::lemma_sum_nonneg(m);
    }

    pub fn new(id: UserID) -> (r: Account)
        ensures
            r.wf(),
            r.user() == id,
            r.cash() == 0,
            forall|t: Seq<char>| #[trigger] r.held(t) == 0,
            forall|s: OrderType, t: Seq<char>, p: u64| #[trigger] r.reserved(s, t, p) == 0,
            r.pending_trades() == Map::<TradeID, Trade>::empty(),
            r.exposure() == 0,
            forall|t: Seq<char>| #[trigger] r.sell_total(t) == 0,
            r.solvent(),
    {
        let r = Account {
            id,
            balance: 0,
            portfolio: Tally::new(),
            buys: Tally::new(),
            sells: Tally::new(),
            pending: Vec::new(),
        };
        proof {
            assert(r.buys.entries@.map_values(|e: Entry| e.0.1 * e.1) =~= Seq::<int>::empty());
            assert forall|t: Seq<char>| #[trigger] r.sell_total(t) == 0 by {
                assert(r.sells.entries@.map_values(|e: Entry| if e.0.0@ == t { e.1 as int } else { 0 })
                    =~= Seq::<int>::empty());
            }
            assert forall|s: OrderType, t: Seq<char>, p: u64| #[trigger] r.reserved(s, t, p) == 0 by {
                assert(r.buys.amount((t, p)) == 0);
                assert(r.sells.amount((t, p)) == 0);
            }
            assert(id_map(r.pending@) =~= Map::<TradeID, Trade>::empty());
        }
        r
    }

    pub fn get_id(&self) -> (r: UserID)
        ensures
            r == self.user(),
    {
        self.id
    }

    pub fn get_balance(&self) -> (r: u64)
        ensures
            r == self.cash(),
    {
        self.balance
    }

    /// The buy exposure, if it fits in 64 bits.
    fn exposure_checked(&self) -> (r: Option<u64>)
        ensures
            match r {
                Some(e) => e == self.exposure(),
                None => self.exposure() > u64::MAX,
            },
    {
        let ghost s = self.buys.entries@;
        let ghost f = |e: Entry| e.0.1 * e.1;
        assert forall|j: int| 0 <= j < s.len() implies #[trigger] s.map_values(f)[j] >= 0 by {
            let a = s[j].0.1;
            let b = s[j].1;
            assert(a * b >= 0) by (nonlinear_arith);
        }
        let mut total: u64 = 0;
        let mut i: usize = 0;
        while i < self.buys.entries.len()
            invariant
                i <= s.len(),
                s == self.buys.entries@,
                f == (|e: Entry| e.0.1 * e.1),
                forall|j: int| 0 <= j < s.len() ==> #[trigger] s.map_values(f)[j] >= 0,
                total == seq_sum(s.take(i as int).map_values(f)),
            decreases s.len() - i,
        {
            let e = &self.buys.entries[i];
            proof {
                assert(s.take(i + 1).map_values(f) =~= s.take(i as int).map_values(f).push(f(s[i as int])));
                lemma_sum_push(s.take(i as int).map_values(f), f(s[i as int]));
            }
            let w = match e.0.1.checked_mul(e.1) {
                Some(w) => w,
                None => {
                    proof {
                        lemma_prefix_sum_bound(s.map_values(f), i + 1);
                        assert(s.take(i + 1).map_values(f) =~= s.map_values(f).take(i + 1));
                    }
                    return None;
                },
            };
            match total.checked_add(w) {
                Some(n) => {
                    total = n;
                },
                None => {
                    proof {
                        lemma_prefix_sum_bound(s.map_values(f), i + 1);
                        assert(s.take(i + 1).map_values(f) =~= s.map_values(f).take(i + 1));
                    }
                    return None;
                },
            }
            i = i + 1;
        }
        assert(s.take(i as int) =~= s);
        Some(total)
    }

    /// The shares of `t` reserved for sale, if they fit in 64 bits.
    fn sell_total_checked(&self, t: &String) -> (r: Option<u64>)
        ensures
            match r {
                Some(e) => e == self.sell_total(t@),
                None => self.sell_total(t@) > u64::MAX,
            },
    {
        let ghost s = self.sells.entries@;
        let ghost f = |e: Entry| if e.0.0@ == t@ { e.1 as int } else { 0 };
        let mut total: u64 = 0;
        let mut i: usize = 0;
        while i < self.sells.entries.len()
            invariant
                i <= s.len(),
                s == self.sells.entries@,
                f == (|e: Entry| if e.0.0@ == t@ { e.1 as int } else { 0 }),
                forall|j: int| 0 <= j < s.len() ==> #[trigger] s.map_values(f)[j] >= 0,
                total == seq_sum(s.take(i as int).map_values(f)),
            decreases s.len() - i,
        {
            let e = &self.sells.entries[i];
            proof {
                assert(s.take(i + 1).map_values(f) =~= s.take(i as int).map_values(f).push(f(s[i as int])));
                lemma_sum_push(s.take(i as int).map_values(f), f(s[i as int]));
            }
            if e.0.0 == *t {
                match total.checked_add(e.1) {
                    Some(n) => {
                        total = n;
                    },
                    None => {
                        proof {
                            lemma_prefix_sum_bound(s.map_values(f), i + 1);
                            assert(s.take(i + 1).map_values(f) =~= s.map_values(f).take(i + 1));
                        }
                        return None;
                    },
                }
            }
            i = i + 1;
        }
        assert(s.take(i as int) =~= s);
        Some(total)
    }

    /// Cash reserved by open buy orders, capped at `u64::MAX`.
    pub fn get_buy_order_amount(&self) -> (r: u64)
        ensures
            r == if self.exposure() > u64::MAX { u64::MAX as int } else { self.exposure() },
    {
        match self.exposure_checked() {
            Some(e) => e,
            None => u64::MAX,
        }
    }

    /// Shares of `ticker` reserved by open sell orders, capped at `u64::MAX`.
    pub fn get_sell_order_quantity(&self, ticker: &String) -> (r: u64)
        ensures
            r == if self.sell_total(ticker@) > u64::MAX { u64::MAX as int } else { self.sell_total(ticker@) },
    {
        match self.sell_total_checked(ticker) {
            Some(e) => e,
            None => u64::MAX,
        }
    }

    /// Sets the cash to `value`, unless open buy orders reserve more than that.
    pub fn set_balance(&mut self, value: u64) -> (r: bool)
        requires
            old(self).wf(),
        ensures
            r == (value >= old(self).exposure()),
            final(self).wf(),
            final(self).user() == old(self).user(),
            final(self).cash() == if r { value as int } else { old(self).cash() },
            old(self).holdings_moved(final(self), Seq::empty(), 0),
            old(self).reservations_moved(final(self), OrderType::Buy, Seq::empty(), 0, 0),
            final(self).exposure() == old(self).exposure(),
            forall|t: Seq<char>| #[trigger] final(self).sell_total(t) == old(self).sell_total(t),
            final(self).pending_trades() == old(self).pending_trades(),
            old(self).solvent() ==> final(self).solvent(),
    {
        match self.exposure_checked() {
            Some(e) => {
                if value < e {
                    false
                } else {
                    self.balance = value;
                    proof {
                        assert forall|t: Seq<char>| old(self).solvent() implies #[trigger] self.sell_total(t) <= self.held(t) by {
                            assert(old(self).sell_total(t) <= old(self).held(t));
                        }
                    }
                    true
                }
            },
            None => false,
        }
    }

    /// The holdings: one entry per ticker, with its count of shares.
    pub fn get_portfolio(&self) -> (r: &Vec<(String, u64)>)
        requires
            self.wf(),
        ensures
            forall|i: int| 0 <= i < r@.len() ==> self.held(#[trigger] r@[i].0@) == r@[i].1,
            forall|i: int, j: int| 0 <= i < j < r@.len() ==> r@[i].0@ != r@[j].0@,
            forall|t: Seq<char>| #[trigger] self.held(t) != 0 ==> exists|i: int| 0 <= i < r@.len() && r@[i].0@ == t,
    {
        proof {
            assert forall|i: int| 0 <= i < self.portfolio.entries@.len() implies self.held(
                #[trigger] self.portfolio.entries@[i].0@,
            ) == self.portfolio.entries@[i].1 by {
                self.portfolio.lemma_amount_at(i);
            }
            assert forall|t: Seq<char>| #[trigger] self.held(t) != 0 implies exists|i: int|
                0 <= i < self.portfolio.entries@.len() && self.portfolio.entries@[i].0@ == t by {
                if !(exists|i: int| 0 <= i < self.portfolio.entries@.len() && self.portfolio.entries@[i].0@ == t) {
                    self.portfolio.lemma_amount_absent(t);
                }
            }
        }
        &self.portfolio.entries
    }

    /// Adds `q` shares of `t`; refuses, changing nothing, if the holding would
    /// not fit in 64 bits.
    pub fn add_stock(&mut self, t: String, q: u64) -> (r: bool)
        requires
            old(self).wf(),
        ensures
            r == (old(self).held(t@) + q <= u64::MAX),
            final(self).wf(),
            final(self).user() == old(self).user(),
            final(self).cash() == old(self).cash(),
            old(self).holdings_moved(final(self), t@, if r { q as int } else { 0 }),
            old(self).reservations_moved(final(self), OrderType::Buy, Seq::empty(), 0, 0),
            final(self).exposure() == old(self).exposure(),
            forall|u: Seq<char>| #[trigger] final(self).sell_total(u) == old(self).sell_total(u),
            final(self).pending_trades() == old(self).pending_trades(),
            old(self).solvent() ==> final(self).solvent(),
    {
        let cur = self.portfolio.get(&t);
        if cur > u64::MAX - q {
            return false;
        }
        let ghost tv = t@;
        self.portfolio.add(t, q);
        proof {
            assert forall|u: Seq<char>| old(self).solvent() implies #[trigger] self.sell_total(u) <= self.held(u) by {
                assert(old(self).sell_total(u) <= old(self).held(u));
                assert(self.held(u) == old(self).held(u) + if u == tv { q as int } else { 0 });
            }
        }
        true
    }

    /// Removes up to `q` shares of `t`, stopping at zero; returns how many were removed.
    pub fn deduct_stock(&mut self, t: String, q: u64) -> (d: u64)
        requires
            old(self).wf(),
        ensures
            d == if old(self).held(t@) < q { old(self).held(t@) } else { q as int },
            final(self).wf(),
            final(self).user() == old(self).user(),
            final(self).cash() == old(self).cash(),
            old(self).holdings_moved(final(self), t@, -d),
            old(self).reservations_moved(final(self), OrderType::Buy, Seq::empty(), 0, 0),
            final(self).exposure() == old(self).exposure(),
            forall|u: Seq<char>| #[trigger] final(self).sell_total(u) == old(self).sell_total(u),
            final(self).pending_trades() == old(self).pending_trades(),
            old(self).solvent() && old(self).sell_total(t@) + q <= old(self).held(t@)
                ==> final(self).solvent(),
    {
        let d = self.portfolio.take(&t, q);
        proof {
            assert forall|u: Seq<char>| old(self).solvent() && old(self).sell_total(t@) + q <= old(self).held(t@)
                implies #[trigger] self.sell_total(u) <= self.held(u) by {
                assert(old(self).sell_total(u) <= old(self).held(u));
                assert(self.held(u) == old(self).held(u) - if u == t@ { d as int } else { 0 });
            }
        }
        d
    }

    /// Adds `q` to the reservation of side `side` for `t` at price `p`.
    fn reserve(&mut self, side: OrderType, t: String, p: u64, q: u64)
        requires
            old(self).wf(),
            old(self).reserved(side, t@, p) + q <= u64::MAX,
        ensures
            final(self).wf(),
            final(self).user() == old(self).user(),
            final(self).cash() == old(self).cash(),
            old(self).holdings_moved(final(self), t@, 0),
            old(self).reservations_moved(final(self), side, t@, p, q as int),
            final(self).exposure() == old(self).exposure() + if side == OrderType::Buy { p * q } else { 0 },
            final(self).pending@ == old(self).pending@,
            final(self).portfolio == old(self).portfolio,
            final(self).balance == old(self).balance,
            final(self).id == old(self).id,
            forall|u: Seq<char>| #[trigger] final(self).sell_total(u) == old(self).sell_total(u)
                + if side == OrderType::Sell && u == t@ { q as int } else { 0 },
            final(self).pending_trades() == old(self).pending_trades(),
    {
        let ghost k = (t@, p);
        match side {
            OrderType::Buy => {
                let ghost s = self.buys.entries@;
                let i = self.buys.add((t, p), q);
                proof {
                    if i < s.len() {
                        old(self).buys.lemma_amount_at(i as int);
                        lemma_entry_update(s, i as int, (s[i as int].1 + q) as u64);
                        assert(s[i as int].0.1 * (s[i as int].1 + q) == s[i as int].0.1 * s[i as int].1 + p * q) by (nonlinear_arith)
                            requires s[i as int].0.1 == p;
                    } else {
                        lemma_entry_push(s, self.buys.entries@[i as int]);
                    }
                }
            },
            OrderType::Sell => {
                let ghost s = self.sells.entries@;
                let i = self.sells.add((t, p), q);
                proof {
                    if i < s.len() {
                        old(self).sells.lemma_amount_at(i as int);
                        lemma_entry_update(s, i as int, (s[i as int].1 + q) as u64);
                    } else {
                        lemma_entry_push(s, self.sells.entries@[i as int]);
                    }
                }
            },
        }
    }

    /// Takes up to `q` from the reservation of side `side` for `t` at price
    /// `p`; returns how much was taken.
    fn release(&mut self, side: OrderType, t: &String, p: u64, q: u64) -> (d: u64)
        requires
            old(self).wf(),
        ensures
            d == if old(self).reserved(side, t@, p) < q { old(self).reserved(side, t@, p) } else { q as int },
            final(self).wf(),
            final(self).user() == old(self).user(),
            final(self).cash() == old(self).cash(),
            old(self).holdings_moved(final(self), t@, 0),
            old(self).reservations_moved(final(self), side, t@, p, -d),
            final(self).exposure() == old(self).exposure() - if side == OrderType::Buy { p * d } else { 0 },
            final(self).pending@ == old(self).pending@,
            final(self).portfolio == old(self).portfolio,
            final(self).balance == old(self).balance,
            final(self).id == old(self).id,
            forall|u: Seq<char>| #[trigger] final(self).sell_total(u) == old(self).sell_total(u)
                - if side == OrderType::Sell && u == t@ { d as int } else { 0 },
            final(self).pending_trades() == old(self).pending_trades(),
    {
        let key = (t.clone(), p);
        match side {
            OrderType::Buy => {
                let ghost s = self.buys.entries@;
                let d = self.buys.take(&key, q);
                proof {
                    if exists|i: int| 0 <= i < s.len() && s[i].0@ == key@
                        && self.buys.entries@ == s.update(i, (s[i].0, (s[i].1 - d) as u64)) {
                        let i = choose|i: int| 0 <= i < s.len() && s[i].0@ == key@
                            && self.buys.entries@ == s.update(i, (s[i].0, (s[i].1 - d) as u64));
                        old(self).buys.lemma_amount_at(i);
                        lemma_entry_update(s, i, (s[i].1 - d) as u64);
                        assert(s[i].0.1 * (s[i].1 - d) == s[i].0.1 * s[i].1 - p * d) by (nonlinear_arith)
                            requires s[i].0.1 == p;
                    }
                }
                d
            },
            OrderType::Sell => {
                let ghost s = self.sells.entries@;
                let d = self.sells.take(&key, q);
                proof {
                    if exists|i: int| 0 <= i < s.len() && s[i].0@ == key@
                        && self.sells.entries@ == s.update(i, (s[i].0, (s[i].1 - d) as u64)) {
                        let i = choose|i: int| 0 <= i < s.len() && s[i].0@ == key@
                            && self.sells.entries@ == s.update(i, (s[i].0, (s[i].1 - d) as u64));
                        old(self).sells.lemma_amount_at(i);
                        lemma_entry_update(s, i, (s[i].1 - d) as u64);
                    }
                }
                d
            },
        }
    }

    /// Reserves capacity for `req` if the account has it: cash for a buy
    /// order (price times quantity beyond what open buys already reserve),
    /// shares for a sell order. Refuses, changing nothing, otherwise, or when
    /// the reservation would not fit in 64 bits.
    pub fn add_order(&mut self, req: OrderReq) -> (r: bool)
        requires
            old(self).wf(),
        ensures
            r == (old(self).has_capacity(req)
                && old(self).reserved(req.order_type, req.ticker@, req.price) + req.quantity <= u64::MAX),
            final(self).wf(),
            final(self).user() == old(self).user(),
            final(self).cash() == old(self).cash(),
            old(self).holdings_moved(final(self), req.ticker@, 0),
            old(self).reservations_moved(
                final(self),
                req.order_type,
                req.ticker@,
                req.price,
                if r { req.quantity as int } else { 0 },
            ),
            final(self).pending_trades() == old(self).pending_trades(),
            final(self).exposure() == old(self).exposure() + if r && req.order_type == OrderType::Buy {
                req.price * req.quantity
            } else {
                0
            },
            forall|u: Seq<char>| #[trigger] final(self).sell_total(u) == old(self).sell_total(u) + if r
                && req.order_type == OrderType::Sell && u == req.ticker@ { req.quantity as int } else { 0 },
            old(self).solvent() ==> final(self).solvent(),
    {
        let ghost t = req.ticker@;
        let OrderReq { order_type, ticker, price, quantity } = req;
        let cur = match order_type {
            OrderType::Buy => self.buys.get(&(ticker.clone(), price)),
            OrderType::Sell => self.sells.get(&(ticker.clone(), price)),
        };
        if cur > u64::MAX - quantity {
            return false;
        }
        proof {
            self.lemma_exposure_nonneg();
        }
        match order_type {
            OrderType::Buy => {
                let e = match self.exposure_checked() {
                    Some(e) => e,
                    None => {
                        return false;
                    },
                };
                let cost = match price.checked_mul(quantity) {
                    Some(c) => c,
                    None => {
                        return false;
                    },
                };
                if e > self.balance || cost > self.balance - e {
                    return false;
                }
            },
            OrderType::Sell => {
                let h = self.portfolio.get(&ticker);
                let st = match self.sell_total_checked(&ticker) {
                    Some(st) => st,
                    None => {
                        return false;
                    },
                };
                if st > h || quantity > h - st {
                    return false;
                }
            },
        }
        self.reserve(order_type, ticker, price, quantity);
        proof {
            assert forall|u: Seq<char>| old(self).solvent() implies #[trigger] self.sell_total(u) <= self.held(u) by {
                assert(old(self).sell_total(u) <= old(self).held(u));
                assert(self.held(u) == old(self).held(u));
            }
        }
        true
    }

    /// Takes up to the quantity of `req` from the matching reservation, on a
    /// cancel or on settlement; returns how much was taken.
    pub fn deduct_order(&mut self, req: OrderReq) -> (d: u64)
        requires
            old(self).wf(),
        ensures
            d == if old(self).reserved(req.order_type, req.ticker@, req.price) < req.quantity {
                old(self).reserved(req.order_type, req.ticker@, req.price)
            } else {
                req.quantity as int
            },
            final(self).wf(),
            final(self).user() == old(self).user(),
            final(self).cash() == old(self).cash(),
            old(self).holdings_moved(final(self), req.ticker@, 0),
            old(self).reservations_moved(final(self), req.order_type, req.ticker@, req.price, -d),
            final(self).pending_trades() == old(self).pending_trades(),
            final(self).exposure() == old(self).exposure() - if req.order_type == OrderType::Buy {
                req.price * d
            } else {
                0
            },
            forall|u: Seq<char>| #[trigger] final(self).sell_total(u) == old(self).sell_total(u) - if req.order_type
                == OrderType::Sell && u == req.ticker@ { d as int } else { 0 },
            old(self).solvent() ==> final(self).solvent(),
    {
        let d = self.release(req.order_type, &req.ticker, req.price, req.quantity);
        proof {
            assert(req.price * d >= 0) by (nonlinear_arith);
            assert forall|u: Seq<char>| old(self).solvent() implies #[trigger] self.sell_total(u) <= self.held(u) by {
                assert(old(self).sell_total(u) <= old(self).held(u));
                assert(self.held(u) == old(self).held(u));
            }
        }
        d
    }

    /// Position of pending trade `trade_id`, if there is one.
    fn find_pending(&self, trade_id: TradeID) -> (r: Option<usize>)
        requires
            self.wf(),
        ensures
            match r {
                Some(i) => i < self.pending@.len() && self.pending@[i as int].0 == trade_id
                    && self.pending_trades().contains_key(trade_id)
                    && self.pending_trades()[trade_id] == self.pending@[i as int].1,
                None => !self.pending_trades().contains_key(trade_id)
                    && forall|j: int| 0 <= j < self.pending@.len() ==> self.pending@[j].0 != trade_id,
            },
    {
        let mut i: usize = 0;
        while i < self.pending.len()
            invariant
                self.wf(),
                i <= self.pending@.len(),
                forall|j: int| 0 <= j < i ==> self.pending@[j].0 != trade_id,
            decreases self.pending@.len() - i,
        {
            if self.pending[i].0 == trade_id {
                proof {
                    lemma_id_at(self.pending@, i as int);
                }
                return Some(i);
            }
            i = i + 1;
        }
        proof {
            lemma_id_absent(self.pending@, trade_id);
        }
        None
    }

    /// Whether `trade_id` names a pending trade of this account.
    pub fn has_pending(&self, trade_id: TradeID) -> (r: bool)
        requires
            self.wf(),
        ensures
            r == self.pending_trades().contains_key(trade_id),
    {
        self.find_pending(trade_id).is_some()
    }

    /// Whether the side of `trade` that this account is on has what it consumes.
    pub fn can_add_pending(&self, trade: &Trade) -> (r: bool)
        requires
            self.wf(),
        ensures
            r == self.can_pend(*trade),
    {
        let q = trade.quantity;
        if trade.buyer_id == self.id {
            let cost = match trade.price.checked_mul(q) {
                Some(c) => c,
                None => {
                    return false;
                },
            };
            self.buys.get(&(trade.ticker.clone(), trade.buy_price)) >= q && self.balance >= cost
        } else {
            self.sells.get(&(trade.ticker.clone(), trade.sell_price)) >= q
                && self.portfolio.get(&trade.ticker) >= q
        }
    }

    /// Provisionally commits to `trade`, a cross-node match, under `trade_id`:
    /// a buyer's cash leaves now, a seller's shares leave now, and the
    /// reservation is consumed, so that nothing else can spend them while the
    /// remote side decides.
    pub fn add_pending(&mut self, trade_id: TradeID, trade: Trade)
        requires
            old(self).wf(),
            !old(self).pending_trades().contains_key(trade_id),
            trade.buyer_id == old(self).user() || trade.seller_id == old(self).user(),
            old(self).can_pend(trade),
        ensures
            old(self).pending_added(trade_id, trade, final(self)),
            old(self).solvent() && trade.price <= trade.buy_price ==> final(self).solvent(),
    {
        proof {
            if exists|j: int| 0 <= j < self.pending@.len() && self.pending@[j].0 == trade_id {
                let j = choose|j: int| 0 <= j < self.pending@.len() && self.pending@[j].0 == trade_id;
                lemma_id_at(self.pending@, j);
            }
        }
        let q = trade.quantity;
        let ghost s0 = self.pending@;
        if trade.buyer_id == self.id {
            let cost = trade.price * q;
            self.balance = self.balance - cost;
            self.release(OrderType::Buy, &trade.ticker, trade.buy_price, q);
            proof {
                assert forall|sd: OrderType, u: Seq<char>, p: u64| #[trigger] self.reserved(sd, u, p)
                    == old(self).reserved(sd, u, p) + if sd == OrderType::Buy && u == trade.ticker@ && p == trade.buy_price { -(q as int) } else { 0 } by {
                    assert(old(self).reserved(sd, u, p) == match sd { OrderType::Buy => old(self).buys.amount((u, p)), OrderType::Sell => old(self).sells.amount((u, p)) });
                }
                assert(trade.price * q <= trade.buy_price * q || trade.price > trade.buy_price) by (nonlinear_arith);
                assert forall|u: Seq<char>| old(self).solvent() implies #[trigger] self.sell_total(u) <= self.held(u) by {
                    assert(old(self).sell_total(u) <= old(self).held(u));
                }
            }
        } else {
            self.portfolio.take(&trade.ticker, q);
            self.release(OrderType::Sell, &trade.ticker, trade.sell_price, q);
            proof {
                assert forall|sd: OrderType, u: Seq<char>, p: u64| #[trigger] self.reserved(sd, u, p)
                    == old(self).reserved(sd, u, p) + if sd == OrderType::Sell && u == trade.ticker@ && p == trade.sell_price { -(q as int) } else { 0 } by {
                    assert(old(self).reserved(sd, u, p) == match sd { OrderType::Buy => old(self).buys.amount((u, p)), OrderType::Sell => old(self).sells.amount((u, p)) });
                }
                assert forall|u: Seq<char>| old(self).solvent() implies #[trigger] self.sell_total(u) <= self.held(u) by {
                    assert(old(self).sell_total(u) <= old(self).held(u));
                }
            }
        }
        let ghost mid = *self;
        self.pending.push((trade_id, trade));
        proof {
            assert(self.pending@.drop_last() =~= s0);
            assert forall|u: Seq<char>| #[trigger] self.held(u) == mid.held(u) by {}
            assert forall|u: Seq<char>| #[trigger] self.sell_total(u) == mid.sell_total(u) by {}
            assert forall|sd: OrderType, u: Seq<char>, p: u64| #[trigger] self.reserved(sd, u, p) == mid.reserved(sd, u, p) by {}
            assert(self.wf());
            assert(self.pending_trades() == old(self).pending_trades().insert(trade_id, trade));
            assert(old(self).reservations_moved(self, old(self).side_in(trade), trade.ticker@, old(self).limit_in(trade), -(q as int)));
        }
    }

    /// The remote side accepted pending `trade_id`: a buyer receives the
    /// shares, a seller the cash, and the trade is no longer pending.
    pub fn commit_pending(&mut self, trade_id: TradeID) -> (r: Result<(), LedgerError>)
        requires
            old(self).wf(),
        ensures
            match r {
                Ok(()) => old(self).pending_committed(trade_id, final(self)),
                Err(e) => *final(self) == *old(self) && e == if !old(self).pending_trades().contains_key(
                    trade_id,
                ) {
                    LedgerError::UnknownTrade
                } else {
                    LedgerError::Overflow
                },
            },
            r is Ok <==> old(self).can_commit(trade_id),
            r is Ok && old(self).solvent() ==> final(self).solvent(),
    {
        let i = match self.find_pending(trade_id) {
            Some(i) => i,
            None => {
                return Err(LedgerError::UnknownTrade);
            },
        };
        let ghost s0 = self.pending@;
        let q = self.pending[i].1.quantity;
        let is_buyer = self.pending[i].1.buyer_id == self.id;
        if is_buyer {
            let cur = self.portfolio.get(&self.pending[i].1.ticker);
            if cur > u64::MAX - q {
                return Err(LedgerError::Overflow);
            }
        } else {
            let gain = match self.pending[i].1.price.checked_mul(q) {
                Some(g) => g,
                None => {
                    return Err(LedgerError::Overflow);
                },
            };
            if self.balance > u64::MAX - gain {
                return Err(LedgerError::Overflow);
            }
        }
        let (_, trade) = self.pending.remove(i);
        proof {
            lemma_id_remove(s0, i as int);
        }
        if is_buyer {
            self.portfolio.add(trade.ticker, q);
        } else {
            self.balance = self.balance + trade.price * q;
        }
        proof {
            assert forall|u: Seq<char>| old(self).solvent() implies #[trigger] self.sell_total(u) <= self.held(u) by {
                assert(old(self).sell_total(u) <= old(self).held(u));
            }
        }
        Ok(())
    }

    /// The remote side rejected pending `trade_id`: the debit is given back in
    /// full, the reservation is restored, and the order to resubmit is returned.
    pub fn abort_pending(&mut self, trade_id: TradeID) -> (r: Result<Order, LedgerError>)
        requires
            old(self).wf(),
        ensures
            match r {
                Ok(o) => old(self).pending_aborted(trade_id, final(self)) && o == old(self).restored_order(
                    old(self).pending_trades()[trade_id],
                ),
                Err(e) => *final(self) == *old(self) && e == if !old(self).pending_trades().contains_key(
                    trade_id,
                ) {
                    LedgerError::UnknownTrade
                } else {
                    LedgerError::Overflow
                },
            },
            r is Ok <==> old(self).can_abort(trade_id),
            r is Ok ==> final(self).exposure() == old(self).exposure() + {
                let t = old(self).pending_trades()[trade_id];
                if t.buyer_id == old(self).user() { t.buy_price * t.quantity } else { 0 }
            },
            r is Ok && old(self).solvent() && final(self).exposure() <= final(self).cash() ==> final(self).solvent(),
    {
        let i = match self.find_pending(trade_id) {
            Some(i) => i,
            None => {
                return Err(LedgerError::UnknownTrade);
            },
        };
        let ghost s0 = self.pending@;
        let q = self.pending[i].1.quantity;
        let is_buyer = self.pending[i].1.buyer_id == self.id;
        let side = if is_buyer { OrderType::Buy } else { OrderType::Sell };
        let limit = if is_buyer { self.pending[i].1.buy_price } else { self.pending[i].1.sell_price };
        let res = match side {
            OrderType::Buy => self.buys.get(&(self.pending[i].1.ticker.clone(), limit)),
            OrderType::Sell => self.sells.get(&(self.pending[i].1.ticker.clone(), limit)),
        };
        if res > u64::MAX - q {
            return Err(LedgerError::Overflow);
        }
        if is_buyer {
            let refund = match self.pending[i].1.price.checked_mul(q) {
                Some(g) => g,
                None => {
                    return Err(LedgerError::Overflow);
                },
            };
            if self.balance > u64::MAX - refund {
                return Err(LedgerError::Overflow);
            }
        } else {
            let cur = self.portfolio.get(&self.pending[i].1.ticker);
            if cur > u64::MAX - q {
                return Err(LedgerError::Overflow);
            }
        }
        let (_, trade) = self.pending.remove(i);
        proof {
            lemma_id_remove(s0, i as int);
        }
        if is_buyer {
            self.balance = self.balance + trade.price * q;
        } else {
            self.portfolio.add(trade.ticker.clone(), q);
        }
        self.reserve(side, trade.ticker.clone(), limit, q);
        proof {
            assert forall|u: Seq<char>| old(self).solvent() implies #[trigger] self.sell_total(u) <= self.held(u) by {
                assert(old(self).sell_total(u) <= old(self).held(u));
            }
        }
        Ok(Order { order_type: side, ticker: trade.ticker, user_id: self.id, quantity: q, price: limit })
    }

    fn can_accept(&self, trade: &Trade) -> (r: bool)
        requires
            self.wf(),
        ensures
            r == self.accepts(*trade),
    {
        let q = trade.quantity;
        let is_buyer = trade.buyer_id == self.id;
        let limit = if is_buyer { trade.buy_price } else { trade.sell_price };
        let res = if is_buyer {
            self.buys.get(&(trade.ticker.clone(), limit))
        } else {
            self.sells.get(&(trade.ticker.clone(), limit))
        };
        if res < q {
            return false;
        }
        let h = self.portfolio.get(&trade.ticker);
        match trade.price.checked_mul(q) {
            Some(cost) => if is_buyer {
                self.balance >= cost && h <= u64::MAX - q
            } else {
                h >= q && self.balance <= u64::MAX - cost
            },
            None => false,
        }
    }

    /// Decides the remote side's offer `trade` for this account: takes it at
    /// once, returning the part of this account's order that it consumed, if
    /// the reservation, the cash or shares, and the room in 64 bits are there;
    /// otherwise rejects it with no change.
    pub fn process_incoming_offer(&mut self, trade: Trade) -> (r: Result<Option<Order>, LedgerError>)
        requires
            old(self).wf(),
        ensures
            !old(self).one_side(trade) ==> r == Err::<Option<Order>, LedgerError>(LedgerError::NotOwner),
            old(self).one_side(trade) ==> r is Ok,
            r == Ok::<Option<Order>, LedgerError>(None) <==> old(self).one_side(trade) && !old(self).accepts(trade),
            match r {
                Ok(Some(o)) => old(self).offer_taken(trade, final(self)) && o == old(self).restored_order(trade),
                _ => *final(self) == *old(self),
            },
            r matches Ok(Some(_)) && old(self).solvent() && trade.price <= trade.buy_price ==> final(self).solvent(),
    {
        if (trade.buyer_id == self.id) == (trade.seller_id == self.id) {
            return Err(LedgerError::NotOwner);
        }
        if !self.can_accept(&trade) {
            return Ok(None);
        }
        let q = trade.quantity;
        let cost = trade.price * q;
        let is_buyer = trade.buyer_id == self.id;
        let side = if is_buyer { OrderType::Buy } else { OrderType::Sell };
        let limit = if is_buyer { trade.buy_price } else { trade.sell_price };
        if is_buyer {
            self.balance = self.balance - cost;
            self.portfolio.add(trade.ticker.clone(), q);
            proof {
                assert(trade.price * q <= trade.buy_price * q || trade.price > trade.buy_price) by (nonlinear_arith);
            }
        } else {
            self.portfolio.take(&trade.ticker, q);
            self.balance = self.balance + cost;
        }
        let ghost mid = *self;
        self.release(side, &trade.ticker, limit, q);
        proof {
            assert forall|sd: OrderType, u: Seq<char>, p: u64| #[trigger] mid.reserved(sd, u, p) == old(self).reserved(sd, u, p) by {}
            assert forall|u: Seq<char>| #[trigger] self.held(u) == mid.held(u) by {}
            assert forall|u: Seq<char>| old(self).solvent() implies #[trigger] self.sell_total(u) <= self.held(u) by {
                assert(old(self).sell_total(u) <= old(self).held(u));
            }
        }
        Ok(Some(Order { order_type: side, ticker: trade.ticker, user_id: self.id, quantity: q, price: limit }))
    }

    pub fn check_settle_buy(&self, trade: &Trade) -> (r: bool)
        requires
            self.wf(),
        ensures
            r == self.can_settle_buy(*trade),
    {
        let q = trade.quantity;
        match trade.price.checked_mul(q) {
            Some(cost) => self.buys.get(&(trade.ticker.clone(), trade.buy_price)) >= q && self.balance >= cost
                && self.portfolio.get(&trade.ticker) <= u64::MAX - q,
            None => false,
        }
    }

    pub fn check_settle_sell(&self, trade: &Trade) -> (r: bool)
        requires
            self.wf(),
        ensures
            r == self.can_settle_sell(*trade),
    {
        let q = trade.quantity;
        match trade.price.checked_mul(q) {
            Some(cost) => self.sells.get(&(trade.ticker.clone(), trade.sell_price)) >= q
                && self.portfolio.get(&trade.ticker) >= q && self.balance <= u64::MAX - cost,
            None => false,
        }
    }

    /// Settles the buyer's side of a trade between two accounts of this node:
    /// pays the execution price, receives the shares, consumes the reservation.
    pub fn settle_buy(&mut self, trade: &Trade)
        requires
            old(self).wf(),
            old(self).can_settle_buy(*trade),
        ensures
            old(self).shifted(
                final(self),
                -trade.cost(),
                trade.ticker@,
                trade.quantity as int,
                trade.buy_price,
                -trade.quantity,
                trade.sell_price,
                0,
            ),
            old(self).solvent() && trade.price <= trade.buy_price ==> final(self).solvent(),
    {
        let q = trade.quantity;
        self.balance = self.balance - trade.price * q;
        self.portfolio.add(trade.ticker.clone(), q);
        let ghost mid = *self;
        self.release(OrderType::Buy, &trade.ticker, trade.buy_price, q);
        proof {
            assert(trade.price * q <= trade.buy_price * q || trade.price > trade.buy_price) by (nonlinear_arith);
            assert(trade.buy_price * (-(q as int)) == -(trade.buy_price * q)) by (nonlinear_arith);
            assert forall|sd: OrderType, u: Seq<char>, p: u64| #[trigger] mid.reserved(sd, u, p) == old(self).reserved(sd, u, p) by {}
            assert forall|u: Seq<char>| #[trigger] self.held(u) == mid.held(u) by {}
            assert forall|u: Seq<char>| old(self).solvent() implies #[trigger] self.sell_total(u) <= self.held(u) by {
                assert(old(self).sell_total(u) <= old(self).held(u));
            }
        }
    }

    /// Settles the seller's side of a trade between two accounts of this node:
    /// delivers the shares, receives the execution price, consumes the reservation.
    pub fn settle_sell(&mut self, trade: &Trade)
        requires
            old(self).wf(),
            old(self).can_settle_sell(*trade),
        ensures
            old(self).shifted(
                final(self),
                trade.cost(),
                trade.ticker@,
                -trade.quantity,
                trade.buy_price,
                0,
                trade.sell_price,
                -trade.quantity,
            ),
            old(self).solvent() ==> final(self).solvent(),
    {
        let q = trade.quantity;
        self.portfolio.take(&trade.ticker, q);
        self.balance = self.balance + trade.price * q;
        let ghost mid = *self;
        self.release(OrderType::Sell, &trade.ticker, trade.sell_price, q);
        proof {
            assert forall|sd: OrderType, u: Seq<char>, p: u64| #[trigger] mid.reserved(sd, u, p) == old(self).reserved(sd, u, p) by {}
            assert forall|u: Seq<char>| #[trigger] self.held(u) == mid.held(u) by {}
            assert forall|u: Seq<char>| old(self).solvent() implies #[trigger] self.sell_total(u) <= self.held(u) by {
                assert(old(self).sell_total(u) <= old(self).held(u));
            }
        }
    }

    /// The open buy (`Buy`) or sell (`Sell`) reservations: one entry per
    /// ticker and price, with its quantity.
    pub fn get_reservations(&self, side: OrderType) -> (r: &Vec<((String, u64), u64)>)
        requires
            self.wf(),
        ensures
            forall|i: int| 0 <= i < r@.len() ==> self.reserved(side, r@[i].0.0@, r@[i].0.1) == #[trigger] r@[i].1,
            forall|i: int, j: int| 0 <= i < j < r@.len() ==> r@[i].0@ != r@[j].0@,
            forall|t: Seq<char>, p: u64| #[trigger] self.reserved(side, t, p) != 0 ==> exists|i: int|
                0 <= i < r@.len() && r@[i].0@ == (t, p),
    {
        let tally = match side {
            OrderType::Buy => &self.buys,
            OrderType::Sell => &self.sells,
        };
        proof {
            assert forall|i: int| 0 <= i < tally.entries@.len() implies self.reserved(side, tally.entries@[i].0.0@, tally.entries@[i].0.1)
                == #[trigger] tally.entries@[i].1 by {
                tally.lemma_amount_at(i);
            }
            assert forall|t: Seq<char>, p: u64| #[trigger] self.reserved(side, t, p) != 0 implies exists|i: int|
                0 <= i < tally.entries@.len() && tally.entries@[i].0@ == (t, p) by {
                if !(exists|i: int| 0 <= i < tally.entries@.len() && tally.entries@[i].0@ == (t, p)) {
                    tally.lemma_amount_absent((t, p));
                }
            }
        }
        &tally.entries
    }

    /// The trades awaiting the remote side's answer, with their identifiers.
    pub fn get_pending(&self) -> (r: &Vec<(TradeID, Trade)>)
        requires
            self.wf(),
        ensures
            id_map(r@) == self.pending_trades(),
            unique_ids(r@),
    {
        &self.pending
    }

    /// Rebuilds an account from stored values: cash, holdings, buy and sell
    /// reservations as (ticker, price, quantity), and pending trades. Entries
    /// of one key add up. `None` if a count would not fit in 64 bits or two
    /// pending trades share an identifier.
    pub fn restore(
        id: UserID,
        balance: u64,
        portfolio: &Vec<(String, u64)>,
        buys: &Vec<(String, u64, u64)>,
        sells: &Vec<(String, u64, u64)>,
        pending: Vec<(TradeID, Trade)>,
    ) -> (r: Option<Account>)
        ensures
            r matches Some(a) ==> {
                &&& a.wf()
                &&& a.user() == id
                &&& a.cash() == balance
                &&& forall|t: Seq<char>| #[trigger] a.held(t) == stored_holding(portfolio@, t)
                &&& forall|t: Seq<char>, p: u64| #[trigger] a.reserved(OrderType::Buy, t, p) == stored_reservation(buys@, t, p)
                &&& forall|t: Seq<char>, p: u64| #[trigger] a.reserved(OrderType::Sell, t, p) == stored_reservation(sells@, t, p)
                &&& a.pending_trades() == id_map(pending@)
            },
            r is None ==> !unique_ids(pending@) || (exists|t: Seq<char>| #[trigger] stored_holding(portfolio@, t) > u64::MAX)
                || (exists|t: Seq<char>, p: u64| #[trigger] stored_reservation(buys@, t, p) > u64::MAX)
                || (exists|t: Seq<char>, p: u64| #[trigger] stored_reservation(sells@, t, p) > u64::MAX),
    {
        let mut a = Account::new(id);
        let ghost a0 = a;
        a.balance = balance;
        proof {
            assert forall|t: Seq<char>| #[trigger] a.held(t) == stored_holding(portfolio@.take(0), t) by {
                assert(a0.held(t) == 0);
                assert(portfolio@.take(0).len() == 0);
            }
            assert forall|s: OrderType, t: Seq<char>, p: u64| #[trigger] a.reserved(s, t, p) == 0 by {
                assert(a0.reserved(s, t, p) == 0);
            }
        }
        let mut i: usize = 0;
        while i < portfolio.len()
            invariant
                a.wf(),
                a.user() == id,
                a.cash() == balance,
                i <= portfolio@.len(),
                forall|t: Seq<char>| #[trigger] a.held(t) == stored_holding(portfolio@.take(i as int), t),
                forall|s: OrderType, t: Seq<char>, p: u64| #[trigger] a.reserved(s, t, p) == 0,
            decreases portfolio@.len() - i,
        {
            let t = portfolio[i].0.clone();
            let q = portfolio[i].1;
            let cur = a.portfolio.get(&t);
            proof {
                lemma_stored_holding_step(portfolio@, i as int, t@);
                assert(a.held(t@) == cur);
            }
            if cur > u64::MAX - q {
                proof {
                    lemma_prefix_sums_bound(portfolio@, i + 1, t@);
                    assert(stored_holding(portfolio@, t@) > u64::MAX);
                }
                return None;
            }
            let ghost before = a;
            a.portfolio.add(t, q);
            proof {
                assert forall|u: Seq<char>| #[trigger] a.held(u) == stored_holding(portfolio@.take(i + 1), u) by {
                    lemma_stored_holding_step(portfolio@, i as int, u);
                    assert(before.held(u) == stored_holding(portfolio@.take(i as int), u));
                }
                assert forall|s: OrderType, u: Seq<char>, p: u64| #[trigger] a.reserved(s, u, p) == 0 by {
                    assert(before.reserved(s, u, p) == 0);
                }
            }
            i = i + 1;
        }
        proof {
            assert(portfolio@.take(i as int) =~= portfolio@);
            assert forall|t: Seq<char>, p: u64| #[trigger] a.reserved(OrderType::Buy, t, p) == stored_reservation(buys@.take(0), t, p) by {
                lemma_stored_reservation_empty(buys@, t, p);
            }
        }
        let mut k: usize = 0;
        while k < buys.len()
            invariant
                a.wf(),
                a.user() == id,
                a.cash() == balance,
                k <= buys@.len(),
                forall|t: Seq<char>| #[trigger] a.held(t) == stored_holding(portfolio@, t),
                forall|t: Seq<char>, p: u64| #[trigger] a.reserved(OrderType::Buy, t, p) == stored_reservation(buys@.take(k as int), t, p),
                forall|t: Seq<char>, p: u64| #[trigger] a.reserved(OrderType::Sell, t, p) == 0,
            decreases buys@.len() - k,
        {
            let t = buys[k].0.clone();
            let p = buys[k].1;
            let q = buys[k].2;
            let cur = a.buys.get(&(t.clone(), p));
            proof {
                lemma_stored_reservation_step(buys@, k as int, t@, p);
                assert(a.reserved(OrderType::Buy, t@, p) == cur);
            }
            if cur > u64::MAX - q {
                proof {
                    lemma_prefix_sums_bound3(buys@, k + 1, t@, p);
                    assert(stored_reservation(buys@, t@, p) > u64::MAX);
                }
                return None;
            }
            let ghost before = a;
            a.reserve(OrderType::Buy, t, p, q);
            proof {
                assert forall|u: Seq<char>, pp: u64| #[trigger] a.reserved(OrderType::Buy, u, pp)
                    == stored_reservation(buys@.take(k + 1), u, pp) by {
                    lemma_stored_reservation_step(buys@, k as int, u, pp);
                    assert(before.reserved(OrderType::Buy, u, pp) == stored_reservation(buys@.take(k as int), u, pp));
                }
                assert forall|u: Seq<char>, pp: u64| #[trigger] a.reserved(OrderType::Sell, u, pp) == 0 by {
                    assert(before.reserved(OrderType::Sell, u, pp) == 0);
                }
                assert forall|u: Seq<char>| #[trigger] a.held(u) == stored_holding(portfolio@, u) by {
                    assert(before.held(u) == stored_holding(portfolio@, u));
                }
            }
            k = k + 1;
        }
        proof {
            assert(buys@.take(k as int) =~= buys@);
            assert forall|t: Seq<char>, p: u64| #[trigger] a.reserved(OrderType::Sell, t, p) == stored_reservation(sells@.take(0), t, p) by {
                lemma_stored_reservation_empty(sells@, t, p);
            }
        }
        let mut k: usize = 0;
        while k < sells.len()
            invariant
                a.wf(),
                a.user() == id,
                a.cash() == balance,
                k <= sells@.len(),
                forall|t: Seq<char>| #[trigger] a.held(t) == stored_holding(portfolio@, t),
                forall|t: Seq<char>, p: u64| #[trigger] a.reserved(OrderType::Buy, t, p) == stored_reservation(buys@, t, p),
                forall|t: Seq<char>, p: u64| #[trigger] a.reserved(OrderType::Sell, t, p) == stored_reservation(sells@.take(k as int), t, p),
            decreases sells@.len() - k,
        {
            let t = sells[k].0.clone();
            let p = sells[k].1;
            let q = sells[k].2;
            let cur = a.sells.get(&(t.clone(), p));
            proof {
                lemma_stored_reservation_step(sells@, k as int, t@, p);
                assert(a.reserved(OrderType::Sell, t@, p) == cur);
            }
            if cur > u64::MAX - q {
                proof {
                    lemma_prefix_sums_bound3(sells@, k + 1, t@, p);
                    assert(stored_reservation(sells@, t@, p) > u64::MAX);
                }
                return None;
            }
            let ghost before = a;
            a.reserve(OrderType::Sell, t, p, q);
            proof {
                assert forall|u: Seq<char>, pp: u64| #[trigger] a.reserved(OrderType::Sell, u, pp)
                    == stored_reservation(sells@.take(k + 1), u, pp) by {
                    lemma_stored_reservation_step(sells@, k as int, u, pp);
                    assert(before.reserved(OrderType::Sell, u, pp) == stored_reservation(sells@.take(k as int), u, pp));
                }
                assert forall|u: Seq<char>, pp: u64| #[trigger] a.reserved(OrderType::Buy, u, pp) == stored_reservation(buys@, u, pp) by {
                    assert(before.reserved(OrderType::Buy, u, pp) == stored_reservation(buys@, u, pp));
                }
                assert forall|u: Seq<char>| #[trigger] a.held(u) == stored_holding(portfolio@, u) by {
                    assert(before.held(u) == stored_holding(portfolio@, u));
                }
            }
            k = k + 1;
        }
        proof {
            assert(sells@.take(k as int) =~= sells@);
        }
        let mut j: usize = 0;
        while j < pending.len()
            invariant
                j <= pending@.len(),
                forall|x: int, y: int| 0 <= x < y < j ==> pending@[x].0 != pending@[y].0,
            decreases pending@.len() - j,
        {
            let mut m: usize = 0;
            while m < j
                invariant
                    m <= j < pending@.len(),
                    forall|x: int| 0 <= x < m ==> pending@[x].0 != pending@[j as int].0,
                decreases j - m,
            {
                if pending[m].0 == pending[j].0 {
                    return None;
                }
                m = m + 1;
            }
            j = j + 1;
        }
        let ghost before = a;
        a.pending = pending;
        proof {
            assert forall|u: Seq<char>| #[trigger] a.held(u) == stored_holding(portfolio@, u) by {
                assert(before.held(u) == stored_holding(portfolio@, u));
            }
            assert forall|u: Seq<char>, pp: u64| #[trigger] a.reserved(OrderType::Buy, u, pp) == stored_reservation(buys@, u, pp) by {
                assert(before.reserved(OrderType::Buy, u, pp) == stored_reservation(buys@, u, pp));
            }
            assert forall|u: Seq<char>, pp: u64| #[trigger] a.reserved(OrderType::Sell, u, pp) == stored_reservation(sells@, u, pp) by {
                assert(before.reserved(OrderType::Sell, u, pp) == stored_reservation(sells@, u, pp));
            }
        }
        Some(a)
    }

    /// The open orders of one side as (ticker, price, quantity), one entry
    /// per ticker and price.
    pub closed spec fn order_levels(&self, side: OrderType) -> Seq<Level> {
        match side {
            OrderType::Buy => entry_levels(self.buys.entries@),
            OrderType::Sell => entry_levels(self.sells.entries@),
        }
    }

    /// The open orders: for each ticker, the reserved quantity by price on
    /// each side.
    pub fn get_orders(&self) -> (r: AllOrders)
        requires
            self.wf(),
        ensures
            depth_of(r, self.order_levels(OrderType::Buy), self.order_levels(OrderType::Sell)),
            forall|s: OrderType, t: Seq<char>, p: u64| #[trigger] level_sum(self.order_levels(s), t, p)
                == self.reserved(s, t, p),
    {
        proof {
            assert forall|s: OrderType, t: Seq<char>, p: u64| #[trigger] level_sum(self.order_levels(s), t, p)
                == self.reserved(s, t, p) by {
                lemma_entry_levels_sum(self.buys.entries@, t, p);
                lemma_entry_levels_sum(self.sells.entries@, t, p);
            }
        }
        let buys = levels_of_entries(&self.buys.entries);
        let sells = levels_of_entries(&self.sells.entries);
        depth(&buys, &sells)
    }

    /// Whether the account can be deleted: no cash, no shares, no open orders.
    pub fn delete(&self) -> (r: Result<(), NotEmpty>)
        requires
            self.wf(),
        ensures
            r == self.delete_verdict(),
    {
        if self.balance != 0 {
            return Err(NotEmpty::Balance);
        }
        if self.portfolio.any_nonzero() {
            proof {
                let k = choose|k: Seq<char>| #[trigger] self.portfolio.amount(k) != 0;
                assert(self.held(k) != 0);
            }
            return Err(NotEmpty::Portfolio);
        }
        if self.buys.any_nonzero() {
            proof {
                let k = choose|k: (Seq<char>, u64)| #[trigger] self.buys.amount(k) != 0;
                assert(self.reserved(OrderType::Buy, k.0, k.1) != 0);
            }
            return Err(NotEmpty::BuyOrders);
        }
        if self.sells.any_nonzero() {
            proof {
                let k = choose|k: (Seq<char>, u64)| #[trigger] self.sells.amount(k) != 0;
                assert(self.reserved(OrderType::Sell, k.0, k.1) != 0);
            }
            return Err(NotEmpty::SellOrders);
        }
        proof {
            assert forall|t: Seq<char>, p: u64| #[trigger] self.reserved(OrderType::Buy, t, p) == 0 by {
                assert(self.buys.amount((t, p)) == 0);
            }
            assert forall|t: Seq<char>, p: u64| #[trigger] self.reserved(OrderType::Sell, t, p) == 0 by {
                assert(self.sells.amount((t, p)) == 0);
            }
        }
        Ok(())
    }
}

/// The shares of `t` that stored holdings `s` add up to.
pub open spec fn stored_holding(s: Seq<(String, u64)>, t: Seq<char>) -> int
    decreases s.len(),
{
    if s.len() == 0 {
        0
    } else {
        stored_holding(s.drop_last(), t) + if s.last().0@ == t { s.last().1 as int } else { 0 }
    }
}

/// The quantity that stored reservations `s` add up to for `t` at `p`.
pub open spec fn stored_reservation(s: Seq<(String, u64, u64)>, t: Seq<char>, p: u64) -> int
    decreases s.len(),
{
    if s.len() == 0 {
        0
    } else {
        stored_reservation(s.drop_last(), t, p) + if s.last().0@ == t && s.last().1 == p { s.last().2 as int } else { 0 }
    }
}

/// A sum of counts over a prefix stays within the whole sum.
proof fn lemma_prefix_sums_bound(s: Seq<(String, u64)>, n: int, t: Seq<char>)
    requires
        0 <= n <= s.len(),
    ensures
        stored_holding(s.take(n), t) <= stored_holding(s, t),
    decreases s.len(),
{
    if n < s.len() {
        assert(s.drop_last().take(n) =~= s.take(n));
        lemma_prefix_sums_bound(s.drop_last(), n, t);
    } else {
        assert(s.take(n) =~= s);
    }
}

proof fn lemma_prefix_sums_bound3(s: Seq<(String, u64, u64)>, n: int, t: Seq<char>, p: u64)
    requires
        0 <= n <= s.len(),
    ensures
        stored_reservation(s.take(n), t, p) <= stored_reservation(s, t, p),
    decreases s.len(),
{
    if n < s.len() {
        assert(s.drop_last().take(n) =~= s.take(n));
        lemma_prefix_sums_bound3(s.drop_last(), n, t, p);
    } else {
        assert(s.take(n) =~= s);
    }
}

proof fn lemma_stored_holding_step(s: Seq<(String, u64)>, i: int, t: Seq<char>)
    requires
        0 <= i < s.len(),
    ensures
        stored_holding(s.take(i + 1), t) == stored_holding(s.take(i), t) + if s[i].0@ == t { s[i].1 as int } else { 0 },
        stored_holding(s.take(0), t) == 0,
{
    assert(s.take(i + 1).drop_last() =~= s.take(i));
    assert(s.take(0).len() == 0);
}

proof fn lemma_stored_reservation_step(s: Seq<(String, u64, u64)>, i: int, t: Seq<char>, p: u64)
    requires
        0 <= i < s.len(),
    ensures
        stored_reservation(s.take(i + 1), t, p) == stored_reservation(s.take(i), t, p) + if s[i].0@ == t && s[i].1 == p {
            s[i].2 as int
        } else {
            0
        },
{
    assert(s.take(i + 1).drop_last() =~= s.take(i));
}

proof fn lemma_stored_reservation_empty(s: Seq<(String, u64, u64)>, t: Seq<char>, p: u64)
    ensures
        stored_reservation(s.take(0), t, p) == 0,
{
    assert(s.take(0).len() == 0);
}

/// The count of a key in a well-formed table fits in 64 bits.
proof fn lemma_tally_bound<K: TallyKey>(tally: &Tally<K>, k: K::V)
    requires
        tally.wf(),
    ensures
        tally.amount(k) <= u64::MAX,
{
    if exists|i: int| 0 <= i < tally.entries@.len() && tally.entries@[i].0@ == k {
        let i = choose|i: int| 0 <= i < tally.entries@.len() && tally.entries@[i].0@ == k;
        tally.lemma_amount_at(i);
    } else {
        tally.lemma_amount_absent(k);
    }
}

/// Every element of a sequence of non-negative numbers, summed over a prefix,
/// stays within the whole sum.
proof fn lemma_prefix_sum_bound(s: Seq<int>, n: int)
    requires
        0 <= n <= s.len(),
        forall|j: int| 0 <= j < s.len() ==> s[j] >= 0,
    ensures
        seq_sum(s.take(n)) <= seq_sum(s),
    decreases s.len(),
{
    if n < s.len() {
        lemma_prefix_sum_bound(s.drop_last(), n);
        assert(s.drop_last().take(n) =~= s.take(n));
        crate::sums::lemma_sum_nonneg(s.drop_last());
    } else {
        assert(s.take(n) =~= s);
    }
}

} // verus!
