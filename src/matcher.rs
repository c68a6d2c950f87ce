//! The node's limit order book and its price-time-priority matching.
//!
//! Each side of the book is a sequence of resting orders in arrival order.
//! A node matches an incoming order only against resting orders where at
//! least one of the two owners is one of its own accounts; resting orders of
//! other nodes' accounts form a non-authoritative shadow of their books.

use vstd::prelude::*;
use crate::tally::{Tally, TallyKey};
use crate::depth::{depth, depth_of, Level};
use crate::types::{AllOrders, NodeID, Order, OrderType, Trade, UserID};

verus! {

/// A resting order: what is left of it, and whose it is.
#[derive(Clone, Debug, PartialEq, Eq)]
pub struct Resting {
    pub ticker: String,
    pub price: u64,
    pub user_id: UserID,
    pub quantity: u64,
}

/// The entry of the to-deduct ledger that an order of this side, ticker,
/// price and owner is netted against.
#[derive(Clone, Debug, PartialEq, Eq)]
pub struct DeductKey {
    pub order_type: OrderType,
    pub ticker: String,
    pub price: u64,
    pub user_id: UserID,
}

impl View for DeductKey {
    type V = (OrderType, Seq<char>, u64, UserID);

    open spec fn view(&self) -> Self::V {
        (self.order_type, self.ticker@, self.price, self.user_id)
    }
}

impl TallyKey for DeductKey {
    fn same(&self, other: &Self) -> (r: bool) {
        self.order_type == other.order_type && self.ticker == other.ticker && self.price == other.price
            && self.user_id == other.user_id
    }

    fn duplicate(&self) -> (r: Self) {
        DeductKey {
            order_type: self.order_type,
            ticker: self.ticker.clone(),
            price: self.price,
            user_id: self.user_id,
        }
    }
}

/// The to-deduct key of order `o`.
pub open spec fn deduct_key(o: Order) -> (OrderType, Seq<char>, u64, UserID) {
    (o.order_type, o.ticker@, o.price, o.user_id)
}

pub open spec fn min_nat(a: nat, b: nat) -> nat {
    if a < b {
        a
    } else {
        b
    }
}

pub open spec fn with_quantity(e: Resting, q: u64) -> Resting {
    Resting { ticker: e.ticker, price: e.price, user_id: e.user_id, quantity: q }
}

/// Whether a resting order at `p` satisfies the limit of an incoming order of `side`.
pub open spec fn crosses(side: OrderType, limit: u64, p: u64) -> bool {
    match side {
        OrderType::Buy => p <= limit,
        OrderType::Sell => p >= limit,
    }
}

/// Whether resting order `e` may be matched with `o` on node `this_id`.
pub open spec fn eligible(this_id: NodeID, o: Order, e: Resting) -> bool {
    &&& e.ticker@ == o.ticker@
    &&& crosses(o.order_type, o.price, e.price)
    &&& (o.user_id.node_id == this_id || e.user_id.node_id == this_id)
}

/// Whether resting order `a` at position `i` is matched before `b` at
/// position `j` by an incoming order of `side`: better price first, then earlier.
pub open spec fn ahead(side: OrderType, a: Resting, i: int, b: Resting, j: int) -> bool {
    match side {
        OrderType::Buy => a.price < b.price || (a.price == b.price && i < j),
        OrderType::Sell => a.price > b.price || (a.price == b.price && i < j),
    }
}

/// Position `j` holds the resting order that `o` matches next.
pub open spec fn is_best(this_id: NodeID, book: Seq<Resting>, o: Order, j: int) -> bool {
    &&& 0 <= j < book.len()
    &&& eligible(this_id, o, book[j])
    &&& forall|k: int|
        0 <= k < book.len() && k != j && eligible(this_id, o, #[trigger] book[k]) ==> ahead(
            o.order_type,
            book[j],
            j,
            book[k],
            k,
        )
}

pub open spec fn has_eligible(this_id: NodeID, book: Seq<Resting>, o: Order) -> bool {
    exists|j: int| 0 <= j < book.len() && eligible(this_id, o, #[trigger] book[j])
}

/// The trade of `t` units between incoming `o` and resting `e`, at `e`'s price.
pub open spec fn trade_of(o: Order, e: Resting, t: u64) -> Trade {
    match o.order_type {
        OrderType::Buy => Trade {
            quantity: t,
            price: e.price,
            ticker: o.ticker,
            buyer_id: o.user_id,
            seller_id: e.user_id,
            buy_price: o.price,
            sell_price: e.price,
        },
        OrderType::Sell => Trade {
            quantity: t,
            price: e.price,
            ticker: o.ticker,
            buyer_id: e.user_id,
            seller_id: o.user_id,
            buy_price: e.price,
            sell_price: o.price,
        },
    }
}

/// The part `t` of resting order `e` that a match consumed, as an order.
pub open spec fn consumed_of(o: Order, e: Resting, t: u64) -> Order {
    Order {
        order_type: match o.order_type {
            OrderType::Buy => OrderType::Sell,
            OrderType::Sell => OrderType::Buy,
        },
        ticker: o.ticker,
        user_id: e.user_id,
        quantity: t,
        price: e.price,
    }
}

/// Every resting order has something left.
pub open spec fn positive(book: Seq<Resting>) -> bool {
    forall|i: int| 0 <= i < book.len() ==> (#[trigger] book[i]).quantity > 0
}

/// Matching `q` units of `o` against the opposite side `book`, one resting
/// order at a time, best first: the book after, the trades, the consumed
/// resting orders of this node's accounts, and the quantity left unmatched.
pub open spec fn match_run(this_id: NodeID, book: Seq<Resting>, o: Order, q: nat) -> (
    Seq<Resting>,
    Seq<Trade>,
    Seq<Order>,
    nat,
)
    decreases q,
{
    if q == 0 || !has_eligible(this_id, book, o) {
        (book, Seq::empty(), Seq::empty(), q)
    } else {
        let j = choose|j: int| is_best(this_id, book, o, j);
        let e = book[j];
        let t = min_nat(q, e.quantity as nat);
        if t == 0 {
            (book, Seq::empty(), Seq::empty(), q)
        } else {
            let after = if t == e.quantity {
                book.remove(j)
            } else {
                book.update(j, with_quantity(e, (e.quantity - t) as u64))
            };
            let consumed = if e.user_id.node_id == this_id {
                seq![consumed_of(o, e, t as u64)]
            } else {
                Seq::empty()
            };
            let rest = match_run(this_id, after, o, (q - t) as nat);
            (rest.0, seq![trade_of(o, e, t as u64)] + rest.1, consumed + rest.2, rest.3)
        }
    }
}

/// Whether resting order `e` is one of `o`'s owner at `o`'s ticker and price.
pub open spec fn same_level(o: Order, e: Resting) -> bool {
    e.ticker@ == o.ticker@ && e.price == o.price && e.user_id == o.user_id
}

/// Taking up to `q` units from the resting orders of `o`'s owner at `o`'s
/// ticker and price, earliest first: the book after, and what could not be taken.
pub open spec fn deduct_run(book: Seq<Resting>, o: Order, q: nat) -> (Seq<Resting>, nat)
    decreases book.len(),
{
    if book.len() == 0 || q == 0 {
        (book, q)
    } else {
        let e = book[0];
        if same_level(o, e) {
            let t = min_nat(q, e.quantity as nat);
            let rest = deduct_run(book.drop_first(), o, (q - t) as nat);
            if t == e.quantity {
                (rest.0, rest.1)
            } else {
                (seq![with_quantity(e, (e.quantity - t) as u64)] + rest.0, rest.1)
            }
        } else {
            let rest = deduct_run(book.drop_first(), o, q);
            (seq![e] + rest.0, rest.1)
        }
    }
}

proof fn lemma_deduct_run_bound(book: Seq<Resting>, o: Order, q: nat)
    ensures
        deduct_run(book, o, q).1 <= q,
    decreases book.len(),
{
    if book.len() > 0 && q > 0 {
        let e = book[0];
        if same_level(o, e) {
            let t = min_nat(q, e.quantity as nat);
            lemma_deduct_run_bound(book.drop_first(), o, (q - t) as nat);
        } else {
            lemma_deduct_run_bound(book.drop_first(), o, q);
        }
    }
}

proof fn lemma_best_unique(this_id: NodeID, book: Seq<Resting>, o: Order, j: int)
    requires
        is_best(this_id, book, o, j),
    ensures
        forall|k: int| #[trigger] is_best(this_id, book, o, k) ==> k == j,
{
    assert forall|k: int| #[trigger] is_best(this_id, book, o, k) implies k == j by {
        if k != j {
            assert(ahead(o.order_type, book[j], j, book[k], k));
            assert(ahead(o.order_type, book[k], k, book[j], j));
        }
    }
}

/// The position of the resting order in `book` that `o` matches next.
fn find_best(this_id: NodeID, book: &Vec<Resting>, o: &Order) -> (r: Option<usize>)
    ensures
        match r {
            Some(j) => is_best(this_id, book@, *o, j as int),
            None => !has_eligible(this_id, book@, *o),
        },
{
    let mut best: Option<usize> = None;
    let mut i: usize = 0;
    let local_owner = o.user_id.node_id == this_id;
    while i < book.len()
        invariant
            i <= book@.len(),
            local_owner == (o.user_id.node_id == this_id),
            match best {
                Some(b) => b < i && eligible(this_id, *o, book@[b as int]) && forall|k: int|
                    0 <= k < i && k != b && eligible(this_id, *o, #[trigger] book@[k]) ==> ahead(
                        o.order_type,
                        book@[b as int],
                        b as int,
                        book@[k],
                        k,
                    ),
                None => forall|k: int| 0 <= k < i ==> !eligible(this_id, *o, #[trigger] book@[k]),
            },
        decreases book@.len() - i,
    {
        let e = &book[i];
        let crosses_limit = match o.order_type {
            OrderType::Buy => e.price <= o.price,
            OrderType::Sell => e.price >= o.price,
        };
        if e.ticker == o.ticker && crosses_limit && (local_owner || e.user_id.node_id == this_id) {
            match best {
                None => {
                    best = Some(i);
                },
                Some(b) => {
                    let better = match o.order_type {
                        OrderType::Buy => e.price < book[b].price,
                        OrderType::Sell => e.price > book[b].price,
                    };
                    if better {
                        best = Some(i);
                    }
                },
            }
        }
        i = i + 1;
    }
    best
}

/// Matches up to `q` units of `o` against `book`, the side opposite to `o`'s.
fn match_against(this_id: NodeID, book: &mut Vec<Resting>, o: &Order, q: u64) -> (r: (
    Vec<Trade>,
    Vec<Order>,
    u64,
))
    requires
        positive(old(book)@),
    ensures
        positive(final(book)@),
        (final(book)@, r.0@, r.1@, r.2 as nat) == match_run(this_id, old(book)@, *o, q as nat),
{
    let mut trades: Vec<Trade> = Vec::new();
    let mut consumed: Vec<Order> = Vec::new();
    let mut left = q;
    loop
        invariant
            positive(book@),
            left <= q,
            match_run(this_id, old(book)@, *o, q as nat) == {
                let rest = match_run(this_id, book@, *o, left as nat);
                (rest.0, trades@ + rest.1, consumed@ + rest.2, rest.3)
            },
        ensures
            positive(book@),
            (book@, trades@, consumed@, left as nat) == match_run(this_id, old(book)@, *o, q as nat),
        decreases left,
    {
        if left == 0 {
            proof {
                assert(trades@ + Seq::<Trade>::empty() =~= trades@);
                assert(consumed@ + Seq::<Order>::empty() =~= consumed@);
                assert(match_run(this_id, book@, *o, left as nat) == (book@, Seq::<Trade>::empty(), Seq::<Order>::empty(), left as nat));
            }
            break;
        }
        let j = match find_best(this_id, book, o) {
            Some(j) => j,
            None => {
                proof {
                    assert(trades@ + Seq::<Trade>::empty() =~= trades@);
                    assert(consumed@ + Seq::<Order>::empty() =~= consumed@);
                    assert(match_run(this_id, book@, *o, left as nat) == (book@, Seq::<Trade>::empty(), Seq::<Order>::empty(), left as nat));
                }
                break;
            },
        };
        proof {
            lemma_best_unique(this_id, book@, *o, j as int);
        }
        let ghost b0 = book@;
        let e_qty = book[j].quantity;
        let e_price = book[j].price;
        let e_user = book[j].user_id;
        let t = if left < e_qty { left } else { e_qty };
        let trade = match o.order_type {
            OrderType::Buy => Trade {
                quantity: t,
                price: e_price,
                ticker: o.ticker.clone(),
                buyer_id: o.user_id,
                seller_id: e_user,
                buy_price: o.price,
                sell_price: e_price,
            },
            OrderType::Sell => Trade {
                quantity: t,
                price: e_price,
                ticker: o.ticker.clone(),
                buyer_id: e_user,
                seller_id: o.user_id,
                buy_price: e_price,
                sell_price: o.price,
            },
        };
        proof {
            assert(trade == trade_of(*o, b0[j as int], t));
        }
        trades.push(trade);
        if e_user.node_id == this_id {
            let c = Order {
                order_type: o.order_type.opposite(),
                ticker: o.ticker.clone(),
                user_id: e_user,
                quantity: t,
                price: e_price,
            };
            proof {
                assert(c == consumed_of(*o, b0[j as int], t));
            }
            consumed.push(c);
        }
        if t == e_qty {
            book.remove(j);
        } else {
            book[j].quantity = e_qty - t;
            proof {
                assert(book@ =~= b0.update(j as int, with_quantity(b0[j as int], (e_qty - t) as u64)));
            }
        }
        left = left - t;
        proof {
            let ghost ts = seq![trade_of(*o, b0[j as int], t)];
            let ghost cs = if e_user.node_id == this_id {
                seq![consumed_of(*o, b0[j as int], t)]
            } else {
                Seq::<Order>::empty()
            };
            let rest = match_run(this_id, book@, *o, left as nat);
            assert(trades@ + rest.1 =~= (trades@.drop_last()) + (ts + rest.1));
            assert(consumed@ + rest.2 =~= (consumed@.subrange(0, consumed@.len() - cs.len())) + (cs + rest.2));
            assert forall|i: int| 0 <= i < book@.len() implies (#[trigger] book@[i]).quantity > 0 by {
                if t == e_qty {
                    assert(book@[i] == b0.remove(j as int)[i]);
                } else if i != j {
                    assert(book@[i] == b0[i]);
                }
            }
        }
    }
    (trades, consumed, left)
}

/// Takes up to `q` units from the resting orders of `o`'s owner at `o`'s
/// ticker and price in `book`, earliest first; returns what could not be taken.
fn deduct_from(book: &mut Vec<Resting>, o: &Order, q: u64) -> (r: u64)
    requires
        positive(old(book)@),
    ensures
        positive(final(book)@),
        (final(book)@, r as nat) == deduct_run(old(book)@, *o, q as nat),
{
    let ghost b0 = book@;
    let mut i: usize = 0;
    let ghost mut j: int = 0;
    let mut left = q;
    assert(b0.skip(0) =~= b0);
    assert(book@.take(0) + deduct_run(b0, *o, q as nat).0 =~= deduct_run(b0, *o, q as nat).0);
    while i < book.len() && left > 0
        invariant
            i <= book@.len(),
            0 <= j <= b0.len(),
            book@.skip(i as int) =~= b0.skip(j),
            positive(book@),
            left <= q,
            deduct_run(b0, *o, q as nat) == {
                let rest = deduct_run(b0.skip(j), *o, left as nat);
                (book@.take(i as int) + rest.0, rest.1)
            },
        decreases book@.len() - i + left,
    {
        let ghost before = book@;
        let ghost tail = b0.skip(j);
        let ghost left0 = left;
        assert(tail[0] == book@[i as int]);
        assert(tail.drop_first() =~= b0.skip(j + 1));
        if book[i].ticker == o.ticker && book[i].price == o.price && book[i].user_id == o.user_id {
            let e_qty = book[i].quantity;
            let t = if left < e_qty { left } else { e_qty };
            left = left - t;
            if t == e_qty {
                book.remove(i);
                proof {
                    assert(deduct_run(tail, *o, left0 as nat) == deduct_run(b0.skip(j + 1), *o, left as nat));
                    assert(book@.take(i as int) =~= before.take(i as int));
                    assert(book@.skip(i as int) =~= before.skip(i + 1));
                    assert(before.skip(i + 1) =~= before.skip(i as int).drop_first());
                    assert forall|k: int| 0 <= k < book@.len() implies (#[trigger] book@[k]).quantity > 0 by {
                        assert(book@[k] == before.remove(i as int)[k]);
                    }
                }
            } else {
                book[i].quantity = e_qty - t;
                proof {
                    let e2 = with_quantity(before[i as int], (e_qty - t) as u64);
                    let rest = deduct_run(b0.skip(j + 1), *o, left as nat);
                    assert(deduct_run(tail, *o, left0 as nat) == (seq![e2] + rest.0, rest.1));
                    assert(book@.take(i + 1) =~= before.take(i as int).push(e2));
                    assert(book@.skip(i + 1) =~= before.skip(i as int).drop_first());
                    assert(before.take(i as int) + (seq![e2] + rest.0) =~= book@.take(i + 1) + rest.0);
                }
                i = i + 1;
            }
        } else {
            proof {
                let e = before[i as int];
                let rest = deduct_run(b0.skip(j + 1), *o, left as nat);
                assert(deduct_run(tail, *o, left0 as nat) == (seq![e] + rest.0, rest.1));
                assert(book@.take(i + 1) =~= before.take(i as int).push(e));
                assert(book@.skip(i + 1) =~= before.skip(i as int).drop_first());
                assert(before.take(i as int) + (seq![e] + rest.0) =~= book@.take(i + 1) + rest.0);
            }
            i = i + 1;
        }
        proof {
            j = j + 1;
        }
    }
    proof {
        assert(deduct_run(b0.skip(j), *o, left as nat) == (b0.skip(j), left as nat));
        assert(book@.take(i as int) + b0.skip(j) =~= book@);
    }
    left
}

/// The resting orders of `book` as (ticker, price, quantity).
pub open spec fn book_levels(book: Seq<Resting>) -> Seq<Level> {
    book.map_values(|e: Resting| (e.ticker, e.price, e.quantity))
}

fn levels_of_book(book: &Vec<Resting>) -> (r: Vec<Level>)
    ensures
        r@ == book_levels(book@),
{
    let mut out: Vec<Level> = Vec::new();
    let mut i: usize = 0;
    while i < book.len()
        invariant
            i <= book@.len(),
            out@ == book_levels(book@.take(i as int)),
        decreases book@.len() - i,
    {
        out.push((book[i].ticker.clone(), book[i].price, book[i].quantity));
        proof {
            assert(book_levels(book@.take(i + 1)) =~= book_levels(book@.take(i as int)).push(
                (book@[i as int].ticker, book@[i as int].price, book@[i as int].quantity)));
        }
        i = i + 1;
    }
    assert(book@.take(i as int) =~= book@);
    out
}

/// The side opposite to `side`.
pub open spec fn other_side(side: OrderType) -> OrderType {
    match side {
        OrderType::Buy => OrderType::Sell,
        OrderType::Sell => OrderType::Buy,
    }
}

/// The resting order that the unmatched `q` units of `o` become.
pub open spec fn resting_of(o: Order, q: u64) -> Resting {
    Resting { ticker: o.ticker, price: o.price, user_id: o.user_id, quantity: q }
}

/// `o` with its quantity replaced by `q`.
pub open spec fn order_with(o: Order, q: u64) -> Order {
    Order { order_type: o.order_type, ticker: o.ticker, user_id: o.user_id, quantity: q, price: o.price }
}

pub struct Matcher {
    this_id: NodeID,
    buys: Vec<Resting>,
    sells: Vec<Resting>,
    to_deduct: Tally<DeductKey>,
}

impl Matcher {
    pub closed spec fn wf(&self) -> bool {
        &&& positive(self.buys@)
        &&& positive(self.sells@)
        &&& self.to_deduct.wf()
    }

    /// The node this matcher runs on.
    pub closed spec fn node(&self) -> NodeID {
        self.this_id
    }

    /// The resting orders of one side, in arrival order.
    pub closed spec fn book(&self, side: OrderType) -> Seq<Resting> {
        match side {
            OrderType::Buy => self.buys@,
            OrderType::Sell => self.sells@,
        }
    }

    /// The quantity that a future order of key `k` must first be netted against.
    pub closed spec fn owed(&self, k: (OrderType, Seq<char>, u64, UserID)) -> int {
        self.to_deduct.amount(k)
    }

    /// What `add_order(order)` returns on this matcher: the remaining
    /// order, the trades, and the consumed resting orders of local accounts.
    pub open spec fn add_outcome(&self, order: Order) -> (Order, Seq<Trade>, Seq<Order>) {
        let netted = min_nat(self.owed(deduct_key(order)) as nat, order.quantity as nat);
        let run = match_run(self.node(), self.book(other_side(order.order_type)), order, (order.quantity - netted) as nat);
        (order_with(order, run.3 as u64), run.1, run.2)
    }

    /// The effect of `add_order(order)` on this matcher, `after` being the
    /// matcher afterwards and `r` what it returns.
    pub open spec fn order_added(&self, order: Order, after: &Matcher, r: (Order, Seq<Trade>, Seq<Order>)) -> bool {
        let key = deduct_key(order);
        let netted = min_nat(self.owed(key) as nat, order.quantity as nat);
        let side = order.order_type;
        let run = match_run(self.node(), self.book(other_side(side)), order, (order.quantity - netted) as nat);
        &&& after.wf()
        &&& after.node() == self.node()
        &&& forall|k: (OrderType, Seq<char>, u64, UserID)| #[trigger] after.owed(k)
            == self.owed(k) - if k == key { netted as int } else { 0 }
        &&& after.book(other_side(side)) == run.0
        &&& after.book(side) == if run.3 > 0 {
            self.book(side).push(resting_of(order, run.3 as u64))
        } else {
            self.book(side)
        }
        &&& r == self.add_outcome(order)
    }

    /// The effect of `deduct_order(order)`: the order's owner's resting
    /// orders at its side, ticker and price lose up to its quantity, earliest
    /// first, and the shortfall is owed by later orders of that key.
    pub open spec fn order_deducted(&self, order: Order, after: &Matcher) -> bool {
        let run = deduct_run(self.book(order.order_type), order, order.quantity as nat);
        &&& after.wf()
        &&& after.node() == self.node()
        &&& after.book(order.order_type) == run.0
        &&& after.book(other_side(order.order_type)) == self.book(other_side(order.order_type))
        &&& forall|k: (OrderType, Seq<char>, u64, UserID)| #[trigger] after.owed(k) == if k == deduct_key(order) {
            if self.owed(k) + run.1 > u64::MAX { u64::MAX as int } else { self.owed(k) + run.1 }
        } else {
            self.owed(k)
        }
    }

    /// What is owed under a key fits in 64 bits.
    pub proof fn lemma_owed_bound(&self, k: (OrderType, Seq<char>, u64, UserID))
        requires
            self.wf(),
        ensures
            0 <= self.owed(k) <= u64::MAX,
    {
        self.to_deduct.lemma_amount_nonneg(k);
        if exists|i: int| 0 <= i < self.to_deduct.entries@.len() && self.to_deduct.entries@[i].0@ == k {
            let i = choose|i: int| 0 <= i < self.to_deduct.entries@.len() && self.to_deduct.entries@[i].0@ == k;
            self.to_deduct.lemma_amount_at(i);
        } else {
            self.to_deduct.lemma_amount_absent(k);
        }
    }

    pub fn new(this_id: NodeID) -> (r: Matcher)
        ensures
            r.wf(),
            r.node() == this_id,
            r.book(OrderType::Buy) == Seq::<Resting>::empty(),
            r.book(OrderType::Sell) == Seq::<Resting>::empty(),
            forall|k: (OrderType, Seq<char>, u64, UserID)| #[trigger] r.owed(k) == 0,
    {
        let r = Matcher { this_id, buys: Vec::new(), sells: Vec::new(), to_deduct: Tally::new() };
        proof {
            assert forall|k: (OrderType, Seq<char>, u64, UserID)| #[trigger] r.owed(k) == 0 by {
                assert(r.to_deduct.amount(k) == 0);
            }
        }
        r
    }

    pub fn get_id(&self) -> (r: NodeID)
        ensures
            r == self.node(),
    {
        self.this_id
    }

    /// The resting orders of one side, in arrival order.
    pub fn resting(&self, side: OrderType) -> (r: &Vec<Resting>)
        ensures
            r@ == self.book(side),
    {
        match side {
            OrderType::Buy => &self.buys,
            OrderType::Sell => &self.sells,
        }
    }

    /// Market depth: for each ticker, the resting quantity summed by price
    /// on each side (capped at `u64::MAX`).
    pub fn get_stats(&self) -> (r: AllOrders)
        ensures
            depth_of(r, book_levels(self.book(OrderType::Buy)), book_levels(self.book(OrderType::Sell))),
    {
        let buys = levels_of_book(&self.buys);
        let sells = levels_of_book(&self.sells);
        depth(&buys, &sells)
    }

    /// The quantity still to be deducted from a future order of this side,
    /// ticker, price and owner.
    pub fn get_owed(&self, order_type: OrderType, ticker: &String, price: u64, user_id: UserID) -> (r: u64)
        requires
            self.wf(),
        ensures
            r == self.owed((order_type, ticker@, price, user_id)),
    {
        self.to_deduct.get(&DeductKey { order_type, ticker: ticker.clone(), price, user_id })
    }

    /// Takes up to the order's quantity from its owner's resting orders at its
    /// side, ticker and price, earliest first. `Err` carries what could not be
    /// taken because the book does not hold it.
    pub fn try_deduct_order(&mut self, order: Order) -> (r: Result<(), u64>)
        requires
            old(self).wf(),
        ensures
            final(self).wf(),
            final(self).node() == old(self).node(),
            ({
                let run = deduct_run(old(self).book(order.order_type), order, order.quantity as nat);
                &&& final(self).book(order.order_type) == run.0
                &&& r == if run.1 == 0 { Ok::<(), u64>(()) } else { Err(run.1 as u64) }
            }),
            final(self).book(other_side(order.order_type)) == old(self).book(other_side(order.order_type)),
            forall|k: (OrderType, Seq<char>, u64, UserID)| #[trigger] final(self).owed(k) == old(self).owed(k),
    {
        let left = match order.order_type {
            OrderType::Buy => deduct_from(&mut self.buys, &order, order.quantity),
            OrderType::Sell => deduct_from(&mut self.sells, &order, order.quantity),
        };
        if left == 0 {
            Ok(())
        } else {
            Err(left)
        }
    }

    /// Cancels or reduces the order's owner's resting orders at its side,
    /// ticker and price by up to its quantity; what the book does not hold is
    /// recorded to be netted against a later order of the same key (capped at
    /// `u64::MAX`).
    pub fn deduct_order(&mut self, order: Order)
        requires
            old(self).wf(),
        ensures
            old(self).order_deducted(order, final(self)),
    {
        let key = DeductKey {
            order_type: order.order_type,
            ticker: order.ticker.clone(),
            price: order.price,
            user_id: order.user_id,
        };
        let cur = self.to_deduct.get(&key);
        let ghost mid_key = key@;
        proof {
            lemma_deduct_run_bound(self.book(order.order_type), order, order.quantity as nat);
        }
        match self.try_deduct_order(order) {
            Ok(()) => {
                assert(mid_key == deduct_key(order));
                assert(self.owed(mid_key) == cur);
                assert(deduct_run(old(self).book(order.order_type), order, order.quantity as nat).1 == 0);
            },
            Err(left) => {
                assert(mid_key == deduct_key(order));
                assert(self.owed(mid_key) == cur);
                let add = if cur > u64::MAX - left { u64::MAX - cur } else { left };
                let ghost before = *self;
                self.to_deduct.add(key, add);
                proof {
                    assert forall|k: (OrderType, Seq<char>, u64, UserID)| #[trigger] self.owed(k)
                        == before.owed(k) + if k == mid_key { add as int } else { 0 } by {}
                }
            },
        }
    }

    /// Adds `order` to the book: nets it first against what is owed for its
    /// key, then matches it against the opposite side, best price first and
    /// earliest first within a price, and rests what is left at the back of
    /// its side. Returns the remaining order, the trades, and the resting
    /// orders of this node's accounts that the trades consumed.
    pub fn add_order(&mut self, order: Order) -> (r: (Order, Vec<Trade>, Vec<Order>))
        requires
            old(self).wf(),
        ensures
            old(self).order_added(order, final(self), (r.0, r.1@, r.2@)),
    {
        let key = DeductKey {
            order_type: order.order_type,
            ticker: order.ticker.clone(),
            price: order.price,
            user_id: order.user_id,
        };
        let netted = self.to_deduct.take(&key, order.quantity);
        let mut left = order.quantity - netted;
        let (trades, consumed, rest) = match order.order_type {
            OrderType::Buy => match_against(self.this_id, &mut self.sells, &order, left),
            OrderType::Sell => match_against(self.this_id, &mut self.buys, &order, left),
        };
        left = rest;
        if left > 0 {
            let entry = Resting {
                ticker: order.ticker.clone(),
                price: order.price,
                user_id: order.user_id,
                quantity: left,
            };
            match order.order_type {
                OrderType::Buy => self.buys.push(entry),
                OrderType::Sell => self.sells.push(entry),
            }
            proof {
                let side = order.order_type;
                assert forall|i: int| 0 <= i < self.book(side).len() implies (#[trigger] self.book(side)[i]).quantity > 0 by {
                    if i < old(self).book(side).len() {
                        assert(self.book(side)[i] == old(self).book(side)[i]);
                    }
                }
            }
        }
        let remaining = Order {
            order_type: order.order_type,
            ticker: order.ticker,
            user_id: order.user_id,
            quantity: left,
            price: order.price,
        };
        (remaining, trades, consumed)
    }
}

} // verus!
