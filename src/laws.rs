//! Properties that relate several operations of the ledger and the matcher.

use vstd::prelude::*;
use crate::account::Account;
use crate::matcher::{
    ahead, deduct_key, deduct_run, eligible, has_eligible, is_best, match_run, min_nat, other_side, positive,
    resting_of, same_level, trade_of, with_quantity, Matcher, Resting,
};
use crate::state::{Offer, State};
use crate::types::{NodeID, Order, OrderReq, OrderType, Trade, TradeID, UserID};

verus! {

/// An account's cash and every one of its holdings are never negative.
pub proof fn lemma_balances_nonnegative(a: &Account)
    requires
        a.wf(),
    ensures
        a.cash() >= 0,
        forall|t: Seq<char>| #[trigger] a.held(t) >= 0,
{
    a.lemma_wf_nonneg();
}

/// Aborting a pending trade right after it was added gives back exactly the
/// debit and the reservation that adding it took, and leaves no trace of it.
pub proof fn lemma_abort_reverses_add(a0: &Account, a1: &Account, a2: &Account, trade_id: TradeID, trade: Trade)
    requires
        !a0.pending_trades().contains_key(trade_id),
        a0.pending_added(trade_id, trade, a1),
        a1.pending_aborted(trade_id, a2),
    ensures
        a2.cash() == a0.cash(),
        forall|t: Seq<char>| #[trigger] a2.held(t) == a0.held(t),
        forall|s: OrderType, t: Seq<char>, p: u64| #[trigger] a2.reserved(s, t, p) == a0.reserved(s, t, p),
        a2.pending_trades() == a0.pending_trades(),
{
    assert(a1.pending_trades()[trade_id] == trade);
    assert forall|t: Seq<char>| #[trigger] a2.held(t) == a0.held(t) by {
        assert(a1.held(t) == a0.held(t) + if t == trade.ticker@ {
            if trade.buyer_id == a0.user() { 0 } else { -(trade.quantity as int) }
        } else {
            0
        });
    }
    assert forall|s: OrderType, t: Seq<char>, p: u64| #[trigger] a2.reserved(s, t, p) == a0.reserved(s, t, p) by {
        assert(a1.reserved(s, t, p) == a0.reserved(s, t, p) + if s == a0.side_in(trade) && t == trade.ticker@
            && p == a0.limit_in(trade) { -(trade.quantity as int) } else { 0 });
    }
    assert(a2.pending_trades() =~= a0.pending_trades());
}

/// A trade just made pending can always be aborted: giving back what adding
/// it took fits in 64 bits.
pub proof fn lemma_abort_after_add_succeeds(a0: &Account, a1: &Account, trade_id: TradeID, trade: Trade)
    requires
        a0.wf(),
        !a0.pending_trades().contains_key(trade_id),
        a0.pending_added(trade_id, trade, a1),
    ensures
        a1.can_abort(trade_id),
{
    a0.lemma_wf_nonneg();
    assert(a1.pending_trades()[trade_id] == trade);
    assert(a1.reserved(a0.side_in(trade), trade.ticker@, a0.limit_in(trade)) == a0.reserved(
        a0.side_in(trade),
        trade.ticker@,
        a0.limit_in(trade),
    ) - trade.quantity);
    assert(a1.held(trade.ticker@) == a0.held(trade.ticker@) + if trade.buyer_id == a0.user() {
        0
    } else {
        -(trade.quantity as int)
    });
}

/// Reserving capacity for an order and then cancelling the same order gives
/// the account back its reservations as they were.
pub proof fn lemma_admit_then_cancel(s0: &State, s1: &State, s2: &State, id: usize, req: OrderReq, d: u64)
    requires
        s0.wf(),
        s0.admission_done(id, req, s1, true),
        s1.cancel_done(id, req, s2, d),
    ensures
        d == req.quantity,
        s2.account(id as int) is Some,
        s2.account(id as int).unwrap().cash() == s0.account(id as int).unwrap().cash(),
        forall|t: Seq<char>| #[trigger] s2.account(id as int).unwrap().held(t) == s0.account(id as int).unwrap().held(t),
        forall|s: OrderType, t: Seq<char>, p: u64| #[trigger] s2.account(id as int).unwrap().reserved(s, t, p)
            == s0.account(id as int).unwrap().reserved(s, t, p),
        s2.account(id as int).unwrap().pending_trades() == s0.account(id as int).unwrap().pending_trades(),
{
    let a0 = s0.account(id as int).unwrap();
    let a1 = s1.account(id as int).unwrap();
    let a2 = s2.account(id as int).unwrap();
    let side = req.order_type;
    s0.lemma_wf_facts();
    assert(s0.account(id as int) is Some);
    assert(a1.reserved(side, req.ticker@, req.price) == a0.reserved(side, req.ticker@, req.price) + req.quantity);
    a0.lemma_wf_nonneg();
    assert forall|t: Seq<char>| #[trigger] a2.held(t) == a0.held(t) by {
        assert(a1.held(t) == a0.held(t));
    }
    assert forall|s: OrderType, t: Seq<char>, p: u64| #[trigger] a2.reserved(s, t, p) == a0.reserved(s, t, p) by {
        assert(a1.reserved(s, t, p) == a0.reserved(s, t, p) + (if s == OrderType::Buy && t == req.ticker@ && p
            == req.price { if side == OrderType::Buy { req.quantity as int } else { 0 } } else { 0 }) + (if s
            == OrderType::Sell && t == req.ticker@ && p == req.price { if side == OrderType::Sell { req.quantity as int } else { 0 } } else { 0 }));
    }
}

/// Deducting passes over resting orders of other owners, tickers or prices.
proof fn lemma_deduct_skips(b: Seq<Resting>, s: Seq<Resting>, o: Order, q: nat)
    requires
        forall|i: int| 0 <= i < b.len() ==> !same_level(o, #[trigger] b[i]),
    ensures
        deduct_run(b + s, o, q) == (b + deduct_run(s, o, q).0, deduct_run(s, o, q).1),
    decreases b.len(),
{
    if b.len() == 0 {
        assert(b + s =~= s);
        assert(b + deduct_run(s, o, q).0 =~= deduct_run(s, o, q).0);
    } else if q == 0 {
        assert(deduct_run(s, o, q).0 == s);
    } else {
        assert((b + s)[0] == b[0]);
        assert((b + s).drop_first() =~= b.drop_first() + s);
        assert forall|i: int| 0 <= i < b.drop_first().len() implies !same_level(o, #[trigger] b.drop_first()[i]) by {
            assert(b.drop_first()[i] == b[i + 1]);
        }
        lemma_deduct_skips(b.drop_first(), s, o, q);
        assert(seq![b[0]] + (b.drop_first() + deduct_run(s, o, q).0) =~= b + deduct_run(s, o, q).0);
    }
}

/// Adding an order that trades with nothing, and then deducting the same
/// order, gives back the book and the to-deduct ledger as they were, when
/// the owner had no other resting order at that side, ticker and price.
pub proof fn lemma_add_then_deduct(m0: &Matcher, m1: &Matcher, m2: &Matcher, order: Order)
    requires
        m0.wf(),
        m0.order_added(order, m1, m0.add_outcome(order)),
        m0.add_outcome(order).1.len() == 0,
        m1.order_deducted(order, m2),
        forall|i: int| 0 <= i < m0.book(order.order_type).len() ==> !same_level(order, #[trigger] m0.book(order.order_type)[i]),
    ensures
        m2.book(OrderType::Buy) == m0.book(OrderType::Buy),
        m2.book(OrderType::Sell) == m0.book(OrderType::Sell),
        forall|k: (OrderType, Seq<char>, u64, UserID)| #[trigger] m2.owed(k) == m0.owed(k),
{
    let side = order.order_type;
    let key = deduct_key(order);
    let netted = min_nat(m0.owed(key) as nat, order.quantity as nat);
    let q1 = (order.quantity - netted) as nat;
    let run = match_run(m0.node(), m0.book(other_side(side)), order, q1);
    assert(run.0 == m0.book(other_side(side)) && run.3 == q1);
    let b0 = m0.book(side);
    m0.lemma_owed_bound(key);
    if q1 > 0 {
        let e = resting_of(order, q1 as u64);
        assert(m1.book(side) == b0.push(e));
        assert(b0.push(e) =~= b0 + seq![e]);
        lemma_deduct_skips(b0, seq![e], order, order.quantity as nat);
        assert(seq![e].drop_first() =~= Seq::<Resting>::empty());
        assert(seq![e][0] == e);
        assert(same_level(order, e));
        assert(deduct_run(Seq::<Resting>::empty(), order, netted) == (Seq::<Resting>::empty(), netted));
        assert(deduct_run(seq![e], order, order.quantity as nat) == (Seq::<Resting>::empty(), netted));
        assert(b0 + Seq::<Resting>::empty() =~= b0);
    } else {
        assert(m1.book(side) == b0);
        assert(b0 + Seq::<Resting>::empty() =~= b0);
        lemma_deduct_skips(b0, Seq::<Resting>::empty(), order, order.quantity as nat);
    }
    assert(side == OrderType::Buy || side == OrderType::Sell);
}

/// When some resting order may be matched, one of them comes first.
proof fn lemma_best_exists(this_id: NodeID, book: Seq<Resting>, o: Order)
    requires
        has_eligible(this_id, book, o),
    ensures
        exists|j: int| is_best(this_id, book, o, j),
    decreases book.len(),
{
    let n = book.len() - 1;
    let pre = book.drop_last();
    if has_eligible(this_id, pre, o) {
        let w = choose|w: int| 0 <= w < pre.len() && eligible(this_id, o, #[trigger] pre[w]);
        assert(book[w] == pre[w]);
        lemma_best_exists(this_id, pre, o);
        let j = choose|j: int| is_best(this_id, pre, o, j);
        assert(book[j] == pre[j]);
        if eligible(this_id, o, book[n]) && ahead(o.order_type, book[n], n, book[j], j) {
            assert forall|k: int| 0 <= k < book.len() && k != n && eligible(this_id, o, #[trigger] book[k]) implies ahead(
                o.order_type,
                book[n],
                n,
                book[k],
                k,
            ) by {
                assert(book[k] == pre[k]);
                if k != j {
                    assert(ahead(o.order_type, pre[j], j, pre[k], k));
                }
            }
            assert(is_best(this_id, book, o, n));
        } else {
            assert forall|k: int| 0 <= k < book.len() && k != j && eligible(this_id, o, #[trigger] book[k]) implies ahead(
                o.order_type,
                book[j],
                j,
                book[k],
                k,
            ) by {
                if k < n {
                    assert(book[k] == pre[k]);
                }
            }
            assert(is_best(this_id, book, o, j));
        }
    } else {
        let w = choose|w: int| 0 <= w < book.len() && eligible(this_id, o, #[trigger] book[w]);
        if w < n {
            assert(pre[w] == book[w]);
        }
        assert forall|k: int| 0 <= k < book.len() && k != n && eligible(this_id, o, #[trigger] book[k]) implies ahead(
            o.order_type,
            book[n],
            n,
            book[k],
            k,
        ) by {
            assert(pre[k] == book[k]);
        }
        assert(is_best(this_id, book, o, n));
    }
}

/// Every trade the matcher proposes executes at a price between the two
/// limits: the resting order's price, which the incoming limit accepts.
pub proof fn lemma_trades_well_priced(this_id: NodeID, book: Seq<Resting>, o: Order, q: nat)
    ensures
        forall|k: int| 0 <= k < match_run(this_id, book, o, q).1.len() ==> (#[trigger] match_run(this_id, book, o, q).1[k]).well_priced(),
    decreases q,
{
    if q > 0 && has_eligible(this_id, book, o) {
        lemma_best_exists(this_id, book, o);
        let j = choose|j: int| is_best(this_id, book, o, j);
        let e = book[j];
        let t = min_nat(q, e.quantity as nat);
        if t > 0 {
            let after = if t == e.quantity {
                book.remove(j)
            } else {
                book.update(j, with_quantity(e, (e.quantity - t) as u64))
            };
            lemma_trades_well_priced(this_id, after, o, (q - t) as nat);
            let run = match_run(this_id, book, o, q);
            let rest = match_run(this_id, after, o, (q - t) as nat);
            assert(run.1 == seq![trade_of(o, e, t as u64)] + rest.1);
            assert forall|k: int| 0 <= k < run.1.len() implies (#[trigger] run.1[k]).well_priced() by {
                if k > 0 {
                    assert(run.1[k] == rest.1[k - 1]);
                }
            }
        }
    }
}

/// Processing a trade whose execution price does not exceed the buyer's limit,
/// settled at once or made pending, keeps every account of the ledger
/// solvent: buy exposure within cash, shares reserved for sale within holdings.
pub proof fn lemma_processing_keeps_solvency(s0: &State, trade: Trade, s1: &State, out: Option<(NodeID, Offer)>)
    requires
        s0.all_solvent(),
        trade.price <= trade.buy_price,
        s0.can_process(trade),
        s0.processed(trade, s1, out),
    ensures
        s1.all_solvent(),
{
    let q = trade.quantity as int;
    let t = trade.ticker@;
    assert(trade.price * trade.quantity <= trade.buy_price * trade.quantity) by (nonlinear_arith)
        requires trade.price <= trade.buy_price;
    assert(trade.buy_price * (-q) == -(trade.buy_price * trade.quantity)) by (nonlinear_arith)
        requires q == trade.quantity;
    assert(trade.buy_price * 0int == 0) by (nonlinear_arith);
    assert forall|i: int| 0 <= i < s1.slots().len() && (#[trigger] s1.slots()[i]) is Some implies s1.slots()[i].unwrap().solvent() by {
        let b = trade.buyer_id.id as int;
        let s = trade.seller_id.id as int;
        let a1 = s1.slots()[i].unwrap();
        if s0.both_local(trade) {
            if i != b && i != s {
                assert(s1.slots()[i] == s0.slots()[i]);
            } else {
                let a0 = s0.account(i).unwrap();
                assert(s0.slots()[i] is Some);
                assert(a0.solvent());
                assert forall|u: Seq<char>| #[trigger] a1.sell_total(u) <= a1.held(u) by {
                    assert(a0.sell_total(u) <= a0.held(u));
                }
            }
        } else {
            let k = s0.local_index(trade) as int;
            if i != k {
                assert(s1.slots()[i] == s0.slots()[i]);
            } else {
                let a0 = s0.account(i).unwrap();
                assert(s0.slots()[i] is Some);
                assert(a0.solvent());
                assert forall|u: Seq<char>| #[trigger] a1.sell_total(u) <= a1.held(u) by {
                    assert(a0.sell_total(u) <= a0.held(u));
                }
            }
        }
    }
}

/// Processing the trades of a matcher run in order keeps every account of
/// the ledger solvent after each trade, when each trade is priced between
/// the buyer's limit (as the matcher's trades are).
pub proof fn lemma_matches_keep_solvency(
    s0: &State,
    trades: Seq<Trade>,
    states: Seq<State>,
    outs: Seq<Option<(NodeID, Offer)>>,
    n: int,
)
    requires
        s0.all_solvent(),
        forall|k: int| 0 <= k < trades.len() ==> (#[trigger] trades[k]).price <= trades[k].buy_price,
        s0.processed_all(trades, states, outs),
        0 <= n <= trades.len(),
    ensures
        states[n].all_solvent(),
    decreases n,
{
    if n > 0 {
        let k = n - 1;
        lemma_matches_keep_solvency(s0, trades, states, outs, k);
        assert(states[k].processed(trades[k], &states[k + 1], outs[k]));
        assert(states[k].can_process(trades[k]));
        lemma_processing_keeps_solvency(&states[k], trades[k], &states[k + 1], outs[k]);
    }
}

} // verus!
