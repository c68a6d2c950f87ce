//! Settlement orchestration on one node: runs client orders and peer
//! messages through the ledger and the matcher, and says which messages the
//! node must send. The caller delivers them; nothing here waits on a peer.

use vstd::prelude::*;
use crate::account::LedgerError;
use crate::matcher::Matcher;
use crate::state::{Offer, State};
use crate::types::{NodeID, Order, OrderReq, OrderType, TradeID, UserID};

verus! {

/// A change to the peers' books: an order to add, or a quantity to deduct.
#[derive(Clone, Debug, PartialEq, Eq)]
pub struct OrderUpdate {
    pub deduct: bool,
    pub order: Order,
}

/// Where an order entered this node: from one of its own clients, or from a peer.
#[derive(Clone, Copy, Debug, PartialEq, Eq, Structural)]
pub enum OrderOrigin {
    Incoming,
    Outgoing,
}

/// A message this node must send.
#[derive(Clone, Debug, PartialEq, Eq)]
pub enum Outgoing {
    /// To every peer.
    Broadcast(OrderUpdate),
    /// To every peer except the given node.
    BroadcastExcept(NodeID, OrderUpdate),
    /// A trade offer to the node of its other side.
    SendOffer(NodeID, Offer),
}

/// The deduction broadcasts for consumed resting orders.
pub open spec fn deduct_msgs(consumed: Seq<Order>) -> Seq<Outgoing> {
    consumed.map_values(|o: Order| Outgoing::Broadcast(OrderUpdate { deduct: true, order: o }))
}

/// The broadcast of the resting remainder of an order, if any.
pub open spec fn add_msgs(remaining: Order, broadcast: bool) -> Seq<Outgoing> {
    if broadcast && remaining.quantity > 0 {
        seq![Outgoing::Broadcast(OrderUpdate { deduct: false, order: remaining })]
    } else {
        Seq::empty()
    }
}

/// The offers to send.
pub open spec fn offer_msgs(offers: Seq<(NodeID, Offer)>) -> Seq<Outgoing> {
    offers.map_values(|p: (NodeID, Offer)| Outgoing::SendOffer(p.0, p.1))
}

/// A result with its messages seen as a sequence.
pub open spec fn seq_result(r: Result<Vec<Outgoing>, LedgerError>) -> Result<Seq<Outgoing>, LedgerError> {
    match r {
        Ok(v) => Ok(v@),
        Err(e) => Err(e),
    }
}

/// Running `order` through matcher `m0` and ledger `s0` ends in `m1` and
/// `s1` with result `r`: the matcher adds the order; the consumed local
/// resting orders are broadcast as deductions, then the remainder as an
/// addition if the order is from this node's clients, then the offers; or
/// the ledger stops at a trade it cannot process.
pub open spec fn order_run(
    m0: Matcher,
    s0: State,
    order: Order,
    origin: OrderOrigin,
    m1: Matcher,
    s1: State,
    r: Result<Seq<Outgoing>, LedgerError>,
) -> bool {
    let out = m0.add_outcome(order);
    &&& m0.order_added(order, &m1, out)
    &&& match r {
        Ok(msgs) => exists|offers: Seq<(NodeID, Offer)>|
            #[trigger] s0.matches_done(out.1, &s1, offers) && msgs == deduct_msgs(out.2) + add_msgs(
                out.0,
                origin == OrderOrigin::Outgoing,
            ) + offer_msgs(offers),
        Err(e) => if s0.knows_all(out.1) {
            s0.matches_failed(out.1, &s1, e)
        } else {
            e == LedgerError::UnknownParty && s0.same_as(&s1)
        },
    }
}

/// The origin of `order` on node `node`: its own clients' orders go out.
pub open spec fn origin_of(node: NodeID, order: Order) -> OrderOrigin {
    if order.user_id.node_id == node {
        OrderOrigin::Outgoing
    } else {
        OrderOrigin::Incoming
    }
}

/// The order that account `user` places with `req`.
pub open spec fn order_of(user: UserID, req: OrderReq) -> Order {
    Order { order_type: req.order_type, ticker: req.ticker, user_id: user, quantity: req.quantity, price: req.price }
}

/// The matcher and the ledger of one node. Callers that share it take the
/// ledger's lock before the matcher's.
pub struct Exchange {
    matcher: Matcher,
    state: State,
}

impl Exchange {
    pub closed spec fn wf(&self) -> bool {
        &&& self.matcher.wf()
        &&& self.state.wf()
        &&& self.matcher.node() == self.state.node()
    }

    pub closed spec fn book(&self) -> Matcher {
        self.matcher
    }

    pub closed spec fn ledger(&self) -> State {
        self.state
    }

    pub fn new(state: State) -> (r: Exchange)
        requires
            state.wf(),
        ensures
            r.wf(),
            r.ledger() == state,
            r.book().node() == state.node(),
            r.book().book(crate::types::OrderType::Buy) == Seq::<crate::matcher::Resting>::empty(),
            r.book().book(crate::types::OrderType::Sell) == Seq::<crate::matcher::Resting>::empty(),
    {
        let matcher = Matcher::new(state.get_id());
        Exchange { matcher, state }
    }

    pub fn matcher(&self) -> (r: &Matcher)
        ensures
            *r == self.book(),
    {
        &self.matcher
    }

    pub fn state(&self) -> (r: &State)
        ensures
            *r == self.ledger(),
    {
        &self.state
    }

    /// The ledger, for operations that do not involve the matcher.
    pub fn state_mut(&mut self) -> (r: &mut State)
        requires
            old(self).wf(),
        ensures
            *r == old(self).ledger(),
            final(r).wf() && final(r).node() == old(self).ledger().node() ==> final(self).wf(),
            final(self).book() == old(self).book(),
            final(self).ledger() == *final(r),
    {
        &mut self.state
    }

    /// Adds `order` to the matcher and processes the matches: consumed local
    /// resting orders are broadcast as deductions, the remainder of an order
    /// of this node's clients is broadcast as an addition, trades between two
    /// local accounts settle at once, and each cross-node trade becomes
    /// pending with an offer to send.
    pub fn process_order(&mut self, order: Order, origin: OrderOrigin) -> (r: Result<Vec<Outgoing>, LedgerError>)
        requires
            old(self).wf(),
        ensures
            final(self).wf(),
            order_run(old(self).book(), old(self).ledger(), order, origin, final(self).book(), final(self).ledger(), seq_result(r)),
    {
        let (remaining, trades, consumed) = self.matcher.add_order(order);
        let mut msgs = deduct_broadcasts(&consumed);
        let ghost before_add = msgs@;
        let ghost rem = remaining;
        if origin == OrderOrigin::Outgoing && remaining.quantity > 0 {
            msgs.push(Outgoing::Broadcast(OrderUpdate { deduct: false, order: remaining }));
        }
        proof {
            assert(msgs@ =~= before_add + add_msgs(rem, origin == OrderOrigin::Outgoing));
        }
        let ghost trade_seq = trades@;
        if !self.state.knows_parties(&trades) {
            return Err(LedgerError::UnknownParty);
        }
        let offers = match self.state.process_matches(trades) {
            Ok(offers) => offers,
            Err(e) => {
                return Err(e);
            },
        };
        append_offers(&mut msgs, &offers);
        proof {
            let out = old(self).book().add_outcome(order);
            assert(old(self).book().order_added(order, &self.book(), out));
            assert(trade_seq == out.1);
            assert(old(self).ledger().matches_done(out.1, &self.ledger(), offers@));
            assert(msgs@ == deduct_msgs(out.2) + add_msgs(out.0, origin == OrderOrigin::Outgoing) + offer_msgs(offers@));
        }
        Ok(msgs)
    }

    /// Runs `order` through the matcher, broadcasting its remainder only if
    /// it belongs to one of this node's accounts.
    pub fn add_order_to_matcher_and_process(&mut self, order: Order) -> (r: Result<Vec<Outgoing>, LedgerError>)
        requires
            old(self).wf(),
        ensures
            final(self).wf(),
            order_run(
                old(self).book(),
                old(self).ledger(),
                order,
                origin_of(old(self).ledger().node(), order),
                final(self).book(),
                final(self).ledger(),
                seq_result(r),
            ),
    {
        let origin = if order.user_id.node_id == self.state.get_id() {
            OrderOrigin::Outgoing
        } else {
            OrderOrigin::Incoming
        };
        self.process_order(order, origin)
    }

    /// A client of account `user` places `req`: the ledger's admission test
    /// first, `None` if the account lacks the capacity; otherwise the order
    /// runs through the matcher.
    pub fn submit_order(&mut self, user: UserID, req: OrderReq) -> (r: Result<Option<Vec<Outgoing>>, LedgerError>)
        requires
            old(self).wf(),
        ensures
            final(self).wf(),
            !old(self).ledger().is_local_account(user) ==> r == Err::<Option<Vec<Outgoing>>, LedgerError>(
                LedgerError::UnknownAccount,
            ) && *final(self) == *old(self),
            old(self).ledger().is_local_account(user) ==> match r {
                Ok(None) => old(self).ledger().admission_done(user.id, req, &final(self).ledger(), false)
                    && final(self).book() == old(self).book(),
                Ok(Some(msgs)) => exists|mid: State|
                    #[trigger] old(self).ledger().admission_done(user.id, req, &mid, true) && order_run(
                        old(self).book(),
                        mid,
                        order_of(user, req),
                        OrderOrigin::Outgoing,
                        final(self).book(),
                        final(self).ledger(),
                        Ok(msgs@),
                    ),
                Err(e) => exists|mid: State|
                    #[trigger] old(self).ledger().admission_done(user.id, req, &mid, true) && order_run(
                        old(self).book(),
                        mid,
                        order_of(user, req),
                        OrderOrigin::Outgoing,
                        final(self).book(),
                        final(self).ledger(),
                        Err(e),
                    ),
            },
    {
        if user.node_id != self.state.get_id() {
            return Err(LedgerError::UnknownAccount);
        }
        match self.state.get_accounts().get(user.id) {
            Some(_) => {},
            None => {
                return Err(LedgerError::UnknownAccount);
            },
        }
        let order = Order {
            order_type: req.order_type,
            ticker: req.ticker.clone(),
            user_id: user,
            quantity: req.quantity,
            price: req.price,
        };
        let ghost req_v = req;
        let admitted = match self.state.add_order(user.id, req) {
            Ok(a) => a,
            Err(e) => {
                return Err(e);
            },
        };
        if !admitted {
            return Ok(None);
        }
        let ghost mid = self.state;
        let r = self.process_order(order, OrderOrigin::Outgoing);
        proof {
            assert(order == order_of(user, req_v));
            assert(old(self).ledger().admission_done(user.id, req_v, &mid, true));
        }
        match r {
            Ok(msgs) => Ok(Some(msgs)),
            Err(e) => Err(e),
        }
    }

    /// Removes up to the quantity of `order` from its owner's resting orders
    /// in the matcher and tells every peer to do the same.
    pub fn matcher_deduct_order(&mut self, order: Order) -> (r: Vec<Outgoing>)
        requires
            old(self).wf(),
        ensures
            final(self).wf(),
            old(self).book().order_deducted(order, &final(self).book()),
            final(self).ledger() == old(self).ledger(),
            r@ == seq![Outgoing::Broadcast(OrderUpdate { deduct: true, order })],
    {
        let copy = order.duplicate();
        self.matcher.deduct_order(copy);
        broadcast_deduct_order(order)
    }

    /// A client of account `user` cancels up to the quantity of `req`: the
    /// reservation is reduced, then the matcher and the peers' books by what
    /// was actually cancelled, which is returned.
    pub fn cancel_order(&mut self, user: UserID, req: OrderReq) -> (r: Result<(u64, Vec<Outgoing>), LedgerError>)
        requires
            old(self).wf(),
        ensures
            final(self).wf(),
            !old(self).ledger().is_local_account(user) ==> r == Err::<(u64, Vec<Outgoing>), LedgerError>(
                LedgerError::UnknownAccount,
            ) && *final(self) == *old(self),
            old(self).ledger().is_local_account(user) ==> r is Ok,
            match r {
                Ok((d, msgs)) => {
                    let o = order_of(user, OrderReq { order_type: req.order_type, ticker: req.ticker, price: req.price, quantity: d });
                    &&& old(self).ledger().cancel_done(user.id, req, &final(self).ledger(), d)
                    &&& old(self).book().order_deducted(o, &final(self).book())
                    &&& msgs@ == seq![Outgoing::Broadcast(OrderUpdate { deduct: true, order: o })]
                },
                Err(_) => true,
            },
    {
        if user.node_id != self.state.get_id() {
            return Err(LedgerError::UnknownAccount);
        }
        match self.state.get_accounts().get(user.id) {
            Some(_) => {},
            None => {
                return Err(LedgerError::UnknownAccount);
            },
        }
        let order_type = req.order_type;
        let ticker = req.ticker.clone();
        let price = req.price;
        let d = match self.state.deduct_order(user.id, req) {
            Ok(d) => d,
            Err(e) => {
                return Err(e);
            },
        };
        let order = Order { order_type, ticker, user_id: user, quantity: d, price };
        let msgs = self.matcher_deduct_order(order);
        Ok((d, msgs))
    }

    /// An order update from a peer: a deduction is applied to this node's
    /// book; an addition runs through the matcher like any order.
    pub fn receive_order_update(&mut self, update: OrderUpdate) -> (r: Result<Vec<Outgoing>, LedgerError>)
        requires
            old(self).wf(),
        ensures
            final(self).wf(),
            update.deduct ==> old(self).book().order_deducted(update.order, &final(self).book())
                && final(self).ledger() == old(self).ledger() && (r matches Ok(v) && v@.len() == 0),
            !update.deduct ==> order_run(
                old(self).book(),
                old(self).ledger(),
                update.order,
                OrderOrigin::Incoming,
                final(self).book(),
                final(self).ledger(),
                seq_result(r),
            ),
    {
        if update.deduct {
            self.matcher.deduct_order(update.order);
            Ok(Vec::new())
        } else {
            self.process_order(update.order, OrderOrigin::Incoming)
        }
    }

    /// An offer from node `from`: the local side decides it. If taken, the
    /// consumed part of the local order leaves this node's book and every
    /// other peer's; `from` has already taken it off its own. Returns whether
    /// the offer was taken, and the messages to send.
    pub fn receive_offer(&mut self, from: NodeID, offer: Offer) -> (r: Result<(bool, Vec<Outgoing>), LedgerError>)
        requires
            old(self).wf(),
        ensures
            final(self).wf(),
            match r {
                Ok((true, msgs)) => exists|o: Order|
                    #[trigger] old(self).ledger().offer_done(offer.trade, &final(self).ledger(), o)
                        && old(self).book().order_deducted(o, &final(self).book())
                        && msgs@ == seq![Outgoing::BroadcastExcept(from, OrderUpdate { deduct: true, order: o })],
                Ok((false, msgs)) => msgs@.len() == 0 && old(self).ledger().same_as(&final(self).ledger())
                    && final(self).book() == old(self).book()
                    && !old(self).ledger().account(old(self).ledger().offer_account(offer.trade)).unwrap().accepts(offer.trade),
                Err(e) => old(self).ledger().same_as(&final(self).ledger()) && final(self).book() == old(self).book(),
            },
            (offer.trade.buyer_id.node_id == old(self).ledger().node() || offer.trade.seller_id.node_id
                == old(self).ledger().node()) && old(self).ledger().account(old(self).ledger().offer_account(offer.trade)) is Some
                && old(self).ledger().account(old(self).ledger().offer_account(offer.trade)).unwrap().one_side(offer.trade)
                ==> r is Ok,
    {
        let ghost t = offer.trade;
        match self.state.receive_offer(offer.trade) {
            Ok(Some(o)) => {
                let copy = o.duplicate();
                self.matcher.deduct_order(copy);
                let mut msgs: Vec<Outgoing> = Vec::new();
                let ghost ov = o;
                msgs.push(Outgoing::BroadcastExcept(from, OrderUpdate { deduct: true, order: o }));
                proof {
                    assert(old(self).ledger().offer_done(t, &self.ledger(), ov));
                }
                Ok((true, msgs))
            },
            Ok(None) => Ok((false, Vec::new())),
            Err(e) => Err(e),
        }
    }

    /// The answer to an offer this node made: an acceptance commits the
    /// pending trade; a rejection aborts it and resubmits the restored order.
    pub fn receive_reply(&mut self, trade_id: TradeID, accepted: bool) -> (r: Result<Vec<Outgoing>, LedgerError>)
        requires
            old(self).wf(),
            old(self).ledger().owners().contains_key(trade_id),
        ensures
            final(self).wf(),
            accepted ==> (r is Ok <==> old(self).ledger().can_commit_trade(trade_id)),
            accepted ==> match r {
                Ok(msgs) => msgs@.len() == 0 && old(self).ledger().commit_done(trade_id, &final(self).ledger())
                    && final(self).book() == old(self).book(),
                Err(e) => e == old(self).ledger().resolve_error(trade_id) && old(self).ledger().same_as(
                    &final(self).ledger(),
                ) && final(self).book() == old(self).book(),
            },
            !accepted && old(self).ledger().can_abort_trade(trade_id) ==> exists|mid: State, o: Order|
                #[trigger] old(self).ledger().abort_done(trade_id, &mid, o) && order_run(
                    old(self).book(),
                    mid,
                    o,
                    origin_of(mid.node(), o),
                    final(self).book(),
                    final(self).ledger(),
                    seq_result(r),
                ),
            !accepted && !old(self).ledger().can_abort_trade(trade_id) ==> r == Err::<Vec<Outgoing>, LedgerError>(
                old(self).ledger().resolve_error(trade_id),
            ) && old(self).ledger().same_as(&final(self).ledger()) && final(self).book() == old(self).book(),
    {
        if accepted {
            match self.state.commit_pending(trade_id) {
                Ok(()) => Ok(Vec::new()),
                Err(e) => Err(e),
            }
        } else {
            let o = match self.state.abort_pending(trade_id) {
                Ok(o) => o,
                Err(e) => {
                    return Err(e);
                },
            };
            let ghost mid = self.state;
            let ghost ov = o;
            let r = self.add_order_to_matcher_and_process(o);
            proof {
                assert(old(self).ledger().abort_done(trade_id, &mid, ov));
            }
            r
        }
    }
}

/// The deduction broadcasts for `consumed`, in order.
fn deduct_broadcasts(consumed: &Vec<Order>) -> (r: Vec<Outgoing>)
    ensures
        r@ == deduct_msgs(consumed@),
{
    let mut msgs: Vec<Outgoing> = Vec::new();
    let mut i: usize = 0;
    while i < consumed.len()
        invariant
            i <= consumed@.len(),
            msgs@ == deduct_msgs(consumed@.take(i as int)),
        decreases consumed@.len() - i,
    {
        let c = consumed[i].duplicate();
        msgs.push(Outgoing::Broadcast(OrderUpdate { deduct: true, order: c }));
        proof {
            assert(consumed@.take(i + 1) =~= consumed@.take(i as int).push(consumed@[i as int]));
            assert(deduct_msgs(consumed@.take(i + 1)) =~= deduct_msgs(consumed@.take(i as int)).push(
                Outgoing::Broadcast(OrderUpdate { deduct: true, order: consumed@[i as int] })));
        }
        i = i + 1;
    }
    proof {
        assert(consumed@.take(i as int) =~= consumed@);
    }
    msgs
}

/// Appends an offer message for each of `offers`, in order.
fn append_offers(msgs: &mut Vec<Outgoing>, offers: &Vec<(NodeID, Offer)>)
    ensures
        final(msgs)@ == old(msgs)@ + offer_msgs(offers@),
{
    let mut k: usize = 0;
    while k < offers.len()
        invariant
            k <= offers@.len(),
            msgs@ == old(msgs)@ + offer_msgs(offers@.take(k as int)),
        decreases offers@.len() - k,
    {
        let node = offers[k].0;
        let offer = Offer { id: offers[k].1.id, trade: offers[k].1.trade.duplicate() };
        msgs.push(Outgoing::SendOffer(node, offer));
        proof {
            assert(offers@.take(k + 1) =~= offers@.take(k as int).push(offers@[k as int]));
            assert(offer_msgs(offers@.take(k + 1)) =~= offer_msgs(offers@.take(k as int)).push(
                Outgoing::SendOffer(offers@[k as int].0, offers@[k as int].1)));
            assert(old(msgs)@ + offer_msgs(offers@.take(k + 1)) =~= (old(msgs)@ + offer_msgs(
                offers@.take(k as int))).push(Outgoing::SendOffer(offers@[k as int].0, offers@[k as int].1)));
        }
        k = k + 1;
    }
    proof {
        assert(offers@.take(k as int) =~= offers@);
    }
}

/// The message that tells every peer to deduct `order` from its book.
pub fn broadcast_deduct_order(order: Order) -> (r: Vec<Outgoing>)
    ensures
        r@ == seq![Outgoing::Broadcast(OrderUpdate { deduct: true, order })],
{
    let mut msgs: Vec<Outgoing> = Vec::new();
    msgs.push(Outgoing::Broadcast(OrderUpdate { deduct: true, order }));
    msgs
}

} // verus!
