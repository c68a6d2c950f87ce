//! The node's ledger: its accounts, and the cross-node trades awaiting an
//! answer. Turns the matcher's trades into settlements and offers.

use vstd::prelude::*;
use crate::account::{Account, LedgerError};
use crate::idmap::{id_map, lemma_id_absent, lemma_id_at, lemma_id_contains, lemma_id_keys, lemma_id_remove, unique_ids};
use crate::account::NotEmpty;
use crate::types::{NodeID, Order, OrderReq, OrderType, Trade, TradeID, UserID};

verus! {

/// A cross-node match proposed to the node of the other side.
#[derive(Clone, Debug, PartialEq, Eq)]
pub struct Offer {
    pub id: TradeID,
    pub trade: Trade,
}

/// The accounts of a node, by number; a deleted account leaves an empty slot.
pub struct Accounts {
    accounts: Vec<Option<Account>>,
}

impl Accounts {
    pub closed spec fn slots(&self) -> Seq<Option<Account>> {
        self.accounts@
    }

    pub fn new() -> (r: Accounts)
        ensures
            r.slots() == Seq::<Option<Account>>::empty(),
    {
        Accounts { accounts: Vec::new() }
    }

    /// The accounts read back from storage, by number.
    pub fn restore(accounts: Vec<Option<Account>>) -> (r: Accounts)
        ensures
            r.slots() == accounts@,
    {
        Accounts { accounts }
    }

    pub fn len(&self) -> (r: usize)
        ensures
            r == self.slots().len(),
    {
        self.accounts.len()
    }

    pub fn get(&self, id: usize) -> (r: Option<&Account>)
        ensures
            r == if id < self.slots().len() { match self.slots()[id as int] {
                Some(a) => Some(&a),
                None => None,
            } } else { None },
    {
        if id < self.accounts.len() {
            match &self.accounts[id] {
                Some(a) => Some(a),
                None => None,
            }
        } else {
            None
        }
    }
}

/// The sequence of values present in `s`, in order.
pub open spec fn somes<T>(s: Seq<Option<T>>) -> Seq<T>
    decreases s.len(),
{
    if s.len() == 0 {
        Seq::empty()
    } else {
        match s.last() {
            Some(x) => somes(s.drop_last()).push(x),
            None => somes(s.drop_last()),
        }
    }
}

pub struct State {
    id: NodeID,
    next_trade_id: usize,
    pending_to_user: Vec<(TradeID, usize)>,
    accounts: Accounts,
}

impl State {
    pub closed spec fn wf(&self) -> bool {
        &&& self.ids_fresh()
        &&& unique_ids(self.pending_to_user@)
        &&& forall|i: int| 0 <= i < self.accounts.slots().len() && (#[trigger] self.accounts.slots()[i]) is Some
            ==> self.accounts.slots()[i].unwrap().wf() && self.accounts.slots()[i].unwrap().user() == (UserID {
            id: i as usize,
            node_id: self.id,
        })
    }

    /// Every pending trade, in the index and in each account, has an
    /// identifier below the next one to be given out.
    pub closed spec fn ids_fresh(&self) -> bool {
        &&& forall|id: TradeID| #[trigger] id_map(self.pending_to_user@).contains_key(id) ==> id < self.next_trade_id
        &&& forall|i: int, id: TradeID|
            0 <= i < self.accounts.slots().len() && self.accounts.slots()[i] is Some
                && #[trigger] self.accounts.slots()[i].unwrap().pending_trades().contains_key(id) ==> id
                < self.next_trade_id
    }

    /// What the ledger's invariant gives its users: slot `i` holds the
    /// account numbered `i` of this node, and no pending trade has an
    /// identifier at or above the next one.
    pub proof fn lemma_wf_facts(&self)
        requires
            self.wf(),
        ensures
            forall|i: int| #[trigger] self.account(i) is Some ==> self.account(i).unwrap().wf()
                && self.account(i).unwrap().user() == (UserID { id: i as usize, node_id: self.node() }),
            forall|id: TradeID| #[trigger] self.owners().contains_key(id) ==> id < self.next_trade(),
            forall|i: int, id: TradeID| self.account(i) is Some && #[trigger] self.account(i).unwrap().pending_trades().contains_key(id)
                ==> id < self.next_trade(),
    {
        assert forall|i: int, id: TradeID| self.account(i) is Some && #[trigger] self.account(i).unwrap().pending_trades().contains_key(id)
            implies id < self.next_trade() by {
            assert(self.accounts.slots()[i].unwrap().pending_trades().contains_key(id));
        }
    }

    proof fn lemma_fresh_kept(&self, before: &State, i: int)
        requires
            before.ids_fresh(),
            self.next_trade_id >= before.next_trade_id,
            forall|id: TradeID| #[trigger] id_map(self.pending_to_user@).contains_key(id) ==> id_map(
                before.pending_to_user@,
            ).contains_key(id),
            self.accounts.slots().len() == before.accounts.slots().len(),
            forall|j: int| 0 <= j < self.accounts.slots().len() && j != i ==> #[trigger] self.accounts.slots()[j]
                == before.accounts.slots()[j],
            0 <= i < self.accounts.slots().len() && self.accounts.slots()[i] is Some ==> before.accounts.slots()[i] is Some
                && forall|id: TradeID| #[trigger] self.accounts.slots()[i].unwrap().pending_trades().contains_key(id)
                ==> before.accounts.slots()[i].unwrap().pending_trades().contains_key(id),
        ensures
            self.ids_fresh(),
    {
        assert forall|j: int, id: TradeID|
            0 <= j < self.accounts.slots().len() && self.accounts.slots()[j] is Some
                && #[trigger] self.accounts.slots()[j].unwrap().pending_trades().contains_key(id) implies id
                < self.next_trade_id by {
            if j != i {
                assert(self.accounts.slots()[j] == before.accounts.slots()[j]);
            } else {
                assert(before.accounts.slots()[j].unwrap().pending_trades().contains_key(id));
            }
        }
    }

    pub closed spec fn node(&self) -> NodeID {
        self.id
    }

    /// The account slots, by number.
    pub closed spec fn slots(&self) -> Seq<Option<Account>> {
        self.accounts.slots()
    }

    /// The identifier the next cross-node trade gets.
    pub closed spec fn next_trade(&self) -> usize {
        self.next_trade_id
    }

    /// The account that holds each pending cross-node trade.
    pub closed spec fn owners(&self) -> Map<TradeID, usize> {
        id_map(self.pending_to_user@)
    }

    /// The account with number `i`, if it exists.
    pub open spec fn account(&self, i: int) -> Option<Account> {
        if 0 <= i < self.slots().len() {
            self.slots()[i]
        } else {
            None
        }
    }

    /// Whether `u` is an existing account of this node.
    pub open spec fn is_local_account(&self, u: UserID) -> bool {
        u.node_id == self.node() && self.account(u.id as int) is Some
    }

    /// Every slot other than `a` and `b` is unchanged, and so is their number.
    pub open spec fn others_same(&self, after: &State, a: int, b: int) -> bool {
        &&& after.slots().len() == self.slots().len()
        &&& forall|i: int| 0 <= i < self.slots().len() && i != a && i != b ==> #[trigger] after.slots()[i] == self.slots()[i]
    }

    /// Whether the account that holds pending trade `trade_id` exists, still
    /// holds it, and can take its deferred side.
    pub open spec fn can_commit_trade(&self, trade_id: TradeID) -> bool {
        let i = self.owners()[trade_id] as int;
        &&& self.owners().contains_key(trade_id)
        &&& self.account(i) is Some
        &&& self.account(i).unwrap().can_commit(trade_id)
    }

    /// Whether the account that holds pending trade `trade_id` exists, still
    /// holds it, and can take it back.
    pub open spec fn can_abort_trade(&self, trade_id: TradeID) -> bool {
        let i = self.owners()[trade_id] as int;
        &&& self.owners().contains_key(trade_id)
        &&& self.account(i) is Some
        &&& self.account(i).unwrap().can_abort(trade_id)
    }

    /// Why pending trade `trade_id` cannot be committed or aborted.
    pub open spec fn resolve_error(&self, trade_id: TradeID) -> LedgerError {
        let i = self.owners()[trade_id] as int;
        if !self.owners().contains_key(trade_id) {
            LedgerError::UnknownTrade
        } else if self.account(i) is None {
            LedgerError::UnknownAccount
        } else if !self.account(i).unwrap().pending_trades().contains_key(trade_id) {
            LedgerError::UnknownTrade
        } else {
            LedgerError::Overflow
        }
    }

    /// Whether every trade of `trades` has a side that is an existing account
    /// of this node, and no side of this node that is not.
    pub fn knows_parties(&self, trades: &Vec<Trade>) -> (r: bool)
        ensures
            r == self.knows_all(trades@),
    {
        let mut k: usize = 0;
        while k < trades.len()
            invariant
                k <= trades@.len(),
                forall|j: int| 0 <= j < k ==> self.parties_known(#[trigger] trades@[j]),
            decreases trades@.len() - k,
        {
            let t = &trades[k];
            let buyer_local = t.buyer_id.node_id == self.id;
            let seller_local = t.seller_id.node_id == self.id;
            let known = if buyer_local && seller_local {
                self.lookup(t.buyer_id.id) && self.lookup(t.seller_id.id)
            } else if buyer_local {
                self.lookup(t.buyer_id.id)
            } else if seller_local {
                self.lookup(t.seller_id.id)
            } else {
                false
            };
            if !known {
                return false;
            }
            k = k + 1;
        }
        true
    }

    /// Whether `trade_id` names a pending cross-node trade of this node.
    pub fn has_pending_trade(&self, trade_id: TradeID) -> (r: bool)
        requires
            self.wf(),
        ensures
            r == self.owners().contains_key(trade_id),
    {
        self.find_owner(trade_id).is_some()
    }

    /// The effect of committing pending trade `trade_id`.
    pub open spec fn commit_done(&self, trade_id: TradeID, after: &State) -> bool {
        let i = self.owners()[trade_id] as int;
        &&& self.owners().contains_key(trade_id)
        &&& after.owners() == self.owners().remove(trade_id)
        &&& self.others_same(after, i, i)
        &&& self.account(i) is Some
        &&& after.account(i) is Some
        &&& self.account(i).unwrap().pending_trades().contains_key(trade_id)
        &&& self.account(i).unwrap().pending_committed(trade_id, &after.account(i).unwrap())
    }

    /// The effect of aborting pending trade `trade_id`, `o` being the order to resubmit.
    pub open spec fn abort_done(&self, trade_id: TradeID, after: &State, o: Order) -> bool {
        let i = self.owners()[trade_id] as int;
        let a0 = self.account(i).unwrap();
        &&& self.owners().contains_key(trade_id)
        &&& after.owners() == self.owners().remove(trade_id)
        &&& self.others_same(after, i, i)
        &&& self.account(i) is Some
        &&& after.account(i) is Some
        &&& a0.pending_trades().contains_key(trade_id)
        &&& a0.pending_aborted(trade_id, &after.account(i).unwrap())
        &&& o == a0.restored_order(a0.pending_trades()[trade_id])
    }

    /// The effect of taking the offer `trade`, `o` being the consumed part of the local order.
    pub open spec fn offer_done(&self, trade: Trade, after: &State, o: Order) -> bool {
        let i = self.offer_account(trade);
        let a0 = self.account(i).unwrap();
        &&& self.others_same(after, i, i)
        &&& after.account(i) is Some
        &&& a0.accepts(trade)
        &&& a0.offer_taken(trade, &after.account(i).unwrap())
        &&& o == a0.restored_order(trade)
    }

    /// The effect of the admission test of `req` for account `id`.
    pub open spec fn admission_done(&self, id: usize, req: OrderReq, after: &State, admitted: bool) -> bool {
        let a0 = self.account(id as int).unwrap();
        let a1 = after.account(id as int).unwrap();
        &&& self.account(id as int) is Some
        &&& self.others_same(after, id as int, id as int)
        &&& after.account(id as int) is Some
        &&& admitted == (a0.has_capacity(req)
            && a0.reserved(req.order_type, req.ticker@, req.price) + req.quantity <= u64::MAX)
        &&& a0.shifted(&a1, 0, req.ticker@, 0, req.price,
            if admitted && req.order_type == OrderType::Buy { req.quantity as int } else { 0 }, req.price,
            if admitted && req.order_type == OrderType::Sell { req.quantity as int } else { 0 })
    }

    /// The effect of cancelling up to the quantity of `req` from the
    /// reservations of account `id`, `d` being what was cancelled.
    pub open spec fn cancel_done(&self, id: usize, req: OrderReq, after: &State, d: u64) -> bool {
        let a0 = self.account(id as int).unwrap();
        let a1 = after.account(id as int).unwrap();
        let res = a0.reserved(req.order_type, req.ticker@, req.price);
        &&& self.others_same(after, id as int, id as int)
        &&& after.account(id as int) is Some
        &&& d == if res < req.quantity { res } else { req.quantity as int }
        &&& a0.shifted(&a1, 0, req.ticker@, 0, req.price,
            if req.order_type == OrderType::Buy { -d } else { 0 }, req.price,
            if req.order_type == OrderType::Sell { -d } else { 0 })
    }

    /// Every account of the ledger is solvent.
    pub open spec fn all_solvent(&self) -> bool {
        forall|i: int| 0 <= i < self.slots().len() && (#[trigger] self.slots()[i]) is Some ==> self.slots()[i].unwrap().solvent()
    }

    /// Nothing that the ledger's contracts speak of differs.
    pub open spec fn same_as(&self, other: &State) -> bool {
        &&& self.node() == other.node()
        &&& self.slots() == other.slots()
        &&& self.next_trade() == other.next_trade()
        &&& self.owners() == other.owners()
    }

    /// Both sides of `trade` are accounts of this node.
    pub open spec fn both_local(&self, trade: Trade) -> bool {
        trade.buyer_id.node_id == self.node() && trade.seller_id.node_id == self.node()
    }

    /// The number of the account of this node that is a side of `trade`: the
    /// buyer if the buyer is local.
    pub open spec fn local_index(&self, trade: Trade) -> usize {
        if trade.buyer_id.node_id == self.node() {
            trade.buyer_id.id
        } else {
            trade.seller_id.id
        }
    }

    /// The node of the other side of a cross-node `trade`.
    pub open spec fn remote_node(&self, trade: Trade) -> NodeID {
        if trade.buyer_id.node_id == self.node() {
            trade.seller_id.node_id
        } else {
            trade.buyer_id.node_id
        }
    }

    /// Whether `trade` can be processed: settled at once when both sides are
    /// local, made pending on the local side otherwise.
    pub open spec fn can_process(&self, trade: Trade) -> bool {
        if self.both_local(trade) {
            &&& self.account(trade.buyer_id.id as int) is Some
            &&& self.account(trade.seller_id.id as int) is Some
            &&& self.account(trade.buyer_id.id as int).unwrap().can_settle_buy(trade)
            &&& self.account(trade.seller_id.id as int).unwrap().can_settle_sell(trade)
        } else if trade.buyer_id.node_id == self.node() || trade.seller_id.node_id == self.node() {
            let a = self.account(self.local_index(trade) as int);
            &&& a is Some
            &&& self.next_trade() < usize::MAX
            &&& a.unwrap().can_pend(trade)
        } else {
            false
        }
    }

    /// Each side of `trade` that is of this node is an existing account, and
    /// at least one side is.
    pub open spec fn parties_known(&self, trade: Trade) -> bool {
        if self.both_local(trade) {
            self.account(trade.buyer_id.id as int) is Some && self.account(trade.seller_id.id as int) is Some
        } else if trade.buyer_id.node_id == self.node() || trade.seller_id.node_id == self.node() {
            self.account(self.local_index(trade) as int) is Some
        } else {
            false
        }
    }

    /// Every trade of `trades` has known parties.
    pub open spec fn knows_all(&self, trades: Seq<Trade>) -> bool {
        forall|k: int| 0 <= k < trades.len() ==> self.parties_known(#[trigger] trades[k])
    }

    /// Why `trade` cannot be processed.
    pub open spec fn process_error(&self, trade: Trade) -> LedgerError {
        if !(trade.buyer_id.node_id == self.node() || trade.seller_id.node_id == self.node()) {
            LedgerError::NotOwner
        } else if self.both_local(trade) {
            if self.account(trade.buyer_id.id as int) is None || self.account(trade.seller_id.id as int) is None {
                LedgerError::UnknownAccount
            } else {
                LedgerError::Insufficient
            }
        } else if self.account(self.local_index(trade) as int) is None {
            LedgerError::UnknownAccount
        } else if self.next_trade() == usize::MAX {
            LedgerError::Overflow
        } else {
            LedgerError::Insufficient
        }
    }

    /// The effect of processing `trade`, with `out` the offer to send, if any.
    pub open spec fn processed(&self, trade: Trade, after: &State, out: Option<(NodeID, Offer)>) -> bool {
        let q = trade.quantity as int;
        let t = trade.ticker@;
        let b = trade.buyer_id.id as int;
        let s = trade.seller_id.id as int;
        &&& after.node() == self.node()
        &&& if self.both_local(trade) {
            &&& out is None
            &&& after.next_trade() == self.next_trade()
            &&& after.owners() == self.owners()
            &&& self.others_same(after, b, s)
            &&& after.account(b) is Some
            &&& after.account(s) is Some
            &&& if b == s {
                self.account(b).unwrap().shifted(
                    &after.account(b).unwrap(),
                    0,
                    t,
                    0,
                    trade.buy_price,
                    -q,
                    trade.sell_price,
                    -q,
                )
            } else {
                &&& self.account(b).unwrap().shifted(
                    &after.account(b).unwrap(),
                    -trade.cost(),
                    t,
                    q,
                    trade.buy_price,
                    -q,
                    trade.sell_price,
                    0,
                )
                &&& self.account(s).unwrap().shifted(
                    &after.account(s).unwrap(),
                    trade.cost(),
                    t,
                    -q,
                    trade.buy_price,
                    0,
                    trade.sell_price,
                    -q,
                )
            }
        } else {
            let i = self.local_index(trade) as int;
            let id = self.next_trade();
            &&& out == Some((self.remote_node(trade), Offer { id, trade }))
            &&& after.next_trade() == id + 1
            &&& after.owners() == self.owners().insert(id, i as usize)
            &&& self.others_same(after, i, i)
            &&& after.account(i) is Some
            &&& self.account(i).unwrap().pending_added(id, trade, &after.account(i).unwrap())
        }
    }

    /// `states` and `outs` record processing `trades` one after the other
    /// from this state, each trade succeeding.
    pub open spec fn processed_all(
        &self,
        trades: Seq<Trade>,
        states: Seq<State>,
        outs: Seq<Option<(NodeID, Offer)>>,
    ) -> bool {
        &&& states.len() == trades.len() + 1
        &&& outs.len() == trades.len()
        &&& states[0] == *self
        &&& forall|k: int| 0 <= k < trades.len() ==> #[trigger] states[k].can_process(trades[k])
        &&& forall|k: int| 0 <= k < trades.len() ==> #[trigger] states[k].processed(trades[k], &states[k + 1], outs[k])
    }

    /// Processing `trades` in order from this state succeeds, ends in
    /// `after`, and yields `offers`.
    pub open spec fn matches_done(&self, trades: Seq<Trade>, after: &State, offers: Seq<(NodeID, Offer)>) -> bool {
        exists|states: Seq<State>, outs: Seq<Option<(NodeID, Offer)>>|
            #[trigger] self.processed_all(trades, states, outs) && states.last() == *after && offers == somes(outs)
    }

    /// Processing `trades` in order from this state stops at a trade that
    /// cannot be processed, in state `after`, with error `e`.
    pub open spec fn matches_failed(&self, trades: Seq<Trade>, after: &State, e: LedgerError) -> bool {
        exists|states: Seq<State>, outs: Seq<Option<(NodeID, Offer)>>, k: int|
            #![trigger self.processed_all(trades.take(k), states, outs)]
            0 <= k < trades.len() && self.processed_all(trades.take(k), states, outs) && states.last() == *after
                && !states.last().can_process(trades[k]) && e == states.last().process_error(trades[k])
    }

    pub fn new(id: NodeID) -> (r: State)
        ensures
            r.wf(),
            r.node() == id,
            r.slots() == Seq::<Option<Account>>::empty(),
            r.next_trade() == 0,
            r.owners() == Map::<TradeID, usize>::empty(),
    {
        let r = State { id, next_trade_id: 0, pending_to_user: Vec::new(), accounts: Accounts::new() };
        proof {
            assert(id_map(r.pending_to_user@) =~= Map::<TradeID, usize>::empty());
        }
        r
    }

    /// Rebuilds the ledger from stored values: the node, the next trade
    /// identifier, the index of pending trades, and the accounts by number.
    /// `None` if an account sits in the slot of another number or node, or
    /// if two pending trades share an identifier.
    pub fn restore(
        id: NodeID,
        next_trade_id: usize,
        pending_to_user: Vec<(TradeID, usize)>,
        accounts: Vec<Option<Account>>,
    ) -> (r: Option<State>)
        requires
            forall|i: int| 0 <= i < accounts@.len() && (#[trigger] accounts@[i]) is Some ==> accounts@[i].unwrap().wf(),
        ensures
            r matches Some(st) ==> {
                &&& st.wf()
                &&& st.node() == id
                &&& st.next_trade() == next_trade_id
                &&& st.owners() == id_map(pending_to_user@)
                &&& st.slots() == accounts@
            },
            r is None <==> !unique_ids(pending_to_user@) || (exists|i: int|
                0 <= i < accounts@.len() && (#[trigger] accounts@[i]) is Some && accounts@[i].unwrap().user()
                    != (UserID { id: i as usize, node_id: id })) || (exists|tid: TradeID|
                #[trigger] id_map(pending_to_user@).contains_key(tid) && tid >= next_trade_id) || (exists|i: int, tid: TradeID|
                0 <= i < accounts@.len() && accounts@[i] is Some
                    && #[trigger] accounts@[i].unwrap().pending_trades().contains_key(tid) && tid >= next_trade_id),
    {
        let mut i: usize = 0;
        while i < accounts.len()
            invariant
                i <= accounts@.len(),
                forall|j: int| 0 <= j < accounts@.len() && (#[trigger] accounts@[j]) is Some ==> accounts@[j].unwrap().wf(),
                forall|j: int| 0 <= j < i && (#[trigger] accounts@[j]) is Some ==> accounts@[j].unwrap().user()
                    == (UserID { id: j as usize, node_id: id }),
                forall|j: int, tid: TradeID|
                    0 <= j < i && accounts@[j] is Some && #[trigger] accounts@[j].unwrap().pending_trades().contains_key(tid)
                        ==> tid < next_trade_id,
            decreases accounts@.len() - i,
        {
            match &accounts[i] {
                Some(a) => {
                    let u = a.get_id();
                    if u.id != i || u.node_id != id {
                        proof {
                            assert(accounts@[i as int].unwrap().user() != (UserID { id: i as usize, node_id: id }));
                        }
                        return None;
                    }
                    let pending = a.get_pending();
                    let mut m: usize = 0;
                    while m < pending.len()
                        invariant
                            m <= pending@.len(),
                            forall|x: int| 0 <= x < m ==> pending@[x].0 < next_trade_id,
                            i < accounts@.len(),
                            accounts@[i as int] == Some(*a),
                            id_map(pending@) == a.pending_trades(),
                            forall|j: int| 0 <= j < accounts@.len() && (#[trigger] accounts@[j]) is Some ==> accounts@[j].unwrap().wf(),
                            forall|j: int| 0 <= j <= i && (#[trigger] accounts@[j]) is Some ==> accounts@[j].unwrap().user()
                                == (UserID { id: j as usize, node_id: id }),
                            forall|j: int, tid: TradeID|
                                0 <= j < i && accounts@[j] is Some && #[trigger] accounts@[j].unwrap().pending_trades().contains_key(tid)
                                    ==> tid < next_trade_id,
                        decreases pending@.len() - m,
                    {
                        if pending[m].0 >= next_trade_id {
                            proof {
                                lemma_id_contains(pending@, m as int);
                                assert(accounts@[i as int].unwrap().pending_trades().contains_key(pending@[m as int].0));
                            }
                            return None;
                        }
                        m = m + 1;
                    }
                    proof {
                        assert forall|tid: TradeID| #[trigger] a.pending_trades().contains_key(tid) implies tid < next_trade_id by {
                            lemma_id_keys(pending@, tid);
                        }
                    }
                },
                None => {},
            }
            i = i + 1;
        }
        let mut x: usize = 0;
        while x < pending_to_user.len()
            invariant
                x <= pending_to_user@.len(),
                forall|y: int| 0 <= y < x ==> pending_to_user@[y].0 < next_trade_id,
            decreases pending_to_user@.len() - x,
        {
            if pending_to_user[x].0 >= next_trade_id {
                proof {
                    assert(id_map(pending_to_user@).contains_key(pending_to_user@[x as int].0)) by {
                        lemma_id_contains(pending_to_user@, x as int);
                    }
                }
                return None;
            }
            x = x + 1;
        }
        proof {
            assert forall|tid: TradeID| #[trigger] id_map(pending_to_user@).contains_key(tid) implies tid < next_trade_id by {
                lemma_id_keys(pending_to_user@, tid);
            }
        }
        let mut j: usize = 0;
        while j < pending_to_user.len()
            invariant
                j <= pending_to_user@.len(),
                forall|x: int, y: int| 0 <= x < y < j ==> pending_to_user@[x].0 != pending_to_user@[y].0,
            decreases pending_to_user@.len() - j,
        {
            let mut m: usize = 0;
            while m < j
                invariant
                    m <= j < pending_to_user@.len(),
                    forall|x: int| 0 <= x < m ==> pending_to_user@[x].0 != pending_to_user@[j as int].0,
                decreases j - m,
            {
                if pending_to_user[m].0 == pending_to_user[j].0 {
                    return None;
                }
                m = m + 1;
            }
            j = j + 1;
        }
        Some(State { id, next_trade_id, pending_to_user, accounts: Accounts::restore(accounts) })
    }

    pub fn get_id(&self) -> (r: NodeID)
        ensures
            r == self.node(),
    {
        self.id
    }

    /// The index of pending trades: each identifier with the number of the
    /// account that holds it.
    pub fn get_pending_index(&self) -> (r: &Vec<(TradeID, usize)>)
        ensures
            id_map(r@) == self.owners(),
    {
        &self.pending_to_user
    }

    pub fn get_next_trade_id(&self) -> (r: usize)
        ensures
            r == self.next_trade(),
    {
        self.next_trade_id
    }

    pub fn get_accounts(&self) -> (r: &Accounts)
        ensures
            r.slots() == self.slots(),
    {
        &self.accounts
    }

    /// Opens a new, empty account and returns its number.
    pub fn create_account(&mut self) -> (r: usize)
        requires
            old(self).wf(),
        ensures
            final(self).wf(),
            r == old(self).slots().len(),
            final(self).slots().len() == old(self).slots().len() + 1,
            final(self).slots().take(r as int) == old(self).slots(),
            final(self).account(r as int) is Some,
            final(self).account(r as int).unwrap().user() == (UserID { id: r, node_id: old(self).node() }),
            final(self).account(r as int).unwrap().cash() == 0,
            forall|t: Seq<char>| #[trigger] final(self).account(r as int).unwrap().held(t) == 0,
            forall|s: OrderType, t: Seq<char>, p: u64| #[trigger] final(self).account(r as int).unwrap().reserved(s, t, p) == 0,
            final(self).account(r as int).unwrap().pending_trades() == Map::<TradeID, Trade>::empty(),
            final(self).account(r as int).unwrap().exposure() == 0,
            forall|t: Seq<char>| #[trigger] final(self).account(r as int).unwrap().sell_total(t) == 0,
            final(self).account(r as int).unwrap().solvent(),
            final(self).node() == old(self).node(),
            final(self).next_trade() == old(self).next_trade(),
            final(self).owners() == old(self).owners(),
    {
        let id = self.accounts.accounts.len();
        let a = Account::new(UserID { id, node_id: self.id });
        self.accounts.accounts.push(Some(a));
        proof {
            assert(self.slots().take(id as int) =~= old(self).slots());
            assert forall|i: int| 0 <= i < self.accounts.slots().len() && (#[trigger] self.accounts.slots()[i]) is Some
                implies self.accounts.slots()[i].unwrap().wf() && self.accounts.slots()[i].unwrap().user() == (UserID {
                id: i as usize,
                node_id: self.id,
            }) by {
                if i < id {
                    assert(self.accounts.slots()[i] == old(self).accounts.slots()[i]);
                }
            }
        }
        id
    }

    /// Removes account `id`, leaving its slot empty; returns it if it existed.
    pub fn remove_account(&mut self, id: usize) -> (r: Option<Account>)
        requires
            old(self).wf(),
        ensures
            final(self).wf(),
            r == old(self).account(id as int),
            final(self).slots() == if id < old(self).slots().len() {
                old(self).slots().update(id as int, None)
            } else {
                old(self).slots()
            },
            final(self).node() == old(self).node(),
            final(self).next_trade() == old(self).next_trade(),
            final(self).owners() == old(self).owners(),
    {
        if id >= self.accounts.accounts.len() {
            return None;
        }
        let mut slot: Option<Account> = None;
        self.accounts.accounts.set_and_swap(id, &mut slot);
        proof {
            assert forall|i: int| 0 <= i < self.accounts.slots().len() && (#[trigger] self.accounts.slots()[i]) is Some
                implies self.accounts.slots()[i].unwrap().wf() && self.accounts.slots()[i].unwrap().user() == (UserID {
                id: i as usize,
                node_id: self.id,
            }) by {
                assert(self.accounts.slots()[i] == old(self).accounts.slots()[i]);
            }
        }
        slot
    }

    /// Takes account `i` out of its slot, to be put back by `put`.
    fn take(&mut self, i: usize) -> (a: Account)
        requires
            old(self).account(i as int) is Some,
        ensures
            a == old(self).account(i as int).unwrap(),
            final(self).slots() == old(self).slots().update(i as int, None),
            final(self).id == old(self).id,
            final(self).next_trade_id == old(self).next_trade_id,
            final(self).pending_to_user == old(self).pending_to_user,
    {
        let mut slot: Option<Account> = None;
        self.accounts.accounts.set_and_swap(i, &mut slot);
        slot.unwrap()
    }

    fn put(&mut self, i: usize, a: Account)
        requires
            i < old(self).slots().len(),
        ensures
            final(self).slots() == old(self).slots().update(i as int, Some(a)),
            final(self).id == old(self).id,
            final(self).next_trade_id == old(self).next_trade_id,
            final(self).pending_to_user == old(self).pending_to_user,
    {
        self.accounts.accounts.set(i, Some(a));
    }

    fn lookup(&self, i: usize) -> (r: bool)
        ensures
            r == (self.account(i as int) is Some),
    {
        i < self.accounts.accounts.len() && self.accounts.accounts[i].is_some()
    }

    /// Replacing one slot by a well-formed account of the right number keeps
    /// the accounts well-formed.
    proof fn lemma_put_keeps_wf(&self, before: &State, i: int)
        requires
            before.wf(),
            unique_ids(self.pending_to_user@),
            self.id == before.id,
            self.accounts.slots().len() == before.accounts.slots().len(),
            0 <= i < self.accounts.slots().len(),
            self.accounts.slots()[i] is Some,
            self.accounts.slots()[i].unwrap().wf(),
            self.accounts.slots()[i].unwrap().user() == (UserID { id: i as usize, node_id: self.id }),
            forall|j: int| 0 <= j < self.accounts.slots().len() && j != i ==> #[trigger] self.accounts.slots()[j]
                == before.accounts.slots()[j],
            self.next_trade_id == before.next_trade_id,
            forall|id: TradeID| #[trigger] id_map(self.pending_to_user@).contains_key(id) ==> id_map(
                before.pending_to_user@,
            ).contains_key(id),
            before.accounts.slots()[i] is Some,
            forall|id: TradeID| #[trigger] self.accounts.slots()[i].unwrap().pending_trades().contains_key(id)
                ==> before.accounts.slots()[i].unwrap().pending_trades().contains_key(id),
        ensures
            self.wf(),
    {
        self.lemma_fresh_kept(before, i);
        assert forall|j: int| 0 <= j < self.accounts.slots().len() && (#[trigger] self.accounts.slots()[j]) is Some
            implies self.accounts.slots()[j].unwrap().wf() && self.accounts.slots()[j].unwrap().user() == (UserID {
            id: j as usize,
            node_id: self.id,
        }) by {
            if j != i {
                assert(self.accounts.slots()[j] == before.accounts.slots()[j]);
            }
        }
    }

    /// Position in the index of pending trades of `trade_id`, if it is there.
    fn find_owner(&self, trade_id: TradeID) -> (r: Option<usize>)
        requires
            self.wf(),
        ensures
            match r {
                Some(k) => k < self.pending_to_user@.len() && self.pending_to_user@[k as int].0 == trade_id
                    && self.owners().contains_key(trade_id) && self.owners()[trade_id]
                    == self.pending_to_user@[k as int].1,
                None => !self.owners().contains_key(trade_id),
            },
    {
        let mut k: usize = 0;
        while k < self.pending_to_user.len()
            invariant
                self.wf(),
                k <= self.pending_to_user@.len(),
                forall|j: int| 0 <= j < k ==> self.pending_to_user@[j].0 != trade_id,
            decreases self.pending_to_user@.len() - k,
        {
            if self.pending_to_user[k].0 == trade_id {
                proof {
                    lemma_id_at(self.pending_to_user@, k as int);
                }
                return Some(k);
            }
            k = k + 1;
        }
        proof {
            lemma_id_absent(self.pending_to_user@, trade_id);
        }
        None
    }

    /// Processes one trade from the matcher: settles it at once when both
    /// sides are accounts of this node; otherwise makes it pending on the
    /// local side under a fresh identifier and returns the offer to send to
    /// the other side's node.
    pub fn process_match(&mut self, trade: Trade) -> (r: Result<Option<(NodeID, Offer)>, LedgerError>)
        requires
            old(self).wf(),
        ensures
            final(self).wf(),
            final(self).node() == old(self).node(),
            final(self).slots().len() == old(self).slots().len(),
            forall|i: int| #[trigger] old(self).account(i) is Some ==> final(self).account(i) is Some,
            r is Ok <==> old(self).can_process(trade),
            match r {
                Ok(out) => old(self).processed(trade, final(self), out),
                Err(e) => e == old(self).process_error(trade) && *final(self) == *old(self),
            },
    {
        let node = self.id;
        let buyer_local = trade.buyer_id.node_id == node;
        let seller_local = trade.seller_id.node_id == node;
        if !buyer_local && !seller_local {
            return Err(LedgerError::NotOwner);
        }
        if buyer_local && seller_local {
            let b = trade.buyer_id.id;
            let s = trade.seller_id.id;
            if !self.lookup(b) || !self.lookup(s) {
                return Err(LedgerError::UnknownAccount);
            }
            let ok_b = match self.accounts.get(b) {
                Some(a) => a.check_settle_buy(&trade),
                None => false,
            };
            let ok_s = match self.accounts.get(s) {
                Some(a) => a.check_settle_sell(&trade),
                None => false,
            };
            if !ok_b || !ok_s {
                return Err(LedgerError::Insufficient);
            }
            let ghost a0b = self.account(b as int).unwrap();
            let ghost a0s = self.account(s as int).unwrap();
            let mut ab = self.take(b);
            ab.settle_buy(&trade);
            let ghost a1b = ab;
            self.put(b, ab);
            let mut a_s = self.take(s);
            proof {
                if b == s {
                    a0b.lemma_wf_nonneg();
                    assert(a_s == a1b);
                    assert(a_s.held(trade.ticker@) == a0b.held(trade.ticker@) + trade.quantity);
                    assert(a_s.reserved(crate::types::OrderType::Sell, trade.ticker@, trade.sell_price)
                        == a0b.reserved(crate::types::OrderType::Sell, trade.ticker@, trade.sell_price));
                } else {
                    assert(a_s == a0s);
                }
            }
            a_s.settle_sell(&trade);
            let ghost a2s = a_s;
            self.put(s, a_s);
            proof {
                let q = trade.quantity as int;
                if b == s {
                    a0b.lemma_shift_compose(&a1b, &a2s, trade.ticker@, trade.buy_price, trade.sell_price,
                        -trade.cost(), q, -q, 0, trade.cost(), -q, 0, -q);
                    assert(self.account(b as int).unwrap() == a2s);
                } else {
                    assert(self.account(b as int).unwrap() == a1b);
                    assert(self.account(s as int).unwrap() == a2s);
                }
                assert forall|i: int| 0 <= i < self.accounts.slots().len() && (#[trigger] self.accounts.slots()[i]) is Some
                    implies self.accounts.slots()[i].unwrap().wf() && self.accounts.slots()[i].unwrap().user() == (UserID {
                    id: i as usize,
                    node_id: self.id,
                }) by {
                    if i != b && i != s {
                        assert(self.accounts.slots()[i] == old(self).accounts.slots()[i]);
                    }
                }
                assert(old(self).others_same(self, b as int, s as int));
            }
            Ok(None)
        } else {
            let i = if buyer_local { trade.buyer_id.id } else { trade.seller_id.id };
            if !self.lookup(i) {
                return Err(LedgerError::UnknownAccount);
            }
            if self.next_trade_id == usize::MAX {
                return Err(LedgerError::Overflow);
            }
            let id = self.next_trade_id;
            let ok = match self.accounts.get(i) {
                Some(a) => a.can_add_pending(&trade),
                None => false,
            };
            if !ok {
                return Err(LedgerError::Insufficient);
            }
            let remote = if buyer_local { trade.seller_id.node_id } else { trade.buyer_id.node_id };
            let offer_trade = trade.duplicate();
            let ghost a0 = self.account(i as int).unwrap();
            proof {
                self.lemma_wf_facts();
                assert(!a0.pending_trades().contains_key(id));
            }
            let mut a = self.take(i);
            a.add_pending(id, trade);
            let ghost a1 = a;
            self.put(i, a);
            let ghost index0 = self.pending_to_user@;
            self.pending_to_user.push((id, i));
            self.next_trade_id = id + 1;
            proof {
                assert(self.pending_to_user@.drop_last() =~= index0);
                assert(self.account(i as int).unwrap() == a1);
                assert forall|k: int| 0 <= k < self.accounts.slots().len() && (#[trigger] self.accounts.slots()[k]) is Some
                    implies self.accounts.slots()[k].unwrap().wf() && self.accounts.slots()[k].unwrap().user() == (UserID {
                    id: k as usize,
                    node_id: self.id,
                }) by {
                    if k != i {
                        assert(self.accounts.slots()[k] == old(self).accounts.slots()[k]);
                    }
                }
                assert(forall|j: int| 0 <= j < index0.len() ==> index0[j].0 != id) by {
                    if exists|j: int| 0 <= j < index0.len() && index0[j].0 == id {
                        let j = choose|j: int| 0 <= j < index0.len() && index0[j].0 == id;
                        lemma_id_at(index0, j);
                    }
                }
                assert(old(self).others_same(self, i as int, i as int));
                assert forall|k: int, tid: TradeID|
                    0 <= k < self.accounts.slots().len() && self.accounts.slots()[k] is Some
                        && #[trigger] self.accounts.slots()[k].unwrap().pending_trades().contains_key(tid) implies tid
                        < self.next_trade_id by {
                    if k != i {
                        assert(self.accounts.slots()[k] == old(self).accounts.slots()[k]);
                        assert(old(self).accounts.slots()[k].unwrap().pending_trades().contains_key(tid));
                    } else if tid != id {
                        assert(a0.pending_trades().contains_key(tid));
                        assert(old(self).accounts.slots()[k].unwrap().pending_trades().contains_key(tid));
                    }
                }
                assert forall|tid: TradeID| #[trigger] id_map(self.pending_to_user@).contains_key(tid) implies tid
                    < self.next_trade_id by {
                    if tid != id {
                        assert(id_map(index0).contains_key(tid));
                    }
                }
            }
            Ok(Some((remote, Offer { id, trade: offer_trade })))
        }
    }

    /// Processes the trades of one matcher run in order. Every trade must have
    /// a side that is an existing account of this node; anything else is a
    /// consistency fault for the caller to catch first. Stops at the first
    /// trade that cannot be settled or made pending and returns its error;
    /// otherwise returns the offers to send.
    pub fn process_matches(&mut self, matches: Vec<Trade>) -> (r: Result<Vec<(NodeID, Offer)>, LedgerError>)
        requires
            old(self).wf(),
            old(self).knows_all(matches@),
        ensures
            final(self).wf(),
            final(self).node() == old(self).node(),
            match r {
                Ok(offers) => old(self).matches_done(matches@, final(self), offers@),
                Err(e) => old(self).matches_failed(matches@, final(self), e),
            },
    {
        let ghost mut states: Seq<State> = seq![*self];
        let ghost mut outs: Seq<Option<(NodeID, Offer)>> = Seq::empty();
        let mut offers: Vec<(NodeID, Offer)> = Vec::new();
        let mut k: usize = 0;
        proof {
            assert(outs =~= Seq::<Option<(NodeID, Offer)>>::empty());
            assert(somes(outs) =~= offers@);
        }
        while k < matches.len()
            invariant
                self.wf(),
                self.node() == old(self).node(),
                k <= matches@.len(),
                forall|j: int| 0 <= j < matches@.len() ==> old(self).parties_known(#[trigger] matches@[j]),
                forall|i: int| #[trigger] old(self).account(i) is Some ==> self.account(i) is Some,
                old(self).processed_all(matches@.take(k as int), states, outs),
                states.last() == *self,
                offers@ == somes(outs),
            decreases matches@.len() - k,
        {
            let t = matches[k].duplicate();
            let ghost pre = *self;
            match self.process_match(t) {
                Ok(out) => {
                    proof {
                        let s2 = states.push(*self);
                        let o2 = outs.push(out);
                        assert(matches@.take(k + 1) =~= matches@.take(k as int).push(matches@[k as int]));
                        assert forall|j: int| 0 <= j < k + 1 implies #[trigger] s2[j].can_process(matches@.take(k + 1)[j]) by {
                            if j < k {
                                assert(s2[j] == states[j]);
                                assert(matches@.take(k + 1)[j] == matches@.take(k as int)[j]);
                            }
                        }
                        assert forall|j: int| 0 <= j < k + 1 implies #[trigger] s2[j].processed(matches@.take(k + 1)[j], &s2[j + 1], o2[j]) by {
                            if j < k {
                                assert(s2[j] == states[j]);
                                assert(s2[j + 1] == states[j + 1]);
                                assert(o2[j] == outs[j]);
                                assert(matches@.take(k + 1)[j] == matches@.take(k as int)[j]);
                            }
                        }
                        assert(o2.drop_last() =~= outs);
                        states = s2;
                        outs = o2;
                    }
                    match out {
                        Some(o) => {
                            offers.push(o);
                        },
                        None => {},
                    }
                },
                Err(e) => {
                    proof {
                        assert(old(self).processed_all(matches@.take(k as int), states, outs));
                    }
                    return Err(e);
                },
            }
            k = k + 1;
        }
        proof {
            assert(matches@.take(k as int) =~= matches@);
        }
        Ok(offers)
    }

    /// The remote side accepted pending trade `trade_id`: the deferred side
    /// is applied to the account that holds it, and the trade is resolved.
    pub fn commit_pending(&mut self, trade_id: TradeID) -> (r: Result<(), LedgerError>)
        requires
            old(self).wf(),
            old(self).owners().contains_key(trade_id),
        ensures
            final(self).wf(),
            final(self).node() == old(self).node(),
            final(self).next_trade() == old(self).next_trade(),
            r is Ok <==> old(self).can_commit_trade(trade_id),
            r is Err ==> r == Err::<(), LedgerError>(old(self).resolve_error(trade_id)),
            match r {
                Ok(()) => old(self).commit_done(trade_id, final(self)),
                Err(_) => old(self).same_as(final(self)),
            },
    {
        let k = match self.find_owner(trade_id) {
            Some(k) => k,
            None => {
                return Err(LedgerError::UnknownTrade);
            },
        };
        let i = self.pending_to_user[k].1;
        if !self.lookup(i) {
            return Err(LedgerError::UnknownAccount);
        }
        match self.accounts.get(i) {
            Some(a) => {
                if !a.has_pending(trade_id) {
                    return Err(LedgerError::UnknownTrade);
                }
            },
            None => {},
        }
        let ghost index0 = self.pending_to_user@;
        let mut a = self.take(i);
        match a.commit_pending(trade_id) {
            Ok(()) => {},
            Err(e) => {
                self.put(i, a);
                proof {
                    assert(self.accounts.slots() =~= old(self).accounts.slots());
                }
                return Err(e);
            },
        }
        let ghost a1 = a;
        self.put(i, a);
        self.pending_to_user.remove(k);
        proof {
            lemma_id_remove(index0, k as int);
            assert(self.account(i as int).unwrap() == a1);
            self.lemma_put_keeps_wf(old(self), i as int);
            assert(old(self).others_same(self, i as int, i as int));
        }
        Ok(())
    }

    /// The remote side rejected pending trade `trade_id`: the account that
    /// holds it gets its debit and reservation back, and the order to
    /// resubmit to the matcher is returned.
    pub fn abort_pending(&mut self, trade_id: TradeID) -> (r: Result<Order, LedgerError>)
        requires
            old(self).wf(),
            old(self).owners().contains_key(trade_id),
        ensures
            final(self).wf(),
            final(self).node() == old(self).node(),
            final(self).next_trade() == old(self).next_trade(),
            r is Ok <==> old(self).can_abort_trade(trade_id),
            r is Err ==> r == Err::<Order, LedgerError>(old(self).resolve_error(trade_id)),
            match r {
                Ok(o) => old(self).abort_done(trade_id, final(self), o),
                Err(_) => old(self).same_as(final(self)),
            },
    {
        let k = match self.find_owner(trade_id) {
            Some(k) => k,
            None => {
                return Err(LedgerError::UnknownTrade);
            },
        };
        let i = self.pending_to_user[k].1;
        if !self.lookup(i) {
            return Err(LedgerError::UnknownAccount);
        }
        match self.accounts.get(i) {
            Some(a) => {
                if !a.has_pending(trade_id) {
                    return Err(LedgerError::UnknownTrade);
                }
            },
            None => {},
        }
        let ghost index0 = self.pending_to_user@;
        let mut a = self.take(i);
        let o = match a.abort_pending(trade_id) {
            Ok(o) => o,
            Err(e) => {
                self.put(i, a);
                proof {
                    assert(self.accounts.slots() =~= old(self).accounts.slots());
                }
                return Err(e);
            },
        };
        let ghost a1 = a;
        self.put(i, a);
        self.pending_to_user.remove(k);
        proof {
            lemma_id_remove(index0, k as int);
            assert(self.account(i as int).unwrap() == a1);
            self.lemma_put_keeps_wf(old(self), i as int);
            assert(old(self).others_same(self, i as int, i as int));
        }
        Ok(o)
    }

    /// The local account that `trade` names: the buyer if it is of this
    /// node, else the seller if it is.
    pub open spec fn offer_account(&self, trade: Trade) -> int {
        if trade.buyer_id.node_id == self.node() {
            trade.buyer_id.id as int
        } else {
            trade.seller_id.id as int
        }
    }

    /// Decides an offer from another node on the side of `trade` that
    /// belongs to this node: takes it, returning the part of the local order
    /// that it consumed, or rejects it with `None`.
    pub fn receive_offer(&mut self, trade: Trade) -> (r: Result<Option<Order>, LedgerError>)
        requires
            old(self).wf(),
        ensures
            final(self).wf(),
            final(self).node() == old(self).node(),
            final(self).next_trade() == old(self).next_trade(),
            final(self).owners() == old(self).owners(),
            trade.buyer_id.node_id != old(self).node() && trade.seller_id.node_id != old(self).node() ==> r
                == Err::<Option<Order>, LedgerError>(LedgerError::NotOwner),
            (trade.buyer_id.node_id == old(self).node() || trade.seller_id.node_id == old(self).node())
                ==> (r is Err <==> old(self).account(old(self).offer_account(trade)) is None
                || !old(self).account(old(self).offer_account(trade)).unwrap().one_side(trade)),
            r is Err ==> old(self).same_as(final(self)),
            match r {
                Ok(None) => old(self).same_as(final(self)) && !old(self).account(old(self).offer_account(trade)).unwrap().accepts(trade),
                Ok(Some(o)) => old(self).offer_done(trade, final(self), o),
                Err(_) => true,
            },
    {
        let node = self.id;
        let i = if trade.buyer_id.node_id == node {
            trade.buyer_id.id
        } else if trade.seller_id.node_id == node {
            trade.seller_id.id
        } else {
            return Err(LedgerError::NotOwner);
        };
        if !self.lookup(i) {
            return Err(LedgerError::UnknownAccount);
        }
        let mut a = self.take(i);
        let r = a.process_incoming_offer(trade);
        let ghost a1 = a;
        self.put(i, a);
        proof {
            assert(self.account(i as int).unwrap() == a1);
            self.lemma_put_keeps_wf(old(self), i as int);
            assert(old(self).others_same(self, i as int, i as int));
            if !(r matches Ok(Some(_))) {
                assert(self.slots() =~= old(self).slots());
            }
        }
        r
    }

    /// Admission of an order of account `id`: reserves its capacity if it has it.
    pub fn add_order(&mut self, id: usize, req: OrderReq) -> (r: Result<bool, LedgerError>)
        requires
            old(self).wf(),
        ensures
            final(self).wf(),
            final(self).node() == old(self).node(),
            final(self).next_trade() == old(self).next_trade(),
            final(self).owners() == old(self).owners(),
            r is Err <==> old(self).account(id as int) is None,
            r is Err ==> r == Err::<bool, LedgerError>(LedgerError::UnknownAccount) && old(self).same_as(final(self)),
            match r {
                Ok(admitted) => old(self).admission_done(id, req, final(self), admitted),
                Err(_) => true,
            },
    {
        if !self.lookup(id) {
            return Err(LedgerError::UnknownAccount);
        }
        let mut a = self.take(id);
        let admitted = a.add_order(req);
        let ghost a1 = a;
        self.put(id, a);
        proof {
            assert(self.account(id as int).unwrap() == a1);
            assert forall|j: int| 0 <= j < self.accounts.slots().len() && (#[trigger] self.accounts.slots()[j]) is Some
                implies self.accounts.slots()[j].unwrap().wf() && self.accounts.slots()[j].unwrap().user() == (UserID {
                id: j as usize,
                node_id: self.id,
            }) by {
                if j != id {
                    assert(self.accounts.slots()[j] == old(self).accounts.slots()[j]);
                }
            }
            assert(old(self).others_same(self, id as int, id as int));
        }
        Ok(admitted)
    }

    /// Cancels up to the quantity of `req` from the reservations of account
    /// `id`; returns how much was cancelled.
    pub fn deduct_order(&mut self, id: usize, req: OrderReq) -> (r: Result<u64, LedgerError>)
        requires
            old(self).wf(),
        ensures
            final(self).wf(),
            final(self).node() == old(self).node(),
            final(self).next_trade() == old(self).next_trade(),
            final(self).owners() == old(self).owners(),
            r is Err <==> old(self).account(id as int) is None,
            r is Err ==> r == Err::<u64, LedgerError>(LedgerError::UnknownAccount) && old(self).same_as(final(self)),
            match r {
                Ok(d) => old(self).cancel_done(id, req, final(self), d),
                Err(_) => true,
            },
    {
        if !self.lookup(id) {
            return Err(LedgerError::UnknownAccount);
        }
        let ghost price = req.price;
        let mut a = self.take(id);
        let d = a.deduct_order(req);
        proof {
            assert(price * (-(d as int)) == -(price * d)) by (nonlinear_arith);
        }
        let ghost a1 = a;
        self.put(id, a);
        proof {
            assert(self.account(id as int).unwrap() == a1);
            assert forall|j: int| 0 <= j < self.accounts.slots().len() && (#[trigger] self.accounts.slots()[j]) is Some
                implies self.accounts.slots()[j].unwrap().wf() && self.accounts.slots()[j].unwrap().user() == (UserID {
                id: j as usize,
                node_id: self.id,
            }) by {
                if j != id {
                    assert(self.accounts.slots()[j] == old(self).accounts.slots()[j]);
                }
            }
            assert(old(self).others_same(self, id as int, id as int));
        }
        Ok(d)
    }

    /// Sets the cash of account `id`, unless its open buy orders reserve more.
    pub fn set_balance(&mut self, id: usize, value: u64) -> (r: Result<bool, LedgerError>)
        requires
            old(self).wf(),
        ensures
            final(self).wf(),
            final(self).node() == old(self).node(),
            final(self).next_trade() == old(self).next_trade(),
            final(self).owners() == old(self).owners(),
            r is Err <==> old(self).account(id as int) is None,
            r is Err ==> r == Err::<bool, LedgerError>(LedgerError::UnknownAccount) && old(self).same_as(final(self)),
            match r {
                Ok(done) => {
                    let a0 = old(self).account(id as int).unwrap();
                    let a1 = final(self).account(id as int).unwrap();
                    &&& old(self).others_same(final(self), id as int, id as int)
                    &&& final(self).account(id as int) is Some
                    &&& done == (value >= a0.exposure())
                    &&& a0.shifted(&a1, if done { value - a0.cash() } else { 0 }, Seq::empty(), 0, 0, 0, 0, 0)
                },
                Err(_) => true,
            },
    {
        if !self.lookup(id) {
            return Err(LedgerError::UnknownAccount);
        }
        let mut a = self.take(id);
        let done = a.set_balance(value);
        let ghost a1 = a;
        self.put(id, a);
        proof {
            assert(self.account(id as int).unwrap() == a1);
            assert forall|j: int| 0 <= j < self.accounts.slots().len() && (#[trigger] self.accounts.slots()[j]) is Some
                implies self.accounts.slots()[j].unwrap().wf() && self.accounts.slots()[j].unwrap().user() == (UserID {
                id: j as usize,
                node_id: self.id,
            }) by {
                if j != id {
                    assert(self.accounts.slots()[j] == old(self).accounts.slots()[j]);
                }
            }
            assert(old(self).others_same(self, id as int, id as int));
        }
        Ok(done)
    }

    /// Adds `q` shares of `t` to account `id`, unless the holding would not
    /// fit in 64 bits.
    pub fn add_stock(&mut self, id: usize, t: String, q: u64) -> (r: Result<bool, LedgerError>)
        requires
            old(self).wf(),
        ensures
            final(self).wf(),
            final(self).node() == old(self).node(),
            final(self).next_trade() == old(self).next_trade(),
            final(self).owners() == old(self).owners(),
            r is Err <==> old(self).account(id as int) is None,
            r is Err ==> r == Err::<bool, LedgerError>(LedgerError::UnknownAccount) && old(self).same_as(final(self)),
            match r {
                Ok(done) => {
                    let a0 = old(self).account(id as int).unwrap();
                    let a1 = final(self).account(id as int).unwrap();
                    &&& old(self).others_same(final(self), id as int, id as int)
                    &&& final(self).account(id as int) is Some
                    &&& done == (a0.held(t@) + q <= u64::MAX)
                    &&& a0.shifted(&a1, 0, t@, if done { q as int } else { 0 }, 0, 0, 0, 0)
                },
                Err(_) => true,
            },
    {
        if !self.lookup(id) {
            return Err(LedgerError::UnknownAccount);
        }
        let mut a = self.take(id);
        let done = a.add_stock(t, q);
        let ghost a1 = a;
        self.put(id, a);
        proof {
            assert(self.account(id as int).unwrap() == a1);
            assert forall|j: int| 0 <= j < self.accounts.slots().len() && (#[trigger] self.accounts.slots()[j]) is Some
                implies self.accounts.slots()[j].unwrap().wf() && self.accounts.slots()[j].unwrap().user() == (UserID {
                id: j as usize,
                node_id: self.id,
            }) by {
                if j != id {
                    assert(self.accounts.slots()[j] == old(self).accounts.slots()[j]);
                }
            }
            assert(old(self).others_same(self, id as int, id as int));
        }
        Ok(done)
    }

    /// Deletes account `id` if it is empty, leaving its slot empty.
    pub fn delete_account(&mut self, id: usize) -> (r: Result<Result<(), NotEmpty>, LedgerError>)
        requires
            old(self).wf(),
        ensures
            final(self).wf(),
            final(self).node() == old(self).node(),
            final(self).next_trade() == old(self).next_trade(),
            final(self).owners() == old(self).owners(),
            r is Err <==> old(self).account(id as int) is None,
            match r {
                Ok(Ok(())) => final(self).slots() == old(self).slots().update(id as int, None)
                    && old(self).account(id as int).unwrap().delete_verdict() == Ok::<(), NotEmpty>(()),
                Ok(Err(e)) => old(self).same_as(final(self)) && old(self).account(id as int).unwrap().delete_verdict()
                    == Err::<(), NotEmpty>(e),
                Err(e) => old(self).same_as(final(self)) && e == LedgerError::UnknownAccount,
            },
    {
        let verdict = match self.accounts.get(id) {
            Some(a) => a.delete(),
            None => {
                return Err(LedgerError::UnknownAccount);
            },
        };
        match verdict {
            Ok(()) => {
                self.remove_account(id);
                Ok(Ok(()))
            },
            Err(e) => Ok(Err(e)),
        }
    }
}

} // verus!
