use exchange::account::{Account, LedgerError, NotEmpty};
use exchange::exchange::{Exchange, OrderUpdate, Outgoing};
use exchange::matcher::{Matcher, Resting};
use exchange::state::State;
use exchange::types::{Order, OrderReq, OrderType, UserID};

fn user(node_id: usize, id: usize) -> UserID {
    UserID { id, node_id }
}

fn order(order_type: OrderType, ticker: &str, owner: UserID, quantity: u64, price: u64) -> Order {
    Order { order_type, ticker: ticker.to_string(), user_id: owner, quantity, price }
}

fn req(order_type: OrderType, ticker: &str, quantity: u64, price: u64) -> OrderReq {
    OrderReq { order_type, ticker: ticker.to_string(), price, quantity }
}

fn held(a: &Account, ticker: &str) -> u64 {
    a.get_portfolio().iter().filter(|(t, _)| t == ticker).map(|(_, q)| *q).sum()
}

fn reserved(a: &Account, side: OrderType, ticker: &str, price: u64) -> u64 {
    a.get_reservations(side)
        .iter()
        .filter(|((t, p), _)| t == ticker && *p == price)
        .map(|(_, q)| *q)
        .sum()
}

fn account(ex: &Exchange, id: usize) -> &Account {
    ex.state().get_accounts().get(id).unwrap()
}

#[test]
fn price_time_priority_fills_earlier_order_first() {
    let mut m = Matcher::new(0);
    let a = user(0, 0);
    let b = user(0, 1);
    let c = user(0, 2);
    m.add_order(order(OrderType::Sell, "ACME", a, 5, 10));
    m.add_order(order(OrderType::Sell, "ACME", b, 5, 10));
    let (rest, trades, consumed) = m.add_order(order(OrderType::Buy, "ACME", c, 6, 12));
    assert_eq!(rest.quantity, 0);
    assert_eq!(trades.len(), 2);
    assert_eq!((trades[0].seller_id, trades[0].quantity, trades[0].price), (a, 5, 10));
    assert_eq!((trades[1].seller_id, trades[1].quantity, trades[1].price), (b, 1, 10));
    assert_eq!(trades[0].buy_price, 12);
    assert_eq!(consumed.len(), 2);
    assert_eq!(consumed[1], order(OrderType::Sell, "ACME", b, 1, 10));
    let sells = m.resting(OrderType::Sell);
    assert_eq!(sells.len(), 1);
    assert_eq!(sells[0], Resting { ticker: "ACME".to_string(), price: 10, user_id: b, quantity: 4 });
}

#[test]
fn better_price_beats_earlier_order() {
    let mut m = Matcher::new(0);
    m.add_order(order(OrderType::Buy, "ACME", user(0, 0), 5, 9));
    m.add_order(order(OrderType::Buy, "ACME", user(0, 1), 5, 11));
    let (rest, trades, _) = m.add_order(order(OrderType::Sell, "ACME", user(0, 2), 7, 8));
    assert_eq!(rest.quantity, 0);
    assert_eq!((trades[0].buyer_id, trades[0].quantity, trades[0].price), (user(0, 1), 5, 11));
    assert_eq!((trades[1].buyer_id, trades[1].quantity, trades[1].price), (user(0, 0), 2, 9));
}

#[test]
fn two_remote_orders_are_not_matched_here() {
    let mut m = Matcher::new(0);
    m.add_order(order(OrderType::Sell, "ACME", user(1, 0), 5, 10));
    let (rest, trades, consumed) = m.add_order(order(OrderType::Buy, "ACME", user(2, 0), 5, 10));
    assert!(trades.is_empty());
    assert!(consumed.is_empty());
    assert_eq!(rest.quantity, 5);
    assert_eq!(m.resting(OrderType::Buy).len(), 1);
}

#[test]
fn limit_that_does_not_cross_rests() {
    let mut m = Matcher::new(0);
    m.add_order(order(OrderType::Sell, "ACME", user(0, 0), 5, 10));
    let (rest, trades, _) = m.add_order(order(OrderType::Buy, "ACME", user(0, 1), 5, 9));
    assert!(trades.is_empty());
    assert_eq!(rest.quantity, 5);
    let (_, trades, _) = m.add_order(order(OrderType::Buy, "OTHER", user(0, 1), 5, 20));
    assert!(trades.is_empty());
}

#[test]
fn single_node_trade_settles_at_resting_price() {
    let mut st = State::new(0);
    let a = st.create_account();
    let b = st.create_account();
    assert_eq!(st.set_balance(a, 10000), Ok(true));
    assert_eq!(st.add_stock(b, "Intel".to_string(), 1000), Ok(true));
    let mut ex = Exchange::new(st);
    let msgs = ex.submit_order(user(0, a), req(OrderType::Buy, "Intel", 50, 15)).unwrap().unwrap();
    assert_eq!(msgs.len(), 1);
    let msgs = ex.submit_order(user(0, b), req(OrderType::Sell, "Intel", 100, 12)).unwrap().unwrap();
    assert_eq!(
        msgs,
        vec![
            Outgoing::Broadcast(OrderUpdate { deduct: true, order: order(OrderType::Buy, "Intel", user(0, a), 50, 15) }),
            Outgoing::Broadcast(OrderUpdate { deduct: false, order: order(OrderType::Sell, "Intel", user(0, b), 50, 12) }),
        ]
    );
    let acc_a = account(&ex, a);
    assert_eq!(held(acc_a, "Intel"), 50);
    assert_eq!(acc_a.get_balance(), 10000 - 50 * 15);
    assert_eq!(reserved(acc_a, OrderType::Buy, "Intel", 15), 0);
    let acc_b = account(&ex, b);
    assert_eq!(held(acc_b, "Intel"), 950);
    assert_eq!(acc_b.get_balance(), 50 * 15);
    assert_eq!(reserved(acc_b, OrderType::Sell, "Intel", 12), 50);
    let sells = ex.matcher().resting(OrderType::Sell);
    assert_eq!(sells.len(), 1);
    assert_eq!(sells[0].quantity, 50);
    assert_eq!(sells[0].user_id, user(0, b));
    assert!(ex.matcher().resting(OrderType::Buy).is_empty());
}

#[test]
fn admission_refuses_without_capacity() {
    let mut st = State::new(0);
    let a = st.create_account();
    assert_eq!(st.set_balance(a, 100), Ok(true));
    let mut ex = Exchange::new(st);
    assert_eq!(ex.submit_order(user(0, a), req(OrderType::Buy, "X", 11, 10)), Ok(None));
    assert!(ex.submit_order(user(0, a), req(OrderType::Buy, "X", 10, 10)).unwrap().is_some());
    assert_eq!(ex.submit_order(user(0, a), req(OrderType::Buy, "X", 1, 1)), Ok(None));
    assert_eq!(ex.submit_order(user(0, a), req(OrderType::Sell, "X", 1, 1)), Ok(None));
    assert_eq!(
        ex.submit_order(user(0, 7), req(OrderType::Buy, "X", 1, 1)),
        Err(LedgerError::UnknownAccount)
    );
    assert_eq!(
        ex.submit_order(user(3, a), req(OrderType::Buy, "X", 1, 1)),
        Err(LedgerError::UnknownAccount)
    );
}

#[test]
fn rejected_offer_restores_and_resubmits() {
    let mut st = State::new(0);
    let a = st.create_account();
    assert_eq!(st.set_balance(a, 1000), Ok(true));
    let mut ex = Exchange::new(st);
    let remote = user(1, 0);
    let msgs = ex
        .receive_order_update(OrderUpdate { deduct: false, order: order(OrderType::Sell, "Intel", remote, 10, 10) })
        .unwrap();
    assert!(msgs.is_empty());
    assert_eq!(ex.matcher().resting(OrderType::Sell).len(), 1);
    let msgs = ex.submit_order(user(0, a), req(OrderType::Buy, "Intel", 10, 10)).unwrap().unwrap();
    assert_eq!(msgs.len(), 1);
    let (node, offer) = match &msgs[0] {
        Outgoing::SendOffer(node, offer) => (*node, offer.clone()),
        other => panic!("unexpected message {:?}", other),
    };
    assert_eq!(node, 1);
    assert_eq!(offer.trade.seller_id, remote);
    assert_eq!(offer.trade.quantity, 10);
    let acc = account(&ex, a);
    assert_eq!(acc.get_balance(), 900);
    assert_eq!(reserved(acc, OrderType::Buy, "Intel", 10), 0);
    assert!(acc.has_pending(offer.id));

    let msgs = ex.receive_reply(offer.id, false).unwrap();
    let acc = account(&ex, a);
    assert_eq!(acc.get_balance(), 1000);
    assert_eq!(reserved(acc, OrderType::Buy, "Intel", 10), 10);
    assert!(!acc.has_pending(offer.id));
    assert_eq!(
        msgs,
        vec![Outgoing::Broadcast(OrderUpdate { deduct: false, order: order(OrderType::Buy, "Intel", user(0, a), 10, 10) })]
    );
    let buys = ex.matcher().resting(OrderType::Buy);
    assert_eq!(buys.len(), 1);
    assert_eq!(buys[0], Resting { ticker: "Intel".to_string(), price: 10, user_id: user(0, a), quantity: 10 });
    assert!(!ex.state().has_pending_trade(offer.id));
}

#[test]
fn accepted_offer_commits_on_both_nodes() {
    let mut seller_node = State::new(1);
    let s = seller_node.create_account();
    assert_eq!(seller_node.add_stock(s, "Intel".to_string(), 30), Ok(true));
    let mut sx = Exchange::new(seller_node);
    let msgs = sx.submit_order(user(1, s), req(OrderType::Sell, "Intel", 20, 10)).unwrap().unwrap();
    let update = match &msgs[0] {
        Outgoing::Broadcast(u) => u.clone(),
        other => panic!("unexpected message {:?}", other),
    };

    let mut buyer_node = State::new(0);
    let b = buyer_node.create_account();
    assert_eq!(buyer_node.set_balance(b, 1000), Ok(true));
    let mut bx = Exchange::new(buyer_node);
    bx.receive_order_update(update).unwrap();
    let msgs = bx.submit_order(user(0, b), req(OrderType::Buy, "Intel", 5, 12)).unwrap().unwrap();
    let offer = match &msgs[0] {
        Outgoing::SendOffer(1, offer) => offer.clone(),
        other => panic!("unexpected message {:?}", other),
    };
    assert_eq!(offer.trade.price, 10);

    let (accepted, msgs) = sx.receive_offer(0, offer.clone()).unwrap();
    assert!(accepted);
    assert_eq!(
        msgs,
        vec![Outgoing::BroadcastExcept(0, OrderUpdate { deduct: true, order: order(OrderType::Sell, "Intel", user(1, s), 5, 10) })]
    );
    let acc_s = account(&sx, s);
    assert_eq!(acc_s.get_balance(), 50);
    assert_eq!(held(acc_s, "Intel"), 25);
    assert_eq!(reserved(acc_s, OrderType::Sell, "Intel", 10), 15);
    assert_eq!(sx.matcher().resting(OrderType::Sell)[0].quantity, 15);

    assert!(bx.receive_reply(offer.id, true).unwrap().is_empty());
    let acc_b = account(&bx, b);
    assert_eq!(acc_b.get_balance(), 950);
    assert_eq!(held(acc_b, "Intel"), 5);
    assert_eq!(reserved(acc_b, OrderType::Buy, "Intel", 12), 0);
    assert!(!acc_b.has_pending(offer.id));
}

#[test]
fn offer_is_rejected_without_reservation() {
    let mut st = State::new(1);
    let s = st.create_account();
    assert_eq!(st.add_stock(s, "Intel".to_string(), 30), Ok(true));
    let mut ex = Exchange::new(st);
    let trade = exchange::types::Trade {
        quantity: 5,
        price: 10,
        ticker: "Intel".to_string(),
        buyer_id: user(0, 0),
        seller_id: user(1, s),
        buy_price: 10,
        sell_price: 10,
    };
    let offer = exchange::state::Offer { id: 3, trade };
    assert_eq!(ex.receive_offer(0, offer).unwrap(), (false, vec![]));
    assert_eq!(held(account(&ex, s), "Intel"), 30);
}

#[test]
fn early_deduction_is_netted_against_later_order() {
    let mut m = Matcher::new(0);
    let r = user(1, 4);
    m.deduct_order(order(OrderType::Sell, "Intel", r, 5, 10));
    assert_eq!(m.get_owed(OrderType::Sell, &"Intel".to_string(), 10, r), 5);
    assert!(m.resting(OrderType::Sell).is_empty());
    let (rest, trades, _) = m.add_order(order(OrderType::Sell, "Intel", r, 8, 10));
    assert!(trades.is_empty());
    assert_eq!(rest.quantity, 3);
    assert_eq!(m.get_owed(OrderType::Sell, &"Intel".to_string(), 10, r), 0);
    assert_eq!(m.resting(OrderType::Sell)[0].quantity, 3);
}

#[test]
fn early_deduction_larger_than_order_leaves_rest_owed() {
    let mut m = Matcher::new(0);
    let r = user(1, 4);
    m.deduct_order(order(OrderType::Buy, "Intel", r, 5, 10));
    let (rest, _, _) = m.add_order(order(OrderType::Buy, "Intel", r, 3, 10));
    assert_eq!(rest.quantity, 0);
    assert!(m.resting(OrderType::Buy).is_empty());
    assert_eq!(m.get_owed(OrderType::Buy, &"Intel".to_string(), 10, r), 2);
}

#[test]
fn deduction_takes_earliest_orders_first() {
    let mut m = Matcher::new(0);
    let a = user(0, 0);
    m.add_order(order(OrderType::Sell, "X", a, 3, 10));
    m.add_order(order(OrderType::Sell, "X", user(0, 1), 3, 10));
    m.add_order(order(OrderType::Sell, "X", a, 4, 10));
    assert_eq!(m.try_deduct_order(order(OrderType::Sell, "X", a, 5, 10)), Ok(()));
    let sells = m.resting(OrderType::Sell);
    assert_eq!(sells.len(), 2);
    assert_eq!((sells[0].user_id, sells[0].quantity), (user(0, 1), 3));
    assert_eq!((sells[1].user_id, sells[1].quantity), (a, 2));
    assert_eq!(m.try_deduct_order(order(OrderType::Sell, "X", a, 5, 10)), Err(3));
    assert_eq!(m.resting(OrderType::Sell).len(), 1);
}

#[test]
fn add_then_deduct_restores_book_and_reservation() {
    let mut m = Matcher::new(0);
    let a = user(0, 0);
    m.add_order(order(OrderType::Sell, "X", user(0, 1), 3, 20));
    let before: Vec<Resting> = m.resting(OrderType::Sell).clone();
    m.add_order(order(OrderType::Sell, "X", a, 4, 25));
    m.deduct_order(order(OrderType::Sell, "X", a, 4, 25));
    assert_eq!(*m.resting(OrderType::Sell), before);
    assert!(m.resting(OrderType::Buy).is_empty());
    assert_eq!(m.get_owed(OrderType::Sell, &"X".to_string(), 25, a), 0);

    let mut st = State::new(0);
    let id = st.create_account();
    assert_eq!(st.add_stock(id, "X".to_string(), 10), Ok(true));
    assert_eq!(st.add_order(id, req(OrderType::Sell, "X", 4, 25)), Ok(true));
    assert_eq!(reserved(st.get_accounts().get(id).unwrap(), OrderType::Sell, "X", 25), 4);
    assert_eq!(st.deduct_order(id, req(OrderType::Sell, "X", 4, 25)), Ok(4));
    let acc = st.get_accounts().get(id).unwrap();
    assert_eq!(reserved(acc, OrderType::Sell, "X", 25), 0);
    assert_eq!(acc.get_sell_order_quantity(&"X".to_string()), 0);
    assert_eq!(held(acc, "X"), 10);
}

#[test]
fn abort_reverses_add_pending_exactly() {
    let mut acc = Account::new(user(0, 0));
    assert!(acc.set_balance(1000));
    assert!(acc.add_order(req(OrderType::Buy, "X", 10, 12)));
    let trade = exchange::types::Trade {
        quantity: 10,
        price: 9,
        ticker: "X".to_string(),
        buyer_id: user(0, 0),
        seller_id: user(1, 0),
        buy_price: 12,
        sell_price: 9,
    };
    assert!(acc.can_add_pending(&trade));
    acc.add_pending(7, trade.clone());
    assert_eq!(acc.get_balance(), 910);
    assert_eq!(reserved(&acc, OrderType::Buy, "X", 12), 0);
    assert!(acc.has_pending(7));
    let restored = acc.abort_pending(7).unwrap();
    assert_eq!(restored, order(OrderType::Buy, "X", user(0, 0), 10, 12));
    assert_eq!(acc.get_balance(), 1000);
    assert_eq!(reserved(&acc, OrderType::Buy, "X", 12), 10);
    assert!(!acc.has_pending(7));
    assert_eq!(acc.abort_pending(7), Err(LedgerError::UnknownTrade));
    assert_eq!(acc.commit_pending(7), Err(LedgerError::UnknownTrade));
}

#[test]
fn seller_side_pending_trade_commits() {
    let mut acc = Account::new(user(0, 0));
    assert!(acc.add_stock("X".to_string(), 8));
    assert!(acc.add_order(req(OrderType::Sell, "X", 8, 5)));
    let trade = exchange::types::Trade {
        quantity: 6,
        price: 7,
        ticker: "X".to_string(),
        buyer_id: user(1, 0),
        seller_id: user(0, 0),
        buy_price: 7,
        sell_price: 5,
    };
    acc.add_pending(1, trade.clone());
    assert_eq!(held(&acc, "X"), 2);
    assert_eq!(reserved(&acc, OrderType::Sell, "X", 5), 2);
    assert_eq!(acc.commit_pending(1), Ok(()));
    assert_eq!(acc.get_balance(), 42);
    assert_eq!(held(&acc, "X"), 2);
    let big = exchange::types::Trade { quantity: 3, ..trade };
    assert!(!acc.can_add_pending(&big));
}

#[test]
fn delete_requires_an_empty_account() {
    let mut acc = Account::new(user(0, 0));
    assert_eq!(acc.delete(), Ok(()));
    assert!(acc.set_balance(5));
    assert_eq!(acc.delete(), Err(NotEmpty::Balance));
    assert!(acc.set_balance(0));
    assert!(acc.add_stock("X".to_string(), 3));
    assert_eq!(acc.delete(), Err(NotEmpty::Portfolio));
    assert!(acc.add_order(req(OrderType::Sell, "X", 3, 1)));
    assert_eq!(acc.deduct_stock("X".to_string(), 3), 3);
    assert_eq!(acc.delete(), Err(NotEmpty::SellOrders));
    assert_eq!(acc.deduct_order(req(OrderType::Sell, "X", 9, 1)), 3);
    assert_eq!(acc.delete(), Ok(()));
    assert!(acc.set_balance(10));
    assert!(acc.add_order(req(OrderType::Buy, "X", 2, 5)));
    assert!(acc.set_balance(10));
    assert!(!acc.set_balance(9));
    assert_eq!(acc.deduct_order(req(OrderType::Buy, "X", 2, 5)), 2);
    assert!(acc.set_balance(0));
    assert!(acc.add_order(req(OrderType::Buy, "Y", 2, 0)));
    assert_eq!(acc.delete(), Err(NotEmpty::BuyOrders));

    let mut st = State::new(0);
    let id = st.create_account();
    assert_eq!(st.set_balance(id, 1), Ok(true));
    assert_eq!(st.delete_account(id), Ok(Err(NotEmpty::Balance)));
    assert_eq!(st.set_balance(id, 0), Ok(true));
    assert_eq!(st.delete_account(id), Ok(Ok(())));
    assert!(st.get_accounts().get(id).is_none());
    assert_eq!(st.delete_account(id), Err(LedgerError::UnknownAccount));
}

#[test]
fn balances_and_holdings_stay_nonnegative_and_covered() {
    let mut acc = Account::new(user(0, 0));
    assert!(acc.set_balance(100));
    assert!(acc.add_order(req(OrderType::Buy, "X", 10, 10)));
    assert_eq!(acc.get_buy_order_amount(), 100);
    assert!(!acc.set_balance(99));
    assert!(!acc.add_order(req(OrderType::Buy, "X", 1, 1)));
    assert!(acc.add_stock("X".to_string(), 4));
    assert!(acc.add_order(req(OrderType::Sell, "X", 4, 50)));
    assert!(!acc.add_order(req(OrderType::Sell, "X", 1, 60)));
    assert_eq!(acc.get_sell_order_quantity(&"X".to_string()), 4);
    assert_eq!(acc.deduct_stock("Y".to_string(), 5), 0);
    assert_eq!(held(&acc, "Y"), 0);
    assert!(!acc.add_stock("X".to_string(), u64::MAX));
}
