use exchange::account::{Account, LedgerError};
use exchange::exchange::{broadcast_deduct_order, Exchange, OrderUpdate, Outgoing};
use exchange::matcher::Matcher;
use exchange::placement::AccountNums;
use exchange::request::{Crud, Req, Target};
use exchange::state::State;
use exchange::types::{AllOrders, InvalidUserIDError, Order, OrderReq, OrderType, QuantityPrice, Trade, UserID};

fn user(node_id: usize, id: usize) -> UserID {
    UserID { id, node_id }
}

fn order(order_type: OrderType, ticker: &str, owner: UserID, quantity: u64, price: u64) -> Order {
    Order { order_type, ticker: ticker.to_string(), user_id: owner, quantity, price }
}

fn req(order_type: OrderType, ticker: &str, quantity: u64, price: u64) -> OrderReq {
    OrderReq { order_type, ticker: ticker.to_string(), price, quantity }
}

fn levels(all: &AllOrders, ticker: &str, side: OrderType) -> Vec<(u64, u64)> {
    let (_, bs) = all.0.iter().find(|(t, _)| t == ticker).expect("ticker listed");
    let list: &Vec<QuantityPrice> = match side {
        OrderType::Buy => &bs.buy,
        OrderType::Sell => &bs.sell,
    };
    list.iter().map(|qp| (qp.price, qp.quantity)).collect()
}

#[test]
fn user_id_text_is_node_dot_id() {
    assert_eq!(UserID::from_str("3.14"), Ok(user(3, 14)));
    assert_eq!(UserID::from_str("0.0"), Ok(user(0, 0)));
    assert_eq!(UserID::from_str("+2.7"), Ok(user(2, 7)));
    assert_eq!(UserID::from_str("314"), Err(InvalidUserIDError));
    assert_eq!(UserID::from_str(""), Err(InvalidUserIDError));
    assert_eq!(UserID::from_str(".1"), Err(InvalidUserIDError));
    assert_eq!(UserID::from_str("1."), Err(InvalidUserIDError));
    assert_eq!(UserID::from_str("1.2.3"), Err(InvalidUserIDError));
    assert_eq!(UserID::from_str("a.1"), Err(InvalidUserIDError));
    assert_eq!(UserID::from_str("1.-2"), Err(InvalidUserIDError));
    assert_eq!(UserID::from_str("99999999999999999999999.1"), Err(InvalidUserIDError));
}

#[test]
fn request_types_decode_once() {
    assert_eq!(Req::from_str("C order"), Some(Req { crud: Crud::Create, target: Target::Order }));
    assert_eq!(Req::from_str("R balance"), Some(Req { crud: Crud::Read, target: Target::Balance }));
    assert_eq!(Req::from_str("U balance"), Some(Req { crud: Crud::Update, target: Target::Balance }));
    assert_eq!(Req::from_str("D account"), Some(Req { crud: Crud::Delete, target: Target::Account }));
    assert_eq!(Req::from_str("R market"), Some(Req { crud: Crud::Read, target: Target::Market }));
    assert_eq!(Req::from_str("C stock"), Some(Req { crud: Crud::Create, target: Target::Stock }));
    assert_eq!(Req::from_str("X order"), None);
    assert_eq!(Req::from_str("Corder"), None);
    assert_eq!(Req::from_str("C orders"), None);
    assert_eq!(Req::from_str("C"), None);
    assert_eq!(Req::from_str(""), None);
}

#[test]
fn least_loaded_node_gets_the_account() {
    let mut nums = AccountNums::new(vec![3, 1, 1, 2]);
    assert_eq!(nums.least_loaded(), Some(1));
    nums.set_num(1, 4);
    assert_eq!(nums.least_loaded(), Some(2));
    nums.add_num(0);
    assert_eq!(nums.least_loaded(), Some(4));
    assert_eq!(nums.get_nums(), &vec![3, 4, 1, 2, 0]);
    assert_eq!(AccountNums::new(vec![]).least_loaded(), None);
}

#[test]
fn market_depth_lists_prices_ascending() {
    let mut m = Matcher::new(0);
    m.add_order(order(OrderType::Sell, "A", user(0, 0), 1, 30));
    m.add_order(order(OrderType::Sell, "A", user(0, 0), 2, 10));
    m.add_order(order(OrderType::Sell, "A", user(0, 0), 3, 20));
    m.add_order(order(OrderType::Sell, "A", user(0, 0), 4, 10));
    assert_eq!(levels(&m.get_stats(), "A", OrderType::Sell), vec![(10, 6), (20, 3), (30, 1)]);
}

#[test]
fn market_depth_sums_by_price() {
    let mut m = Matcher::new(0);
    m.add_order(order(OrderType::Sell, "A", user(0, 0), 5, 10));
    m.add_order(order(OrderType::Sell, "A", user(1, 0), 7, 10));
    m.add_order(order(OrderType::Sell, "A", user(0, 1), 2, 11));
    m.add_order(order(OrderType::Buy, "A", user(0, 2), 4, 8));
    m.add_order(order(OrderType::Buy, "B", user(0, 2), 1, 3));
    let stats = m.get_stats();
    assert_eq!(stats.0.len(), 2);
    assert_eq!(levels(&stats, "A", OrderType::Sell), vec![(10, 12), (11, 2)]);
    assert_eq!(levels(&stats, "A", OrderType::Buy), vec![(8, 4)]);
    assert_eq!(levels(&stats, "B", OrderType::Buy), vec![(3, 1)]);
    assert!(levels(&stats, "B", OrderType::Sell).is_empty());
    assert!(Matcher::new(0).get_stats().0.is_empty());
}

#[test]
fn account_orders_list_reservations() {
    let mut acc = Account::new(user(0, 0));
    assert!(acc.set_balance(1000));
    assert!(acc.add_stock("B".to_string(), 9));
    assert!(acc.add_order(req(OrderType::Buy, "A", 3, 10)));
    assert!(acc.add_order(req(OrderType::Buy, "A", 2, 10)));
    assert!(acc.add_order(req(OrderType::Buy, "A", 1, 20)));
    assert!(acc.add_order(req(OrderType::Sell, "B", 4, 30)));
    let orders = acc.get_orders();
    assert_eq!(orders.0.len(), 2);
    assert_eq!(levels(&orders, "A", OrderType::Buy), vec![(10, 5), (20, 1)]);
    assert_eq!(levels(&orders, "B", OrderType::Sell), vec![(30, 4)]);
    assert_eq!(acc.get_buy_order_amount(), 70);
}

#[test]
fn account_restore_adds_up_entries() {
    let trade = Trade {
        quantity: 1,
        price: 2,
        ticker: "A".to_string(),
        buyer_id: user(0, 5),
        seller_id: user(1, 0),
        buy_price: 2,
        sell_price: 2,
    };
    let acc = Account::restore(
        user(0, 5),
        70,
        &vec![("A".to_string(), 3), ("A".to_string(), 4), ("B".to_string(), 1)],
        &vec![("A".to_string(), 10, 2), ("A".to_string(), 10, 1)],
        &vec![("B".to_string(), 5, 1)],
        vec![(4, trade.clone())],
    )
    .unwrap();
    assert_eq!(acc.get_id(), user(0, 5));
    assert_eq!(acc.get_balance(), 70);
    assert_eq!(acc.get_buy_order_amount(), 30);
    assert_eq!(acc.get_sell_order_quantity(&"B".to_string()), 1);
    let mut portfolio = acc.get_portfolio().clone();
    portfolio.sort();
    assert_eq!(portfolio, vec![("A".to_string(), 7), ("B".to_string(), 1)]);
    assert!(acc.has_pending(4));
    assert!(Account::restore(user(0, 5), 0, &vec![], &vec![], &vec![], vec![(4, trade.clone()), (4, trade.clone())]).is_none());
    assert!(Account::restore(user(0, 5), 0, &vec![("A".to_string(), u64::MAX), ("A".to_string(), 1)], &vec![], &vec![], vec![])
        .is_none());

    let good = Account::restore(user(2, 0), 1, &vec![], &vec![], &vec![], vec![]).unwrap();
    let st = State::restore(2, 9, vec![(4, 0)], vec![Some(good)]).unwrap();
    assert_eq!(st.get_id(), 2);
    assert_eq!(st.get_next_trade_id(), 9);
    assert_eq!(st.get_pending_index(), &vec![(4, 0)]);
    let misplaced = Account::restore(user(2, 0), 1, &vec![], &vec![], &vec![], vec![]).unwrap();
    assert!(State::restore(2, 0, vec![], vec![None, Some(misplaced)]).is_none());
    assert!(State::restore(2, 0, vec![(1, 0), (1, 0)], vec![]).is_none());
}

#[test]
fn credit_that_would_overflow_is_refused() {
    let mut acc = Account::new(user(0, 0));
    assert!(acc.add_stock("X".to_string(), 5));
    assert!(acc.add_order(req(OrderType::Sell, "X", 5, 1)));
    let trade = Trade {
        quantity: 5,
        price: 2,
        ticker: "X".to_string(),
        buyer_id: user(1, 0),
        seller_id: user(0, 0),
        buy_price: 2,
        sell_price: 1,
    };
    acc.add_pending(0, trade);
    assert!(acc.set_balance(u64::MAX - 3));
    assert_eq!(acc.commit_pending(0), Err(LedgerError::Overflow));
    assert!(acc.has_pending(0));
    assert!(acc.set_balance(u64::MAX - 10));
    assert_eq!(acc.commit_pending(0), Ok(()));
    assert_eq!(acc.get_balance(), u64::MAX);
}

#[test]
fn incoming_offer_transfers_at_once() {
    let mut acc = Account::new(user(0, 0));
    assert!(acc.set_balance(100));
    assert!(acc.add_order(req(OrderType::Buy, "X", 5, 10)));
    let trade = Trade {
        quantity: 3,
        price: 8,
        ticker: "X".to_string(),
        buyer_id: user(0, 0),
        seller_id: user(1, 1),
        buy_price: 10,
        sell_price: 8,
    };
    let taken = acc.process_incoming_offer(trade.clone()).unwrap();
    assert_eq!(taken, Some(order(OrderType::Buy, "X", user(0, 0), 3, 10)));
    assert_eq!(acc.get_balance(), 76);
    assert_eq!(acc.get_buy_order_amount(), 20);
    assert_eq!(acc.process_incoming_offer(trade.clone()).unwrap(), None);
    assert_eq!(acc.get_balance(), 76);
    let foreign = Trade { buyer_id: user(2, 2), ..trade.clone() };
    assert_eq!(acc.process_incoming_offer(foreign), Err(LedgerError::NotOwner));
    let both = Trade { seller_id: user(0, 0), ..trade };
    assert_eq!(acc.process_incoming_offer(both), Err(LedgerError::NotOwner));
}

#[test]
fn cancel_reduces_reservation_book_and_peers() {
    let mut st = State::new(0);
    let a = st.create_account();
    assert_eq!(st.add_stock(a, "X".to_string(), 10), Ok(true));
    let mut ex = Exchange::new(st);
    ex.submit_order(user(0, a), req(OrderType::Sell, "X", 6, 4)).unwrap().unwrap();
    let (cancelled, msgs) = ex.cancel_order(user(0, a), req(OrderType::Sell, "X", 9, 4)).unwrap();
    assert_eq!(cancelled, 6);
    assert_eq!(
        msgs,
        vec![Outgoing::Broadcast(OrderUpdate { deduct: true, order: order(OrderType::Sell, "X", user(0, a), 6, 4) })]
    );
    assert!(ex.matcher().resting(OrderType::Sell).is_empty());
    assert_eq!(ex.state().get_accounts().get(a).unwrap().get_sell_order_quantity(&"X".to_string()), 0);
    assert_eq!(ex.cancel_order(user(0, 9), req(OrderType::Sell, "X", 1, 4)), Err(LedgerError::UnknownAccount));
    assert_eq!(
        broadcast_deduct_order(order(OrderType::Buy, "Y", user(0, a), 1, 2)),
        vec![Outgoing::Broadcast(OrderUpdate { deduct: true, order: order(OrderType::Buy, "Y", user(0, a), 1, 2) })]
    );
}

#[test]
fn peer_deduction_update_changes_only_the_book() {
    let mut ex = Exchange::new(State::new(0));
    ex.receive_order_update(OrderUpdate { deduct: false, order: order(OrderType::Buy, "X", user(1, 0), 5, 3) })
        .unwrap();
    let msgs = ex
        .receive_order_update(OrderUpdate { deduct: true, order: order(OrderType::Buy, "X", user(1, 0), 2, 3) })
        .unwrap();
    assert!(msgs.is_empty());
    assert_eq!(ex.matcher().resting(OrderType::Buy)[0].quantity, 3);
}

#[test]
fn reservations_never_exceed_cash_or_shares() {
    let mut acc = Account::new(user(0, 0));
    assert!(acc.set_balance(50));
    assert!(acc.add_stock("X".to_string(), 5));
    let attempts = [
        req(OrderType::Buy, "X", 3, 10),
        req(OrderType::Buy, "X", 3, 10),
        req(OrderType::Buy, "X", 2, 10),
        req(OrderType::Sell, "X", 4, 1),
        req(OrderType::Sell, "X", 2, 1),
        req(OrderType::Sell, "X", 1, 2),
    ];
    let admitted: Vec<bool> = attempts.iter().map(|r| acc.add_order(r.clone())).collect();
    assert_eq!(admitted, vec![true, false, true, true, false, true]);
    assert!(acc.get_buy_order_amount() <= acc.get_balance());
    assert!(acc.get_sell_order_quantity(&"X".to_string()) <= 5);
    assert!(!acc.set_balance(49));
}

#[test]
fn new_account_starts_empty_and_trade_ids_are_fresh() {
    let mut st = State::new(3);
    let a = st.create_account();
    let b = st.create_account();
    assert_eq!((a, b), (0, 1));
    let acc = st.get_accounts().get(b).unwrap();
    assert_eq!(acc.get_id(), user(3, 1));
    assert_eq!(acc.get_balance(), 0);
    assert!(acc.get_portfolio().is_empty());
    assert_eq!(acc.get_buy_order_amount(), 0);
    assert!(acc.get_pending().is_empty());
    assert_eq!(st.get_next_trade_id(), 0);
    assert!(!st.has_pending_trade(0));
    assert_eq!(st.set_balance(a, 100), Ok(true));
    assert_eq!(st.add_order(a, req(OrderType::Buy, "X", 5, 10)), Ok(true));
    let trade = Trade {
        quantity: 5,
        price: 10,
        ticker: "X".to_string(),
        buyer_id: user(3, a),
        seller_id: user(4, 0),
        buy_price: 10,
        sell_price: 10,
    };
    let offers = st.process_matches(vec![trade.clone()]).unwrap();
    assert_eq!(offers, vec![(4, exchange::state::Offer { id: 0, trade })]);
    assert_eq!(st.get_next_trade_id(), 1);
    assert!(st.has_pending_trade(0));
    assert_eq!(st.commit_pending(0), Ok(()));
    assert!(!st.has_pending_trade(0));
}
