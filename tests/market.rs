use market_simulation::account::AccountId;
use market_simulation::market::{Market, OrderRejection};
use market_simulation::order::{OrderBase, PRICE_SCALE};
use market_simulation::side::{Side, Status};

fn px(p: f64) -> u64 {
    (p * PRICE_SCALE as f64).round() as u64
}

fn cash(c: f64) -> i64 {
    (c * PRICE_SCALE as f64).round() as i64
}

fn balance_of(market: &Market, id: &AccountId) -> f64 {
    market.get_account(id).account_balance as f64 / PRICE_SCALE as f64
}

#[test]
fn process_orders_1() {
    let mut market = Market::default();

    let alice_id = market.accounts.create_new_account(cash(1e5), 0).unwrap();
    let bob_id = market.accounts.create_new_account(cash(1e5), 0).unwrap();

    let ask1 = OrderBase::build(px(20.), 10, Side::Ask, alice_id).unwrap();
    let ask2 = OrderBase::build(px(30.), 20, Side::Ask, alice_id).unwrap();
    let ask3 = OrderBase::build(px(15.), 1, Side::Ask, alice_id).unwrap();
    let ask4 = OrderBase::build(px(20.), 30, Side::Ask, alice_id).unwrap();

    let ask2_id = ask2.get_id();
    let ask4_id = ask4.get_id();

    market.handle_incoming_order(ask1);
    market.handle_incoming_order(ask2);
    market.handle_incoming_order(ask3);
    market.handle_incoming_order(ask4);

    let bid1 = OrderBase::build(px(21.), 23, Side::Bid, bob_id).unwrap();

    market.handle_incoming_order(bid1);

    println!("{:#?}", market.order_book);
    let best_ask = market.order_book.pop(Side::Ask).unwrap();

    assert_eq!(best_ask.limit as f64 / PRICE_SCALE as f64, 20.0);
    assert_eq!(best_ask.quantity, 18);
    assert_eq!(best_ask.get_id(), ask4_id);

    let best_ask = market.order_book.pop(Side::Ask).unwrap();

    assert_eq!(best_ask.limit as f64 / PRICE_SCALE as f64, 30.0);
    assert_eq!(best_ask.quantity, 20);
    assert_eq!(best_ask.get_id(), ask2_id);

    assert!(market.order_book.is_empty(Side::Ask));
    assert!(market.order_book.is_empty(Side::Bid));
}

#[test]
fn process_orders_2() {
    let mut market = Market::default();

    let alice_id = market.accounts.create_new_account(cash(1e5), 0).unwrap();
    let bob_id = market.accounts.create_new_account(cash(1e5), 0).unwrap();
    let charlie_id = market.accounts.create_new_account(cash(1e5), 0).unwrap();

    let bid1 = OrderBase::build(px(121.5), 20, Side::Bid, bob_id).unwrap();
    // bid1 causes no transaction
    let bid2 = OrderBase::build(px(121.5), 20, Side::Bid, bob_id).unwrap();
    // bid2 causes no transaction
    let ask1 = OrderBase::build(px(121.9), 10, Side::Ask, alice_id).unwrap();
    // ask1 causes no transaction
    let ask2 = OrderBase::build(px(120.1), 3, Side::Ask, alice_id).unwrap();
    // ask2 is cleared and consumes 3 of bid1
    let bid3 = OrderBase::build(px(122.0), 12, Side::Bid, bob_id).unwrap();
    // bid3 consumes 10 of ask1 (clearing it)
    let ask3 = OrderBase::build(px(119.0), 38, Side::Ask, charlie_id).unwrap();
    // ask3 first consumes 17 of bid1 (clearing it). then consumes 1 of bid3 (clearing it). then consumes 19 of bid2.

    let bid2_id = bid2.get_id();

    market.handle_incoming_order(bid1);
    market.handle_incoming_order(bid2);
    market.handle_incoming_order(ask1);
    market.handle_incoming_order(ask2);
    market.handle_incoming_order(bid3);
    market.handle_incoming_order(ask3);

    let best_bid = market.order_book.pop(Side::Bid).unwrap();

    assert_eq!(best_bid.get_id(), bid2_id);
    assert_eq!(best_bid.limit as f64 / PRICE_SCALE as f64, 121.5);
    assert_eq!(best_bid.quantity, 1);

    assert!(market.order_book.is_empty(Side::Ask));
    assert!(market.order_book.is_empty(Side::Bid));
}

#[test]
fn process_orders_3() {
    let mut market = Market::default();

    let alice_id = market.accounts.create_new_account(cash(1e5), 0).unwrap();
    let bob_id = market.accounts.create_new_account(cash(1e5), 0).unwrap();
    let charlie_id = market.accounts.create_new_account(cash(1e5), 1000).unwrap();
    let dan_id = market.accounts.create_new_account(cash(1e5), 1000).unwrap();

    // Alice sets up the following:
    // - 30 @ 60.01 bid / 12 @ 60.11 ask
    market.handle_incoming_order(OrderBase::build(px(60.01), 30, Side::Bid, alice_id).unwrap());
    market.handle_incoming_order(OrderBase::build(px(60.11), 12, Side::Ask, alice_id).unwrap());

    // Bob sets up the following:
    // - 100 @ 60.08 bid / 10 @ 60.20 ask
    market.handle_incoming_order(OrderBase::build(px(60.08), 100, Side::Bid, bob_id).unwrap());
    market.handle_incoming_order(OrderBase::build(px(60.20), 10, Side::Ask, bob_id).unwrap());

    // Alice sets up the following:
    // - 15 @ 60.02 bid / 14 @ 60.08 ask
    market.handle_incoming_order(OrderBase::build(px(60.02), 15, Side::Bid, alice_id).unwrap());
    market.handle_incoming_order(OrderBase::build(px(60.08), 14, Side::Ask, alice_id).unwrap());

    // Charlie sets up the following:
    // - 120 @ 60.01 ask
    market.handle_incoming_order(OrderBase::build(px(60.01), 120, Side::Ask, charlie_id).unwrap());

    // Dan sets up the following
    // - 20 @ 60.10 bid / 10 @ 60.3 ask
    market.handle_incoming_order(OrderBase::build(px(60.11), 20, Side::Bid, dan_id).unwrap());
    market.handle_incoming_order(OrderBase::build(px(60.3), 10, Side::Ask, dan_id).unwrap());

    // Alice sets up the following
    // - 8 @ 60.09 ask
    market.handle_incoming_order(OrderBase::build(px(60.08), 8, Side::Ask, alice_id).unwrap());

    println!("{:#?}", market.get_account(&alice_id));
    println!("{:#?}", market.get_account(&bob_id));
    println!("{:#?}", market.get_account(&charlie_id));
    println!("{:#?}", market.get_account(&dan_id));
    println!("{:#?}", market.order_book);

    let best_ask = market.order_book.pop(Side::Ask).unwrap();

    assert_eq!(best_ask.limit as f64 / PRICE_SCALE as f64, 60.2);
    assert_eq!(best_ask.quantity, 10);

    let best_ask = market.order_book.pop(Side::Ask).unwrap();

    assert_eq!(best_ask.limit as f64 / PRICE_SCALE as f64, 60.3);
    assert_eq!(best_ask.quantity, 10);

    let best_bid = market.order_book.pop(Side::Bid).unwrap();

    assert_eq!(best_bid.limit as f64 / PRICE_SCALE as f64, 60.01);
    assert_eq!(best_bid.quantity, 11);

    assert!(market.order_book.is_empty(Side::Ask));
    assert!(market.order_book.is_empty(Side::Bid));

    assert_eq!(balance_of(&market, &alice_id), 100002.74);
    assert_eq!(market.get_account(&alice_id).position, 0);
    assert_eq!(balance_of(&market, &bob_id), 93998.02);
    assert_eq!(market.get_account(&bob_id).position, 100);
    assert_eq!(balance_of(&market, &charlie_id), 107201.2);
    assert_eq!(market.get_account(&charlie_id).position, 880);
    assert_eq!(balance_of(&market, &dan_id), 98798.04);
    assert_eq!(market.get_account(&dan_id).position, 1020);
}

#[test]
fn cancel_moves_order_to_journal() {
    let mut market = Market::new();
    let alice = market.new_account(cash(1e5), 0).unwrap();
    let ask = OrderBase::build(px(50.0), 5, Side::Ask, alice).unwrap();
    let id = ask.get_id();
    assert_eq!(market.submit_order(ask), Ok(()));
    assert_eq!(market.get_order_by_id(id).unwrap().status, Status::Pending);

    let cancelled = market.delete_order_by_id(id).unwrap();
    assert_eq!(cancelled.id, id);
    assert_eq!(cancelled.status, Status::Cancelled);
    assert!(market.order_book.is_empty(Side::Ask));
    assert!(market.order_book.is_empty(Side::Bid));
    assert_eq!(market.processed_orders.len(), 1);
    assert_eq!(market.processed_orders.find_order(id).unwrap().status, Status::Cancelled);
    assert_eq!(market.get_order_by_id(id).unwrap().status, Status::Cancelled);
    assert!(market.delete_order_by_id(id).is_none());
    assert_eq!(market.processed_orders.len(), 1);
}

#[test]
fn unknown_account_is_rejected() {
    let mut market = Market::new();
    let mut elsewhere = Market::new();
    let stranger = elsewhere.new_account(cash(1e5), 0).unwrap();
    assert!(market.check_account_uuid(stranger.as_uuid()).is_none());
    assert!(market.check_uuid(uuid::Uuid::new_v4().as_u128()).is_none());
    let order = OrderBase::build(px(10.0), 1, Side::Bid, stranger).unwrap();
    assert_eq!(market.validate_order(&order, stranger), Err(OrderRejection::UnknownAccount));
    assert_eq!(market.submit_order(order), Err(OrderRejection::UnknownAccount));
    assert!(market.order_book.is_empty(Side::Bid));
    assert_eq!(market.processed_orders.len(), 0);
}

#[test]
fn validation_reports_each_rejection() {
    let mut market = Market::new();
    let alice = market.new_account(cash(1000.0), 0).unwrap();
    let bob = market.new_account(cash(1000.0), 0).unwrap();
    assert_eq!(market.check_uuid(alice.as_uuid()), Some(alice));

    let mut zero = OrderBase::build(px(10.0), 1, Side::Bid, alice).unwrap();
    zero.quantity = 0;
    assert_eq!(market.validate_order(&zero, alice), Err(OrderRejection::Malformed));

    let mine = OrderBase::build(px(10.0), 1, Side::Bid, alice).unwrap();
    // validation looks at the account it is given: bob is stored and solvent
    assert_eq!(market.validate_order(&mine, bob), Ok(()));

    // exactly the whole balance is enough for a bid
    let exact = OrderBase::build(px(10.0), 100, Side::Bid, alice).unwrap();
    assert_eq!(market.validate_order(&exact, alice), Ok(()));
    let too_big = OrderBase::build(px(10.0), 101, Side::Bid, alice).unwrap();
    assert_eq!(market.validate_order(&too_big, alice), Err(OrderRejection::InsufficientBalance));
    assert_eq!(market.submit_order(too_big), Err(OrderRejection::InsufficientBalance));

    assert_eq!(market.submit_order(mine), Ok(()));
    let again = OrderBase { status: Status::Created, ..mine };
    assert_eq!(market.validate_order(&again, alice), Ok(()));
    assert!(!market.is_fresh_id(again.id));
    assert_eq!(market.submit_order(again), Err(OrderRejection::DuplicateId));
    assert_eq!(OrderRejection::Malformed.message(), "order is malformed");
    assert_eq!(OrderRejection::DuplicateId.message(), "order id is already in use");
}

#[test]
fn short_ask_margin_rule() {
    let mut market = Market::new();
    let poor = market.new_account(cash(-100.0), 0).unwrap();
    let long = market.new_account(cash(-100.0), 10).unwrap();
    // position 0 - 10 = -10; requirement 10.0 * -10 * 0.5 = -50 > -100
    let ask = OrderBase::build(px(10.0), 10, Side::Ask, poor).unwrap();
    assert_eq!(market.validate_order(&ask, poor), Err(OrderRejection::InsufficientBalance));
    // requirement 10.0 * -30 * 0.5 = -150 <= -100
    let ask = OrderBase::build(px(10.0), 30, Side::Ask, poor).unwrap();
    assert_eq!(market.validate_order(&ask, poor), Ok(()));
    // a long position that covers the ask needs no margin
    let ask = OrderBase::build(px(10.0), 10, Side::Ask, long).unwrap();
    assert_eq!(market.validate_order(&ask, long), Ok(()));
}

#[test]
fn fill_moves_cash_and_inventory() {
    let mut market = Market::new();
    let alice = market.new_account(cash(1000.0), 0).unwrap();
    let bob = market.new_account(cash(1000.0), 5).unwrap();
    assert!(market.accounts.handle_transaction(alice, bob, Side::Bid, px(2.5), 4));
    assert_eq!(market.get_account(&alice).account_balance, cash(990.0));
    assert_eq!(market.get_account(&alice).position, 4);
    assert_eq!(market.get_account(&bob).account_balance, cash(1010.0));
    assert_eq!(market.get_account(&bob).position, 1);
    assert!(market.accounts.handle_transaction(alice, bob, Side::Ask, px(3.0), 2));
    assert_eq!(market.get_account(&alice).account_balance, cash(996.0));
    assert_eq!(market.get_account(&alice).position, 2);
    assert_eq!(market.get_account(&bob).account_balance, cash(1004.0));
    assert_eq!(market.get_account(&bob).position, 3);
}

#[test]
fn fill_that_overflows_changes_nothing() {
    let mut market = Market::new();
    let alice = market.new_account(0, i32::MAX - 1).unwrap();
    let bob = market.new_account(0, 0).unwrap();
    assert!(!market.accounts.handle_transaction(alice, bob, Side::Bid, 1, 2));
    assert_eq!(market.get_account(&alice).position, i32::MAX - 1);
    assert_eq!(market.get_account(&bob).position, 0);
    assert_eq!(market.get_account(&alice).account_balance, 0);
}

#[test]
fn scenario_conserves_cash_and_inventory() {
    let mut market = Market::default();
    let ids = [
        market.new_account(cash(1e5), 0).unwrap(),
        market.new_account(cash(1e5), 0).unwrap(),
        market.new_account(cash(1e5), 1000).unwrap(),
    ];
    let total = |m: &Market| -> (i64, i64) {
        ids.iter().fold((0, 0), |(c, p), id| {
            let a = m.get_account(id);
            (c + a.account_balance, p + a.position as i64)
        })
    };
    let before = total(&market);
    let steps = [
        (0usize, 50.0, 10usize, Side::Bid),
        (1, 49.5, 4, Side::Ask),
        (2, 48.0, 30, Side::Ask),
        (1, 51.0, 12, Side::Bid),
        (0, 47.0, 3, Side::Ask),
    ];
    for (who, limit, qty, side) in steps.iter() {
        let o = OrderBase::build(px(*limit), *qty, *side, ids[*who]).unwrap();
        let _ = market.submit_order(o);
        assert_eq!(total(&market), before);
    }
    let resting = market.get_orders_by_account(ids[2]);
    if let Some(o) = resting.iter().find(|o| o.status == Status::Pending) {
        assert!(market.delete_order_by_id(o.id).is_some());
    }
    assert_eq!(total(&market), before);
}

#[test]
fn self_trade_leaves_account_unchanged() {
    let mut market = Market::new();
    let alice = market.new_account(cash(1000.0), 10).unwrap();
    let bid = OrderBase::build(px(20.0), 5, Side::Bid, alice).unwrap();
    let bid_id = bid.id;
    assert_eq!(market.submit_order(bid), Ok(()));
    let ask = OrderBase::build(px(19.0), 5, Side::Ask, alice).unwrap();
    let ask_id = ask.id;
    assert_eq!(market.submit_order(ask), Ok(()));
    assert_eq!(market.get_account(&alice).account_balance, cash(1000.0));
    assert_eq!(market.get_account(&alice).position, 10);
    assert!(market.order_book.is_empty(Side::Bid));
    assert!(market.order_book.is_empty(Side::Ask));
    assert_eq!(market.get_order_by_id(bid_id).unwrap().status, Status::Executed);
    assert_eq!(market.get_order_by_id(ask_id).unwrap().status, Status::Executed);
}

#[test]
fn full_fill_goes_to_journal_as_executed() {
    let mut market = Market::new();
    let alice = market.new_account(cash(1e5), 0).unwrap();
    let bob = market.new_account(cash(1e5), 100).unwrap();
    let bid = OrderBase::build(px(10.0), 5, Side::Bid, alice).unwrap();
    let bid_id = bid.id;
    market.submit_order(bid).unwrap();
    let ask = OrderBase::build(px(9.0), 8, Side::Ask, bob).unwrap();
    let ask_id = ask.id;
    market.submit_order(ask).unwrap();
    // the bid is filled in full at the ask's limit, the ask rests with 3
    assert!(market.order_book.find_order(bid_id).is_none());
    let done = market.processed_orders.find_order(bid_id).unwrap();
    assert_eq!(done.status, Status::Executed);
    assert_eq!(done.quantity, 0);
    let rest = market.order_book.find_order(ask_id).unwrap();
    assert_eq!(rest.quantity, 3);
    assert_eq!(rest.status, Status::Pending);
    assert_eq!(market.get_account(&alice).account_balance, cash(1e5 - 45.0));
    assert_eq!(market.get_account(&bob).account_balance, cash(1e5 + 45.0));
    assert_eq!(market.get_account(&alice).position, 5);
    assert_eq!(market.get_account(&bob).position, 95);

    let (best_ask, best_bid) = market.quote();
    assert_eq!(best_ask.unwrap().id, ask_id);
    assert!(best_bid.is_none());

    let orders = market.get_orders_by_account(alice);
    assert_eq!(orders.len(), 1);
    assert_eq!(orders[0].id, bid_id);
    let orders = market.get_orders_by_account(bob);
    assert_eq!(orders.len(), 1);
    assert_eq!(orders[0].id, ask_id);
}

#[test]
fn accounts_lookup() {
    let mut market = Market::new();
    let alice = market.new_account(cash(12.5), -3).unwrap();
    let account = market.get_account(&alice);
    assert_eq!(account.get_id(), alice.as_uuid());
    assert_eq!(account.account_balance, 125_000);
    assert_eq!(account.position, -3);
    assert_eq!(market.check_account_uuid(alice.as_uuid()), Some(alice));
}

#[test]
fn unbookable_fill_cancels_residual_instead_of_crossing() {
    let mut market = Market::new();
    let seller = market.new_account(0, 0).unwrap();
    let buyer = market.new_account(1i64 << 32, 0).unwrap();
    let bid = OrderBase::build(1, 4_294_967_295, Side::Bid, buyer).unwrap();
    let bid_id = bid.id;
    assert_eq!(market.submit_order(bid), Ok(()));
    let ask = OrderBase::build(1, 4_294_967_295, Side::Ask, seller).unwrap();
    let ask_id = ask.id;
    assert_eq!(market.submit_order(ask), Ok(()));
    // the fill would take the seller's position below i32::MIN: nothing is booked
    assert_eq!(market.get_account(&seller).position, 0);
    assert_eq!(market.get_account(&buyer).account_balance, 1i64 << 32);
    assert!(market.order_book.is_empty(Side::Ask));
    assert_eq!(market.order_book.peek(Side::Bid).unwrap().id, bid_id);
    let dropped = market.processed_orders.find_order(ask_id).unwrap();
    assert_eq!(dropped.status, Status::Cancelled);
    assert_eq!(dropped.quantity, 4_294_967_295);
}
