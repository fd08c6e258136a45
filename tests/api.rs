use market_simulation::api::{
    delete_order_by_id, get_account, get_all_orders, get_order_by_id, new_order, parse_account_id,
    parse_order_id, AppError,
};
use market_simulation::market::{Market, OrderRejection};
use market_simulation::order::PRICE_SCALE;
use market_simulation::side::{Side, Status};

fn px(p: f64) -> u64 {
    (p * PRICE_SCALE as f64).round() as u64
}

#[test]
fn status_codes_follow_the_error() {
    assert_eq!(AppError::AccountIdMissing.status_code(), 400);
    assert_eq!(AppError::AccountIdInvalid.status_code(), 400);
    assert_eq!(AppError::AccountDoesNotExist.status_code(), 403);
    assert_eq!(AppError::OrderBodyIncorrect.status_code(), 400);
    assert_eq!(AppError::OrderInvalid(OrderRejection::InsufficientBalance).status_code(), 400);
    assert_eq!(AppError::OrderIdInvalid.status_code(), 404);
    assert_eq!(AppError::OrderDoesNotExist.status_code(), 404);
    assert_eq!(AppError::OrderCannotBeCancelled.status_code(), 410);
    assert_eq!(
        AppError::OrderInvalid(OrderRejection::InsufficientBalance).message(),
        "insufficient balance for order"
    );
    assert_eq!(AppError::OrderCannotBeCancelled.message(), "this order can no longer be cancelled");
    assert_eq!(AppError::AccountDoesNotExist.message(), "this `account-id` does not exist");
}

#[test]
fn account_header_parsing() {
    let u = uuid::Uuid::new_v4();
    let text = u.to_string();
    assert_eq!(parse_account_id(Some(text.as_str())), Ok(u.as_u128()));
    assert_eq!(
        parse_account_id(Some("67e55044-10b1-426f-9247-bb680e5fe0c8")),
        Ok(0x67e5504410b1426f9247bb680e5fe0c8)
    );
    assert_eq!(parse_account_id(None), Err(AppError::AccountIdMissing));
    assert_eq!(parse_account_id(Some("not-a-uuid")), Err(AppError::AccountIdInvalid));
    assert_eq!(parse_order_id("nope"), Err(AppError::OrderIdInvalid));
    assert_eq!(parse_order_id(&text), Ok(u.as_u128()));
}

#[test]
fn request_flow_for_orders() {
    let mut market = Market::new();
    let alice = market.new_account(100_000 * PRICE_SCALE as i64, 0).unwrap().as_uuid();
    let bob = market.new_account(100_000 * PRICE_SCALE as i64, 50).unwrap().as_uuid();
    let stranger = uuid::Uuid::new_v4().as_u128();

    assert_eq!(get_account(&market, stranger), Err(AppError::AccountDoesNotExist));
    assert_eq!(get_account(&market, alice).unwrap().position, 0);

    assert_eq!(
        new_order(&mut market, stranger, px(10.0), 1, Side::Bid).unwrap_err(),
        AppError::AccountDoesNotExist
    );
    assert_eq!(
        new_order(&mut market, alice, 0, 1, Side::Bid).unwrap_err(),
        AppError::OrderBodyIncorrect
    );
    assert_eq!(
        new_order(&mut market, alice, px(10.0), 0, Side::Bid).unwrap_err(),
        AppError::OrderBodyIncorrect
    );
    assert_eq!(
        new_order(&mut market, alice, px(10.0), 1_000_000, Side::Bid).unwrap_err(),
        AppError::OrderInvalid(OrderRejection::InsufficientBalance)
    );

    let bid = new_order(&mut market, alice, px(10.0), 5, Side::Bid).unwrap();
    assert_eq!(bid.status, Status::Created);
    assert_eq!(get_order_by_id(&market, alice, bid.id).unwrap().status, Status::Pending);
    assert_eq!(get_order_by_id(&market, stranger, bid.id), Err(AppError::AccountDoesNotExist));
    assert_eq!(get_order_by_id(&market, alice, 12345), Err(AppError::OrderDoesNotExist));

    let ask = new_order(&mut market, bob, px(9.0), 2, Side::Ask).unwrap();
    let executed = get_order_by_id(&market, bob, ask.id).unwrap();
    assert_eq!(executed.status, Status::Executed);
    assert_eq!(get_order_by_id(&market, alice, bid.id).unwrap().quantity, 3);
    assert_eq!(get_account(&market, bob).unwrap().position, 48);
    assert_eq!(get_account(&market, alice).unwrap().position, 2);

    let orders = get_all_orders(&market, bob).unwrap();
    assert_eq!(orders.len(), 1);
    assert_eq!(orders[0].id, ask.id);
    assert_eq!(get_all_orders(&market, stranger), Err(AppError::AccountDoesNotExist));

    assert_eq!(
        delete_order_by_id(&mut market, alice, ask.id),
        Err(AppError::OrderCannotBeCancelled)
    );
    assert_eq!(delete_order_by_id(&mut market, stranger, bid.id), Err(AppError::AccountDoesNotExist));
    assert_eq!(delete_order_by_id(&mut market, alice, bid.id), Ok(()));
    assert_eq!(get_order_by_id(&market, alice, bid.id).unwrap().status, Status::Cancelled);
    assert_eq!(
        delete_order_by_id(&mut market, alice, bid.id),
        Err(AppError::OrderCannotBeCancelled)
    );
    let (best_ask, best_bid) = market.quote();
    assert!(best_ask.is_none());
    assert!(best_bid.is_none());
}
