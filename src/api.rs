use vstd::prelude::*;

use crate::account::{sufficient, Account};
use crate::market::{match_order, rejection, rejection_text, Market, OrderRejection};
use crate::order::{first_with_id, OrderBase};
use crate::side::{Side, Status};

verus! {

/// What a request can fail with, before or inside the engine.
#[derive(Debug, Clone, Copy, PartialEq, Eq, Structural)]
pub enum AppError {
    AccountIdMissing,
    AccountIdInvalid,
    AccountDoesNotExist,
    OrderBodyIncorrect,
    OrderInvalid(OrderRejection),
    OrderIdInvalid,
    OrderDoesNotExist,
    OrderCannotBeCancelled,
}

/// The HTTP status that answers each error.
pub open spec fn status_of(e: AppError) -> u16 {
    match e {
        AppError::AccountIdMissing => 400,
        AppError::AccountIdInvalid => 400,
        AppError::AccountDoesNotExist => 403,
        AppError::OrderBodyIncorrect => 400,
        AppError::OrderInvalid(_) => 400,
        AppError::OrderIdInvalid => 404,
        AppError::OrderDoesNotExist => 404,
        AppError::OrderCannotBeCancelled => 410,
    }
}

/// The text that describes each error.
pub open spec fn app_error_text(e: AppError) -> Seq<char> {
    match e {
        AppError::AccountIdMissing => "`account-id` missing in Header"@,
        AppError::AccountIdInvalid => "`account-id` is invalid"@,
        AppError::AccountDoesNotExist => "this `account-id` does not exist"@,
        AppError::OrderBodyIncorrect => "submitted order Body is incorrect"@,
        AppError::OrderInvalid(r) => rejection_text(r),
        AppError::OrderIdInvalid => "the order `id` is invalid"@,
        AppError::OrderDoesNotExist => "this order `id` does not exist or no longer exists"@,
        AppError::OrderCannotBeCancelled => "this order can no longer be cancelled"@,
    }
}

impl AppError {
    pub fn status_code(&self) -> (r: u16)
        ensures
            r == status_of(*self),
    {
        match self {
            AppError::AccountIdMissing => 400,
            AppError::AccountIdInvalid => 400,
            AppError::AccountDoesNotExist => 403,
            AppError::OrderBodyIncorrect => 400,
            AppError::OrderInvalid(_) => 400,
            AppError::OrderIdInvalid => 404,
            AppError::OrderDoesNotExist => 404,
            AppError::OrderCannotBeCancelled => 410,
        }
    }

    /// The text sent with the status.
    pub fn message(&self) -> (r: &'static str)
        ensures
            r@ == app_error_text(*self),
    {
        match self {
            AppError::AccountIdMissing => "`account-id` missing in Header",
            AppError::AccountIdInvalid => "`account-id` is invalid",
            AppError::AccountDoesNotExist => "this `account-id` does not exist",
            AppError::OrderBodyIncorrect => "submitted order Body is incorrect",
            AppError::OrderInvalid(e) => e.message(),
            AppError::OrderIdInvalid => "the order `id` is invalid",
            AppError::OrderDoesNotExist => "this order `id` does not exist or no longer exists",
            AppError::OrderCannotBeCancelled => "this order can no longer be cancelled",
        }
    }
}

/// The identifier that `uuid::Uuid::try_parse` reads from a text, if any.
pub uninterp spec fn parsed_uuid(s: Seq<char>) -> Option<u128>;

/// Relies on `uuid::Uuid::try_parse`: the 128-bit value of the identifier
/// written in `s`, or `None` when `s` is not an identifier.
#[verifier::external_body]
fn parse_uuid(s: &str) -> (r: Option<u128>)
    ensures
        r == parsed_uuid(s@),
{
    uuid::Uuid::try_parse(s).ok().map(|u| u.as_u128())
}

/// The account identifier carried by the `account-id` header, if present.
pub fn parse_account_id(header: Option<&str>) -> (r: Result<u128, AppError>)
    ensures
        header is None ==> r == Err::<u128, AppError>(AppError::AccountIdMissing),
        header matches Some(s) ==> r == match parsed_uuid(s@) {
            Some(u) => Ok::<u128, AppError>(u),
            None => Err(AppError::AccountIdInvalid),
        },
{
    match header {
        None => Err(AppError::AccountIdMissing),
        Some(s) => match parse_uuid(s) {
            Some(u) => Ok(u),
            None => Err(AppError::AccountIdInvalid),
        },
    }
}

/// The order identifier written in a request path.
pub fn parse_order_id(path: &str) -> (r: Result<u128, AppError>)
    ensures
        r == match parsed_uuid(path@) {
            Some(u) => Ok::<u128, AppError>(u),
            None => Err(AppError::OrderIdInvalid),
        },
{
    match parse_uuid(path) {
        Some(u) => Ok(u),
        None => Err(AppError::OrderIdInvalid),
    }
}

/// The account `account`, when it is stored.
pub fn get_account(market: &Market, account: u128) -> (r: Result<Account, AppError>)
    ensures
        r == if market.accounts@.contains_key(account) {
            Ok::<Account, AppError>(market.accounts@[account])
        } else {
            Err(AppError::AccountDoesNotExist)
        },
{
    match market.check_uuid(account) {
        None => Err(AppError::AccountDoesNotExist),
        Some(h) => Ok(*market.get_account(&h)),
    }
}

/// Builds an order for `account` and submits it. The order comes back as
/// it was built, before matching.
pub fn new_order(market: &mut Market, account: u128, limit: u64, quantity: usize, side: Side) -> (r:
    Result<OrderBase, AppError>)
    requires
        old(market).wf(),
    ensures
        final(market).wf(),
        (r == Err::<OrderBase, AppError>(AppError::AccountDoesNotExist)) <==> !old(
            market,
        ).accounts@.contains_key(account),
        old(market).accounts@.contains_key(account) && (limit == 0 || quantity == 0) ==> r == Err::<
            OrderBase,
            AppError,
        >(AppError::OrderBodyIncorrect),
        r matches Err(AppError::OrderInvalid(e)) ==> e == OrderRejection::DuplicateId || e
            == OrderRejection::InsufficientBalance,
        r matches Err(AppError::OrderInvalid(OrderRejection::InsufficientBalance)) ==> !sufficient(
            old(market).accounts@[account],
            side,
            limit,
            quantity,
        ),
        old(market).accounts@.contains_key(account) && limit > 0 && quantity > 0 && !sufficient(
            old(market).accounts@[account],
            side,
            limit,
            quantity,
        ) ==> r == Err::<OrderBase, AppError>(
            AppError::OrderInvalid(OrderRejection::InsufficientBalance),
        ) || r == Err::<OrderBase, AppError>(AppError::OrderBodyIncorrect),
        match r {
            Ok(o) => {
                &&& o.limit == limit
                &&& o.quantity == quantity
                &&& o.side == side
                &&& o.account_id@ == account
                &&& o.status == Status::Created
                &&& sufficient(old(market).accounts@[account], side, limit, quantity)
                &&& rejection(old(market).state(), o) is None
                &&& final(market).state() == match_order(
                    old(market).state(),
                    OrderBase { status: Status::Pending, ..o },
                    old(market).capacity(),
                )
            },
            Err(_) => final(market).state() == old(market).state(),
        },
{
    let h = match market.check_uuid(account) {
        None => return Err(AppError::AccountDoesNotExist),
        Some(h) => h,
    };
    let order = match OrderBase::build(limit, quantity, side, h) {
        Err(_) => return Err(AppError::OrderBodyIncorrect),
        Ok(o) => o,
    };
    match market.submit_order(order) {
        Err(e) => Err(AppError::OrderInvalid(e)),
        Ok(()) => Ok(order),
    }
}

/// The order `order_id`, resting or in the journal, asked for by `account`.
pub fn get_order_by_id(market: &Market, account: u128, order_id: u128) -> (r: Result<
    OrderBase,
    AppError,
>)
    requires
        market.wf(),
    ensures
        !market.accounts@.contains_key(account) ==> r == Err::<OrderBase, AppError>(
            AppError::AccountDoesNotExist,
        ),
        market.accounts@.contains_key(account) ==> r == if market.order_book@.contains_key(
            order_id,
        ) {
            Ok::<OrderBase, AppError>(market.order_book@[order_id])
        } else {
            match first_with_id(market.processed_orders@, order_id) {
                Some(o) => Ok::<OrderBase, AppError>(o),
                None => Err(AppError::OrderDoesNotExist),
            }
        },
{
    if market.check_uuid(account).is_none() {
        return Err(AppError::AccountDoesNotExist);
    }
    match market.get_order_by_id(order_id) {
        Some(o) => Ok(*o),
        None => Err(AppError::OrderDoesNotExist),
    }
}

/// The resting orders and journal entries of `account`.
pub fn get_all_orders(market: &Market, account: u128) -> (r: Result<Vec<OrderBase>, AppError>)
    requires
        market.wf(),
    ensures
        !market.accounts@.contains_key(account) ==> r == Err::<Vec<OrderBase>, AppError>(
            AppError::AccountDoesNotExist,
        ),
        market.accounts@.contains_key(account) ==> r is Ok,
        r matches Ok(v) ==> {
            &&& forall|i: int| 0 <= i < v@.len() ==> (#[trigger] v@[i]).account_id@ == account
            &&& forall|i: int|
                0 <= i < v@.len() ==> {
                    ||| market.order_book@.contains_key(#[trigger] v@[i].id)
                        && market.order_book@[v@[i].id] == v@[i]
                    ||| market.processed_orders@.contains(v@[i])
                }
            &&& forall|k: u128| #[trigger]
                market.order_book@.contains_key(k) && market.order_book@[k].account_id@ == account
                    ==> v@.contains(market.order_book@[k])
            &&& forall|e: OrderBase| #[trigger]
                market.processed_orders@.contains(e) && e.account_id@ == account ==> v@.contains(
                    e,
                )
        },
{
    let h = match market.check_uuid(account) {
        None => return Err(AppError::AccountDoesNotExist),
        Some(h) => h,
    };
    let v = market.get_orders_by_account(h);
    proof {
        let n = choose|n: int|
            0 <= n <= v@.len() && v@.subrange(n, v@.len() as int)
                == market.processed_orders@.filter(|o: OrderBase| o.account_id@ == h@) && (forall|
                i: int,
            |
                0 <= i < n ==> {
                    &&& market.order_book@.contains_key(#[trigger] v@[i].id)
                    &&& market.order_book@[v@[i].id] == v@[i]
                    &&& v@[i].account_id@ == h@
                }) && (forall|k: u128| #[trigger]
                market.order_book@.contains_key(k) && market.order_book@[k].account_id@ == h@
                    ==> v@.subrange(0, n).contains(market.order_book@[k]));
        let pred = |o: OrderBase| o.account_id@ == h@;
        let tail = v@.subrange(n, v@.len() as int);
        assert forall|i: int| 0 <= i < v@.len() implies (#[trigger] v@[i]).account_id@ == account by {
            if i >= n {
                assert(tail[i - n] == v@[i]);
                market.processed_orders@.lemma_filter_pred(pred, i - n);
                lemma_filter_members(market.processed_orders@, pred);
            } else {
                assert(market.order_book@.contains_key(v@[i].id));
            }
        }
        assert forall|i: int| 0 <= i < v@.len() implies {
            ||| market.order_book@.contains_key(#[trigger] v@[i].id) && market.order_book@[v@[i].id]
                == v@[i]
            ||| market.processed_orders@.contains(v@[i])
        } by {
            if i >= n {
                assert(tail[i - n] == v@[i]);
                lemma_filter_members(market.processed_orders@, pred);
                assert(market.processed_orders@.contains(market.processed_orders@.filter(pred)[i - n]));
            } else {
                assert(market.order_book@.contains_key(v@[i].id));
            }
        }
        assert forall|k: u128| #[trigger]
            market.order_book@.contains_key(k) && market.order_book@[k].account_id@ == account
                implies v@.contains(market.order_book@[k]) by {
            let j = choose|j: int| 0 <= j < n && v@.subrange(0, n)[j] == market.order_book@[k];
            assert(v@[j] == market.order_book@[k]);
        }
        assert forall|e: OrderBase| #[trigger]
            market.processed_orders@.contains(e) && e.account_id@ == account implies v@.contains(e) by {
            let i = choose|i: int| 0 <= i < market.processed_orders@.len() && market.processed_orders@[i] == e;
            market.processed_orders@.lemma_filter_contains(pred, i);
            let j = choose|j: int| 0 <= j < tail.len() && tail[j] == e;
            assert(v@[n + j] == e);
        }
    }
    Ok(v)
}

/// What a filter keeps comes from the filtered sequence.
proof fn lemma_filter_members(s: Seq<OrderBase>, pred: spec_fn(OrderBase) -> bool)
    ensures
        forall|i: int|
            0 <= i < s.filter(pred).len() ==> s.contains(#[trigger] s.filter(pred)[i]),
    decreases s.len(),
{
    reveal(Seq::filter);
    if s.len() > 0 {
        let t = s.drop_last();
        lemma_filter_members(t, pred);
        let f = s.filter(pred);
        assert forall|i: int| 0 <= i < f.len() implies s.contains(#[trigger] f[i]) by {
            if i < t.filter(pred).len() {
                let x = t.filter(pred)[i];
                assert(f[i] == x);
                assert(t.contains(x));
                let j = choose|j: int| 0 <= j < t.len() && t[j] == x;
                assert(s[j] == x);
            } else {
                assert(f[i] == s.last());
                assert(s[s.len() - 1] == s.last());
            }
        }
    }
}

/// Cancels the resting order `order_id` for `account`.
pub fn delete_order_by_id(market: &mut Market, account: u128, order_id: u128) -> (r: Result<
    (),
    AppError,
>)
    requires
        old(market).wf(),
    ensures
        final(market).wf(),
        !old(market).accounts@.contains_key(account) ==> r == Err::<(), AppError>(
            AppError::AccountDoesNotExist,
        ) && final(market).state() == old(market).state(),
        old(market).accounts@.contains_key(account) ==> {
            &&& r == if old(market).order_book@.contains_key(order_id) {
                Ok::<(), AppError>(())
            } else {
                Err(AppError::OrderCannotBeCancelled)
            }
            &&& final(market).state() == crate::market::cancel_state(
                old(market).state(),
                order_id,
                old(market).capacity(),
            )
        },
{
    if market.check_uuid(account).is_none() {
        return Err(AppError::AccountDoesNotExist);
    }
    match market.delete_order_by_id(order_id) {
        Some(_) => Ok(()),
        None => Err(AppError::OrderCannotBeCancelled),
    }
}

} // verus!
