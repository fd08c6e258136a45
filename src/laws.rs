use vstd::prelude::*;

use crate::account::{
    after_fill,
    fill_fits,
    ledger_sum,
    lemma_ledger_sum_update,
    Account,
};
use crate::market::{
    cancel_state,
    crosses,
    lemma_fill_keeps_accounts,
    match_order,
    rejection,
    submit_state,
    MarketState,
};
use crate::order::{best_of, is_best, journal_push, outranks, OrderBase};
use crate::side::{Side, Status};

verus! {

/// A request to the engine: submit an order, or cancel one by identifier.
#[derive(Debug, Clone, Copy)]
pub enum Request {
    Submit(OrderBase),
    Cancel(u128),
}

/// The state after one request, as `Market::submit_order` and
/// `Market::delete_order_by_id` change it.
pub open spec fn apply_request(st: MarketState, r: Request, capacity: nat) -> MarketState {
    match r {
        Request::Submit(o) => submit_state(st, o, capacity),
        Request::Cancel(id) => cancel_state(st, id, capacity),
    }
}

/// The state after a sequence of requests, first to last.
pub open spec fn run_requests(st: MarketState, rs: Seq<Request>, capacity: nat) -> MarketState
    decreases rs.len(),
{
    if rs.len() == 0 {
        st
    } else {
        run_requests(apply_request(st, rs[0], capacity), rs.drop_first(), capacity)
    }
}

/// The ledger is finite and holds the account of every resting order.
pub open spec fn accounts_known(st: MarketState) -> bool {
    &&& st.ledger.dom().finite()
    &&& forall|k: u128| #[trigger]
        st.book.contains_key(k) ==> st.ledger.contains_key(st.book[k].account_id@)
}

/// A fill moves cash and inventory between two accounts: the sum of the
/// balances and the sum of the positions over the ledger stay the same.
pub proof fn lemma_fill_conserves(
    m: Map<u128, Account>,
    aggressor: u128,
    counterparty: u128,
    side: Side,
    price: u64,
    qty: usize,
)
    requires
        m.dom().finite(),
        m.contains_key(aggressor),
        m.contains_key(counterparty),
        fill_fits(m, aggressor, counterparty, side, price, qty),
    ensures
        ledger_sum(after_fill(m, aggressor, counterparty, side, price, qty), true) == ledger_sum(
            m,
            true,
        ),
        ledger_sum(after_fill(m, aggressor, counterparty, side, price, qty), false) == ledger_sum(
            m,
            false,
        ),
{
    if aggressor != counterparty {
        let a = m[aggressor];
        let c = m[counterparty];
        let a2 = crate::account::aggressor_after(a, side, price, qty);
        let c2 = crate::account::counterparty_after(c, side, price, qty);
        let m1 = m.insert(aggressor, a2);
        assert(m1[counterparty] == c);
        lemma_ledger_sum_update(m, aggressor, a2, true);
        lemma_ledger_sum_update(m1, counterparty, c2, true);
        lemma_ledger_sum_update(m, aggressor, a2, false);
        lemma_ledger_sum_update(m1, counterparty, c2, false);
    }
}

/// A fill of an account against itself leaves the ledger as it was.
pub proof fn lemma_self_fill_changes_nothing(
    m: Map<u128, Account>,
    account: u128,
    side: Side,
    price: u64,
    qty: usize,
)
    ensures
        fill_fits(m, account, account, side, price, qty),
        after_fill(m, account, account, side, price, qty) == m,
{
}

proof fn lemma_match_invariants(st: MarketState, incoming: OrderBase, capacity: nat)
    requires
        accounts_known(st),
        st.ledger.contains_key(incoming.account_id@),
        st.journal.len() <= capacity,
    ensures
        accounts_known(match_order(st, incoming, capacity)),
        match_order(st, incoming, capacity).ledger.dom() == st.ledger.dom(),
        match_order(st, incoming, capacity).journal.len() <= capacity,
        ledger_sum(match_order(st, incoming, capacity).ledger, true) == ledger_sum(st.ledger, true),
        ledger_sum(match_order(st, incoming, capacity).ledger, false) == ledger_sum(
            st.ledger,
            false,
        ),
    decreases incoming.quantity,
{
    let other = incoming.side.flip();
    match best_of(st.book, other) {
        None => {},
        Some(best) => {
            assert(is_best(st.book, other, best));
            assert(st.book.contains_key(best.id));
            let q = if incoming.quantity <= best.quantity {
                incoming.quantity
            } else {
                best.quantity
            };
            if crosses(best, incoming) && q != 0 && fill_fits(
                st.ledger,
                incoming.account_id@,
                best.account_id@,
                incoming.side,
                incoming.limit,
                q,
            ) {
                let ledger = after_fill(
                    st.ledger,
                    incoming.account_id@,
                    best.account_id@,
                    incoming.side,
                    incoming.limit,
                    q,
                );
                lemma_fill_keeps_accounts(
                    st.ledger,
                    incoming.account_id@,
                    best.account_id@,
                    incoming.side,
                    incoming.limit,
                    q,
                );
                lemma_fill_conserves(
                    st.ledger,
                    incoming.account_id@,
                    best.account_id@,
                    incoming.side,
                    incoming.limit,
                    q,
                );
                let left = (best.quantity - q) as usize;
                let book = if left == 0 {
                    st.book.remove(best.id)
                } else {
                    st.book.insert(best.id, OrderBase { quantity: left, ..best })
                };
                let journal = if left == 0 {
                    journal_push(
                        st.journal,
                        OrderBase { quantity: 0, status: Status::Executed, ..best },
                        capacity,
                    )
                } else {
                    st.journal
                };
                let after = MarketState { book, ledger, journal };
                assert(ledger.dom().finite());
                assert forall|k: u128| #[trigger]
                    after.book.contains_key(k) implies after.ledger.contains_key(
                    after.book[k].account_id@,
                ) by {
                    assert(st.book.contains_key(k));
                }
                if incoming.quantity != q {
                    lemma_match_invariants(
                        after,
                        OrderBase { quantity: (incoming.quantity - q) as usize, ..incoming },
                        capacity,
                    );
                }
            }
        },
    }
}

/// Every sequence of submissions and cancellations conserves the sum of
/// the cash balances and the sum of the positions over all accounts. (A
/// fill between an account and itself changes nothing at all; see
/// [`lemma_self_fill_changes_nothing`].)
pub proof fn lemma_requests_conserve(st: MarketState, rs: Seq<Request>, capacity: nat)
    requires
        accounts_known(st),
    ensures
        ledger_sum(run_requests(st, rs, capacity).ledger, true) == ledger_sum(st.ledger, true),
        ledger_sum(run_requests(st, rs, capacity).ledger, false) == ledger_sum(st.ledger, false),
    decreases rs.len(),
{
    lemma_requests_keep(st, rs, capacity);
}

/// Every sequence of submissions and cancellations keeps the journal
/// within its capacity.
pub proof fn lemma_requests_bound_journal(st: MarketState, rs: Seq<Request>, capacity: nat)
    requires
        accounts_known(st),
        st.journal.len() <= capacity,
    ensures
        run_requests(st, rs, capacity).journal.len() <= capacity,
    decreases rs.len(),
{
    lemma_requests_keep(st, rs, capacity);
}

proof fn lemma_requests_keep(st: MarketState, rs: Seq<Request>, capacity: nat)
    requires
        accounts_known(st),
    ensures
        accounts_known(run_requests(st, rs, capacity)),
        ledger_sum(run_requests(st, rs, capacity).ledger, true) == ledger_sum(st.ledger, true),
        ledger_sum(run_requests(st, rs, capacity).ledger, false) == ledger_sum(st.ledger, false),
        st.journal.len() <= capacity ==> run_requests(st, rs, capacity).journal.len() <= capacity,
    decreases rs.len(),
{
    if rs.len() > 0 {
        let next = apply_request(st, rs[0], capacity);
        match rs[0] {
            Request::Submit(o) => {
                if rejection(st, o) is None {
                    let p = OrderBase { status: Status::Pending, ..o };
                    if st.journal.len() <= capacity {
                        lemma_match_invariants(st, p, capacity);
                    } else {
                        lemma_match_invariants_unbounded(st, p, capacity);
                    }
                }
            },
            Request::Cancel(id) => {
                crate::market::lemma_journal_push_members(
                    st.journal,
                    OrderBase { status: Status::Cancelled, ..st.book[id] },
                    capacity,
                );
                assert forall|k: u128| #[trigger]
                    next.book.contains_key(k) implies next.ledger.contains_key(
                    next.book[k].account_id@,
                ) by {
                    assert(st.book.contains_key(k));
                }
            },
        }
        lemma_requests_keep(next, rs.drop_first(), capacity);
    }
}

proof fn lemma_match_invariants_unbounded(st: MarketState, incoming: OrderBase, capacity: nat)
    requires
        accounts_known(st),
        st.ledger.contains_key(incoming.account_id@),
    ensures
        accounts_known(match_order(st, incoming, capacity)),
        ledger_sum(match_order(st, incoming, capacity).ledger, true) == ledger_sum(st.ledger, true),
        ledger_sum(match_order(st, incoming, capacity).ledger, false) == ledger_sum(
            st.ledger,
            false,
        ),
{
    let trimmed = MarketState { journal: Seq::empty(), ..st };
    lemma_match_invariants(trimmed, incoming, capacity);
    lemma_match_ignores_journal(st, incoming, capacity);
}

/// The book and ledger that matching produces do not depend on the journal.
proof fn lemma_match_ignores_journal(st: MarketState, incoming: OrderBase, capacity: nat)
    ensures
        match_order(st, incoming, capacity).book == match_order(
            MarketState { journal: Seq::empty(), ..st },
            incoming,
            capacity,
        ).book,
        match_order(st, incoming, capacity).ledger == match_order(
            MarketState { journal: Seq::empty(), ..st },
            incoming,
            capacity,
        ).ledger,
    decreases incoming.quantity,
{
    let other = incoming.side.flip();
    match best_of(st.book, other) {
        None => {},
        Some(best) => {
            let q = if incoming.quantity <= best.quantity {
                incoming.quantity
            } else {
                best.quantity
            };
            if crosses(best, incoming) && q != 0 && fill_fits(
                st.ledger,
                incoming.account_id@,
                best.account_id@,
                incoming.side,
                incoming.limit,
                q,
            ) && incoming.quantity != q {
                let ledger = after_fill(
                    st.ledger,
                    incoming.account_id@,
                    best.account_id@,
                    incoming.side,
                    incoming.limit,
                    q,
                );
                let left = (best.quantity - q) as usize;
                let book = if left == 0 {
                    st.book.remove(best.id)
                } else {
                    st.book.insert(best.id, OrderBase { quantity: left, ..best })
                };
                let journal = if left == 0 {
                    journal_push(
                        st.journal,
                        OrderBase { quantity: 0, status: Status::Executed, ..best },
                        capacity,
                    )
                } else {
                    st.journal
                };
                let next = OrderBase { quantity: (incoming.quantity - q) as usize, ..incoming };
                let a = MarketState { book, ledger, journal };
                lemma_match_ignores_journal(a, next, capacity);
                let journal_e = if left == 0 {
                    journal_push(
                        Seq::empty(),
                        OrderBase { quantity: 0, status: Status::Executed, ..best },
                        capacity,
                    )
                } else {
                    Seq::empty()
                };
                let b = MarketState { book, ledger, journal: journal_e };
                lemma_match_ignores_journal(b, next, capacity);
                assert(MarketState { journal: Seq::empty(), ..a } == MarketState {
                    journal: Seq::empty(),
                    ..b
                });
            }
        },
    }
}

/// The order that a side serves first has, among the orders of that side,
/// the best limit (highest bid, lowest ask) and, among those at that limit,
/// the earliest timestamp.
pub proof fn lemma_best_by_limit_and_time(book: Map<u128, OrderBase>, side: Side, o: OrderBase)
    requires
        is_best(book, side, o),
    ensures
        forall|k: u128| #[trigger]
            book.contains_key(k) && book[k].side == side ==> match side {
                Side::Bid => book[k].limit < o.limit || (book[k].limit == o.limit
                    && book[k].timestamp >= o.timestamp),
                Side::Ask => book[k].limit > o.limit || (book[k].limit == o.limit
                    && book[k].timestamp >= o.timestamp),
            },
{
    assert forall|k: u128| #[trigger] book.contains_key(k) && book[k].side == side implies match side {
        Side::Bid => book[k].limit < o.limit || (book[k].limit == o.limit && book[k].timestamp
            >= o.timestamp),
        Side::Ask => book[k].limit > o.limit || (book[k].limit == o.limit && book[k].timestamp
            >= o.timestamp),
    } by {
        assert(!outranks(book[k], o));
    }
}

/// Inserting an order and then removing it by identifier gives back that
/// order and the book as it was.
pub proof fn lemma_insert_then_remove(book: Map<u128, OrderBase>, o: OrderBase)
    requires
        !book.contains_key(o.id),
    ensures
        book.insert(o.id, o).contains_key(o.id),
        book.insert(o.id, o)[o.id] == o,
        book.insert(o.id, o).remove(o.id) == book,
{
    assert(book.insert(o.id, o).remove(o.id) =~= book);
}

/// After an order is inserted, its side serves it first exactly when no
/// order already on that side outranks it.
pub proof fn lemma_insert_then_pop(book: Map<u128, OrderBase>, o: OrderBase)
    requires
        !book.contains_key(o.id),
        forall|k: u128| #[trigger] book.contains_key(k) ==> book[k].id == k,
    ensures
        is_best(book.insert(o.id, o), o.side, o) <==> forall|k: u128| #[trigger]
            book.contains_key(k) && book[k].side == o.side ==> !outranks(book[k], o),
{
    let b = book.insert(o.id, o);
    if forall|k: u128| #[trigger] book.contains_key(k) && book[k].side == o.side ==> !outranks(book[k], o) {
        assert forall|k: u128| #[trigger] b.contains_key(k) && b[k].side == o.side implies !outranks(b[k], o) by {
            if k != o.id {
                assert(book.contains_key(k));
            }
        }
    }
    if is_best(b, o.side, o) {
        assert forall|k: u128| #[trigger] book.contains_key(k) && book[k].side == o.side implies !outranks(book[k], o) by {
            assert(b.contains_key(k));
        }
    }
}

/// A submitted order ends in one of three ways: resting with a positive
/// residual; filled in full, and then it is the newest journal entry,
/// `Executed`, and not in the book; or, when a fill could not be booked,
/// the newest journal entry as `Cancelled` with its residual, and not in
/// the book.
pub proof fn lemma_incoming_outcome(st: MarketState, incoming: OrderBase, capacity: nat)
    requires
        capacity > 0,
        incoming.quantity > 0,
        !st.book.contains_key(incoming.id),
    ensures
        ({
            let r = match_order(st, incoming, capacity);
            ||| {
                &&& r.book.contains_key(incoming.id)
                &&& r.book[incoming.id] == OrderBase {
                    quantity: r.book[incoming.id].quantity,
                    ..incoming
                }
                &&& r.book[incoming.id].quantity > 0
            }
            ||| {
                &&& !r.book.contains_key(incoming.id)
                &&& r.journal.len() > 0
                &&& r.journal.last() == OrderBase {
                    quantity: 0,
                    status: Status::Executed,
                    ..incoming
                }
            }
            ||| {
                &&& !r.book.contains_key(incoming.id)
                &&& r.journal.len() > 0
                &&& r.journal.last() == OrderBase {
                    quantity: r.journal.last().quantity,
                    status: Status::Cancelled,
                    ..incoming
                }
                &&& r.journal.last().quantity > 0
            }
        }),
    decreases incoming.quantity,
{
    let other = incoming.side.flip();
    match best_of(st.book, other) {
        None => {},
        Some(best) => {
            assert(is_best(st.book, other, best));
            let q = if incoming.quantity <= best.quantity {
                incoming.quantity
            } else {
                best.quantity
            };
            if crosses(best, incoming) && q != 0 && fill_fits(
                st.ledger,
                incoming.account_id@,
                best.account_id@,
                incoming.side,
                incoming.limit,
                q,
            ) {
                let ledger = after_fill(
                    st.ledger,
                    incoming.account_id@,
                    best.account_id@,
                    incoming.side,
                    incoming.limit,
                    q,
                );
                let left = (best.quantity - q) as usize;
                let book = if left == 0 {
                    st.book.remove(best.id)
                } else {
                    st.book.insert(best.id, OrderBase { quantity: left, ..best })
                };
                let journal = if left == 0 {
                    journal_push(
                        st.journal,
                        OrderBase { quantity: 0, status: Status::Executed, ..best },
                        capacity,
                    )
                } else {
                    st.journal
                };
                assert(best.id != incoming.id);
                if incoming.quantity != q {
                    lemma_incoming_outcome(
                        MarketState { book, ledger, journal },
                        OrderBase { quantity: (incoming.quantity - q) as usize, ..incoming },
                        capacity,
                    );
                }
            }
        },
    }
}

/// A cancelled order leaves the book and is the newest journal entry, with
/// status `Cancelled`.
pub proof fn lemma_cancel_outcome(st: MarketState, id: u128, capacity: nat)
    requires
        capacity > 0,
        st.book.contains_key(id),
    ensures
        !cancel_state(st, id, capacity).book.contains_key(id),
        cancel_state(st, id, capacity).journal.len() > 0,
        cancel_state(st, id, capacity).journal.last() == (OrderBase {
            status: Status::Cancelled,
            ..st.book[id]
        }),
{
}

/// The best of a list of orders of one side, found in one pass from the
/// front: an entry replaces the best so far when it outranks it.
pub open spec fn scan_best(s: Seq<OrderBase>) -> Option<OrderBase>
    decreases s.len(),
{
    if s.len() == 0 {
        None
    } else {
        match scan_best(s.drop_last()) {
            None => Some(s.last()),
            Some(b) => if outranks(s.last(), b) {
                Some(s.last())
            } else {
                Some(b)
            },
        }
    }
}

proof fn lemma_scan_best(s: Seq<OrderBase>, side: Side)
    requires
        forall|i: int| 0 <= i < s.len() ==> (#[trigger] s[i]).side == side,
    ensures
        s.len() == 0 ==> scan_best(s) is None,
        s.len() > 0 ==> (scan_best(s) matches Some(b) && s.contains(b) && forall|i: int|
            0 <= i < s.len() ==> !outranks(#[trigger] s[i], b)),
    decreases s.len(),
{
    if s.len() > 0 {
        let t = s.drop_last();
        assert forall|i: int| 0 <= i < t.len() implies (#[trigger] t[i]).side == side by {
            assert(t[i] == s[i]);
        }
        lemma_scan_best(t, side);
        let b = scan_best(s).unwrap();
        if t.len() == 0 {
            assert(s[0] == s.last());
        } else {
            let b0 = scan_best(t).unwrap();
            let j = choose|j: int| 0 <= j < t.len() && t[j] == b0;
            assert(s[j] == b0);
            assert forall|i: int| 0 <= i < s.len() implies !outranks(#[trigger] s[i], b) by {
                if i < s.len() - 1 {
                    assert(s[i] == t[i]);
                    assert(!outranks(t[i], b0));
                }
            }
        }
    }
}

/// Scanning the orders of a side one by one, in any order, finds the order
/// that the side serves first; on an empty side both find nothing.
pub proof fn lemma_peek_agrees_with_scan(book: Map<u128, OrderBase>, side: Side, s: Seq<OrderBase>)
    requires
        forall|k: u128| #[trigger] book.contains_key(k) ==> book[k].id == k,
        forall|x: OrderBase|
            #[trigger] s.contains(x) <==> (book.contains_key(x.id) && book[x.id] == x && x.side
                == side),
    ensures
        best_of(book, side) == scan_best(s),
{
    assert forall|i: int| 0 <= i < s.len() implies (#[trigger] s[i]).side == side by {
        assert(s.contains(s[i]));
    }
    lemma_scan_best(s, side);
    if s.len() == 0 {
        if exists|o: OrderBase| is_best(book, side, o) {
            let o = choose|o: OrderBase| is_best(book, side, o);
            assert(s.contains(o));
        }
    } else {
        let b = scan_best(s).unwrap();
        assert forall|k: u128| #[trigger]
            book.contains_key(k) && book[k].side == side implies !outranks(book[k], b) by {
            assert(s.contains(book[k]));
            let i = choose|i: int| 0 <= i < s.len() && s[i] == book[k];
        }
        crate::order::lemma_best_of(book, side, b);
    }
}

/// While the journal has room for every fill, matching an incoming order
/// settles each resting order one of two ways: it still rests, unchanged
/// but for a residual no larger than before, or it left the book filled in
/// full and is in the journal as `Executed` with residual 0. The journal
/// keeps its entries, and nothing new rests but the incoming order.
pub proof fn lemma_counterparty_outcome(st: MarketState, incoming: OrderBase, capacity: nat)
    requires
        st.book.dom().finite(),
        !st.book.contains_key(incoming.id),
        st.journal.len() + st.book.dom().len() + 1 <= capacity,
    ensures
        ({
            let r = match_order(st, incoming, capacity);
            &&& forall|e: OrderBase| #[trigger] st.journal.contains(e) ==> r.journal.contains(e)
            &&& forall|k: u128| #[trigger]
                r.book.contains_key(k) ==> st.book.contains_key(k) || k == incoming.id
            &&& forall|k: u128| #[trigger]
                st.book.contains_key(k) ==> {
                    ||| {
                        &&& r.book.contains_key(k)
                        &&& r.book[k] == OrderBase { quantity: r.book[k].quantity, ..st.book[k] }
                        &&& r.book[k].quantity <= st.book[k].quantity
                    }
                    ||| {
                        &&& !r.book.contains_key(k)
                        &&& r.journal.contains(
                            OrderBase { quantity: 0, status: Status::Executed, ..st.book[k] },
                        )
                    }
                }
        }),
    decreases incoming.quantity,
{
    let r = match_order(st, incoming, capacity);
    let other = incoming.side.flip();
    match best_of(st.book, other) {
        None => {},
        Some(best) => {
            assert(is_best(st.book, other, best));
            let q = if incoming.quantity <= best.quantity {
                incoming.quantity
            } else {
                best.quantity
            };
            if crosses(best, incoming) && q != 0 && fill_fits(
                st.ledger,
                incoming.account_id@,
                best.account_id@,
                incoming.side,
                incoming.limit,
                q,
            ) {
                let ledger = after_fill(
                    st.ledger,
                    incoming.account_id@,
                    best.account_id@,
                    incoming.side,
                    incoming.limit,
                    q,
                );
                let left = (best.quantity - q) as usize;
                let done_best = OrderBase { quantity: 0, status: Status::Executed, ..best };
                let book = if left == 0 {
                    st.book.remove(best.id)
                } else {
                    st.book.insert(best.id, OrderBase { quantity: left, ..best })
                };
                let journal = if left == 0 {
                    journal_push(st.journal, done_best, capacity)
                } else {
                    st.journal
                };
                let after = MarketState { book, ledger, journal };
                assert(st.book.dom().remove(best.id).len() == st.book.dom().len() - 1);
                assert(st.journal.len() + 2 <= capacity);
                if left == 0 {
                    assert(book.dom() =~= st.book.dom().remove(best.id));
                    assert(journal == st.journal.push(done_best));
                    assert(journal[journal.len() - 1] == done_best);
                    assert(journal.contains(done_best));
                } else {
                    assert(book.dom() =~= st.book.dom());
                }
                assert forall|e: OrderBase| #[trigger] st.journal.contains(e) implies journal.contains(
                    e,
                ) by {
                    if left == 0 {
                        let i = choose|i: int| 0 <= i < st.journal.len() && st.journal[i] == e;
                        assert(journal[i] == e);
                    }
                }
                if incoming.quantity == q {
                    let done_in = OrderBase { quantity: 0, status: Status::Executed, ..incoming };
                    assert(r.journal == journal.push(done_in));
                    assert forall|e: OrderBase| #[trigger] journal.contains(e) implies r.journal.contains(
                        e,
                    ) by {
                        let i = choose|i: int| 0 <= i < journal.len() && journal[i] == e;
                        assert(r.journal[i] == e);
                    }
                } else {
                    let next = OrderBase { quantity: (incoming.quantity - q) as usize, ..incoming };
                    lemma_counterparty_outcome(after, next, capacity);
                    assert forall|k: u128| #[trigger] st.book.contains_key(k) implies {
                        ||| {
                            &&& r.book.contains_key(k)
                            &&& r.book[k] == OrderBase { quantity: r.book[k].quantity, ..st.book[k] }
                            &&& r.book[k].quantity <= st.book[k].quantity
                        }
                        ||| {
                            &&& !r.book.contains_key(k)
                            &&& r.journal.contains(
                                OrderBase { quantity: 0, status: Status::Executed, ..st.book[k] },
                            )
                        }
                    } by {
                        if k == best.id && left == 0 {
                            assert(!after.book.contains_key(k));
                            assert(journal.contains(done_best));
                        } else {
                            assert(after.book.contains_key(k));
                        }
                    }
                }
            } else if crosses(best, incoming) && q != 0 {
                let dropped = OrderBase { status: Status::Cancelled, ..incoming };
                assert(r.journal == st.journal.push(dropped));
                assert forall|e: OrderBase| #[trigger] st.journal.contains(e) implies r.journal.contains(
                    e,
                ) by {
                    let i = choose|i: int| 0 <= i < st.journal.len() && st.journal[i] == e;
                    assert(r.journal[i] == e);
                }
            }
        },
    }
}

/// When every order on the side opposite an incoming order belongs to the
/// incoming order's own account, every fill is a trade of that account with
/// itself, and matching leaves every balance and position as it was.
pub proof fn lemma_self_trades_change_nothing(st: MarketState, incoming: OrderBase, capacity: nat)
    requires
        forall|k: u128| #[trigger]
            st.book.contains_key(k) && st.book[k].side == incoming.side.flip()
                ==> st.book[k].account_id@ == incoming.account_id@,
    ensures
        match_order(st, incoming, capacity).ledger == st.ledger,
    decreases incoming.quantity,
{
    let other = incoming.side.flip();
    match best_of(st.book, other) {
        None => {},
        Some(best) => {
            assert(is_best(st.book, other, best));
            assert(best.account_id@ == incoming.account_id@);
            let q = if incoming.quantity <= best.quantity {
                incoming.quantity
            } else {
                best.quantity
            };
            if crosses(best, incoming) && q != 0 && incoming.quantity != q {
                let left = (best.quantity - q) as usize;
                let book = if left == 0 {
                    st.book.remove(best.id)
                } else {
                    st.book.insert(best.id, OrderBase { quantity: left, ..best })
                };
                let journal = if left == 0 {
                    journal_push(
                        st.journal,
                        OrderBase { quantity: 0, status: Status::Executed, ..best },
                        capacity,
                    )
                } else {
                    st.journal
                };
                let after = MarketState { book, ledger: st.ledger, journal };
                let next = OrderBase { quantity: (incoming.quantity - q) as usize, ..incoming };
                assert forall|k: u128| #[trigger]
                    after.book.contains_key(k) && after.book[k].side == next.side.flip()
                        implies after.book[k].account_id@ == next.account_id@ by {
                    assert(st.book.contains_key(k));
                }
                lemma_self_trades_change_nothing(after, next, capacity);
            }
        },
    }
}

} // verus!
