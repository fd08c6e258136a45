use vstd::prelude::*;

use crate::account::{
    after_fill,
    fill_fits,
    sufficient,
    Account,
    AccountId,
    Accounts,
};
use crate::order::{
    first_with_id,
    best_of,
    has_side,
    is_best,
    journal_push,
    lemma_best_of,
    OrderBase,
    OrderBook,
    ProcessedOrders,
};
use crate::side::{Side, Status};

verus! {

/// What the engine holds, as mathematical values: the resting orders by
/// identifier, the accounts by identifier, and the journal, oldest first.
pub struct MarketState {
    pub book: Map<u128, OrderBase>,
    pub ledger: Map<u128, Account>,
    pub journal: Seq<OrderBase>,
}

/// A resting order `best` crosses an incoming order when its limit is at
/// least as good for the incoming side: an ask at or below a bid's limit, a
/// bid at or above an ask's limit.
pub open spec fn crosses(best: OrderBase, incoming: OrderBase) -> bool {
    match incoming.side {
        Side::Bid => best.limit <= incoming.limit,
        Side::Ask => best.limit >= incoming.limit,
    }
}

/// The state with `incoming` resting in the book.
pub open spec fn rest(st: MarketState, incoming: OrderBase) -> MarketState {
    MarketState { book: st.book.insert(incoming.id, incoming), ..st }
}

/// The state with what is left of `incoming` in the journal as `Cancelled`.
pub open spec fn give_up(st: MarketState, incoming: OrderBase, capacity: nat) -> MarketState {
    MarketState {
        journal: journal_push(
            st.journal,
            OrderBase { status: Status::Cancelled, ..incoming },
            capacity,
        ),
        ..st
    }
}

/// No resting bid crosses a resting ask: every bid limit is below every ask
/// limit.
pub open spec fn uncrossed(book: Map<u128, OrderBase>) -> bool {
    forall|b: u128, a: u128|
        #![trigger book[b], book[a]]
        book.contains_key(b) && book.contains_key(a) && book[b].side == Side::Bid && book[a].side
            == Side::Ask ==> book[b].limit < book[a].limit
}

/// Matching an incoming order (status `Pending`) against the book: while
/// the best order of the other side crosses it, fill the smaller of the two
/// residuals at the incoming order's limit. An order filled in full goes to
/// the journal as `Executed`; a partly filled resting order keeps its place;
/// a residual that nothing crosses rests. A fill whose new balances or
/// positions would not fit their types is not made: matching stops there and
/// the residual goes to the journal as `Cancelled`, so that it never rests
/// across the best order opposite.
pub open spec fn match_order(st: MarketState, incoming: OrderBase, capacity: nat) -> MarketState
    decreases incoming.quantity,
{
    match best_of(st.book, incoming.side.flip()) {
        None => rest(st, incoming),
        Some(best) => {
            let q = if incoming.quantity <= best.quantity {
                incoming.quantity
            } else {
                best.quantity
            };
            if !crosses(best, incoming) || q == 0 {
                rest(st, incoming)
            } else if !fill_fits(
                st.ledger,
                incoming.account_id@,
                best.account_id@,
                incoming.side,
                incoming.limit,
                q,
            ) {
                give_up(st, incoming, capacity)
            } else {
                let ledger = after_fill(
                    st.ledger,
                    incoming.account_id@,
                    best.account_id@,
                    incoming.side,
                    incoming.limit,
                    q,
                );
                let left = (best.quantity - q) as usize;
                let book = if left == 0 {
                    st.book.remove(best.id)
                } else {
                    st.book.insert(best.id, OrderBase { quantity: left, ..best })
                };
                let journal = if left == 0 {
                    journal_push(
                        st.journal,
                        OrderBase { quantity: 0, status: Status::Executed, ..best },
                        capacity,
                    )
                } else {
                    st.journal
                };
                let after = MarketState { book, ledger, journal };
                if incoming.quantity == q {
                    MarketState {
                        journal: journal_push(
                            journal,
                            OrderBase { quantity: 0, status: Status::Executed, ..incoming },
                            capacity,
                        ),
                        ..after
                    }
                } else {
                    match_order(
                        after,
                        OrderBase { quantity: (incoming.quantity - q) as usize, ..incoming },
                        capacity,
                    )
                }
            }
        },
    }
}

/// Why an order is refused before it reaches the book.
#[derive(Debug, Clone, Copy, PartialEq, Eq, Structural)]
pub enum OrderRejection {
    /// A zero limit or quantity.
    Malformed,
    /// The account is not stored.
    UnknownAccount,
    /// An order with the same identifier rests or is in the journal.
    DuplicateId,
    /// The account fails the solvency rule.
    InsufficientBalance,
}

/// The text that describes each rejection.
pub open spec fn rejection_text(e: OrderRejection) -> Seq<char> {
    match e {
        OrderRejection::Malformed => "order is malformed"@,
        OrderRejection::UnknownAccount => "account does not exist"@,
        OrderRejection::DuplicateId => "order id is already in use"@,
        OrderRejection::InsufficientBalance => "insufficient balance for order"@,
    }
}

impl OrderRejection {
    /// A short description of the rejection.
    pub fn message(&self) -> (r: &'static str)
        ensures
            r@ == rejection_text(*self),
    {
        match self {
            OrderRejection::Malformed => "order is malformed",
            OrderRejection::UnknownAccount => "account does not exist",
            OrderRejection::DuplicateId => "order id is already in use",
            OrderRejection::InsufficientBalance => "insufficient balance for order",
        }
    }
}

/// Whether an entry of the journal has identifier `id`.
pub open spec fn journal_has_id(journal: Seq<OrderBase>, id: u128) -> bool {
    exists|i: int| 0 <= i < journal.len() && journal[i].id == id
}

/// The first admission rule that `order` breaks for `account`, if any: the
/// order is well formed (positive limit and quantity), the account is
/// stored, and the account passes the solvency rule.
pub open spec fn validation_failure(st: MarketState, order: OrderBase, account: u128) -> Option<
    OrderRejection,
> {
    if order.limit == 0 || order.quantity == 0 {
        Some(OrderRejection::Malformed)
    } else if !st.ledger.contains_key(account) {
        Some(OrderRejection::UnknownAccount)
    } else if !sufficient(st.ledger[account], order.side, order.limit, order.quantity) {
        Some(OrderRejection::InsufficientBalance)
    } else {
        None
    }
}

/// Why a submitted order is refused, if it is: it fails validation for its
/// own account, or its identifier rests in the book or is in the journal.
pub open spec fn rejection(st: MarketState, order: OrderBase) -> Option<OrderRejection> {
    if validation_failure(st, order, order.account_id@) is Some {
        validation_failure(st, order, order.account_id@)
    } else if st.book.contains_key(order.id) || journal_has_id(st.journal, order.id) {
        Some(OrderRejection::DuplicateId)
    } else {
        None
    }
}

/// The state after a submitted order: matched when it passes validation,
/// unchanged otherwise.
pub open spec fn submit_state(st: MarketState, order: OrderBase, capacity: nat) -> MarketState {
    if rejection(st, order) is None {
        match_order(st, OrderBase { status: Status::Pending, ..order }, capacity)
    } else {
        st
    }
}

/// The state after cancelling `id`: a resting order leaves the book and
/// enters the journal as `Cancelled`; otherwise nothing changes.
pub open spec fn cancel_state(st: MarketState, id: u128, capacity: nat) -> MarketState {
    if st.book.contains_key(id) {
        MarketState {
            book: st.book.remove(id),
            journal: journal_push(
                st.journal,
                OrderBase { status: Status::Cancelled, ..st.book[id] },
                capacity,
            ),
            ..st
        }
    } else {
        st
    }
}

/// The matching engine: the book, the accounts and the journal of finished
/// orders.
#[derive(Debug)]
pub struct Market {
    pub order_book: OrderBook,
    pub accounts: Accounts,
    pub processed_orders: ProcessedOrders,
}

impl Market {
    pub open spec fn state(&self) -> MarketState {
        MarketState {
            book: self.order_book@,
            ledger: self.accounts@,
            journal: self.processed_orders@,
        }
    }

    pub open spec fn capacity(&self) -> nat {
        self.processed_orders.capacity()
    }

    /// Every resting order is `Pending` and belongs to a stored account;
    /// every journal entry is `Executed` or `Cancelled`; no order is both
    /// resting and in the journal.
    pub open spec fn wf(&self) -> bool {
        &&& self.order_book.wf()
        &&& self.accounts.wf()
        &&& self.processed_orders.wf()
        &&& state_wf(self.state())
    }

    /// Runs an incoming order against the book, as [`match_order`] says:
    /// the order becomes `Pending`, takes what crosses it on the other side,
    /// and what is left of it rests. A fill whose new balances or positions
    /// would not fit `i64` / `i32` is not made: matching stops there and the
    /// residual rests, even though it crosses the best order opposite.
    pub fn handle_incoming_order(&mut self, order: OrderBase)
        requires
            old(self).wf(),
            order.quantity > 0,
            old(self).accounts@.contains_key(order.account_id@),
            !old(self).order_book@.contains_key(order.id),
            forall|e: OrderBase| #[trigger] old(self).processed_orders@.contains(e) ==> e.id != order.id,
        ensures
            final(self).wf(),
            final(self).capacity() == old(self).capacity(),
            final(self).state() == match_order(
                old(self).state(),
                OrderBase { status: Status::Pending, ..order },
                old(self).capacity(),
            ),
            uncrossed(final(self).order_book@),
    {
        let ghost cap = self.capacity();
        let ghost first = OrderBase { status: Status::Pending, ..order };
        let ghost target = match_order(self.state(), first, cap);
        let side = order.side;
        let other = side.opposite();
        let mut incoming = order;
        incoming.status = Status::Pending;
        loop
            invariant
                self.wf(),
                cap == old(self).capacity(),
                first == (OrderBase { status: Status::Pending, ..order }),
                target == match_order(old(self).state(), first, cap),
                self.capacity() == cap,
                incoming == (OrderBase { quantity: incoming.quantity, ..first }),
                incoming.quantity > 0,
                side == incoming.side,
                other == side.flip(),
                self.accounts@.contains_key(incoming.account_id@),
                !self.order_book@.contains_key(incoming.id),
                forall|e: OrderBase| #[trigger]
                    self.processed_orders@.contains(e) ==> e.id != incoming.id,
                match_order(self.state(), incoming, cap) == target,
            ensures
                match_order(self.state(), incoming, cap) == rest(self.state(), incoming),
                forall|k: u128| #[trigger]
                    self.order_book@.contains_key(k) && self.order_book@[k].side == other
                        ==> !crosses(self.order_book@[k], incoming),
            decreases incoming.quantity,
        {
            proof {
                self.order_book.lemma_wf();
            }
            let best = match self.order_book.peek(other) {
                None => {
                    proof {
                        if exists|o: OrderBase| is_best(self.order_book@, other, o) {
                            let o = choose|o: OrderBase| is_best(self.order_book@, other, o);
                            assert(self.order_book@.contains_key(o.id));
                            assert(has_side(self.order_book@, other));
                        }
                        assert(best_of(self.order_book@, other) is None);
                        assert forall|k: u128| #[trigger]
                            self.order_book@.contains_key(k) && self.order_book@[k].side == other
                                implies !crosses(self.order_book@[k], incoming) by {
                            assert(has_side(self.order_book@, other));
                        }
                    }
                    break ;
                },
                Some(b) => *b,
            };
            proof {
                lemma_best_of(self.order_book@, other, best);
            }
            let crossing = match side {
                Side::Bid => best.limit <= incoming.limit,
                Side::Ask => best.limit >= incoming.limit,
            };
            if !crossing {
                proof {
                    lemma_best_not_crossing(self.order_book@, other, best, incoming);
                }
                break ;
            }
            let q = if incoming.quantity <= best.quantity {
                incoming.quantity
            } else {
                best.quantity
            };
            let ghost before = self.state();
            let ghost ord_before = incoming;
            assert(self.accounts@.contains_key(best.account_id@));
            let booked = self.accounts.handle_transaction(
                incoming.account_id,
                best.account_id,
                side,
                incoming.limit,
                q,
            );
            if !booked {
                incoming.status = Status::Cancelled;
                proof {
                    lemma_journal_push_members(self.processed_orders@, incoming, cap);
                }
                self.processed_orders.push(incoming);
                assert(self.state() == match_order(before, ord_before, cap));
                return ;
            }
            proof {
                lemma_fill_keeps_accounts(
                    before.ledger,
                    incoming.account_id@,
                    best.account_id@,
                    side,
                    incoming.limit,
                    q,
                );
            }
            let popped = self.order_book.pop(other);
            let mut matched = popped.unwrap();
            proof {
                crate::order::lemma_best_unique(before.book, other, matched, best);
            }
            matched.quantity = matched.quantity - q;
            if matched.quantity == 0 {
                matched.status = Status::Executed;
                proof {
                    lemma_journal_push_members(self.processed_orders@, matched, cap);
                }
                self.processed_orders.push(matched);
            } else {
                self.order_book.insert_order(matched);
                assert(self.order_book@ =~= before.book.insert(best.id, matched));
            }
            proof {
                lemma_uncrossed_kept(before.book, self.order_book@);
            }
            incoming.quantity = incoming.quantity - q;
            let ghost after = self.state();
            if incoming.quantity == 0 {
                incoming.status = Status::Executed;
                proof {
                    lemma_journal_push_members(self.processed_orders@, incoming, cap);
                }
                self.processed_orders.push(incoming);
                assert(self.state() == match_order(before, ord_before, cap));
                return ;
            }
            assert(match_order(before, ord_before, cap) == match_order(after, incoming, cap));
        }
        let ghost resting = self.order_book@;
        self.order_book.insert_order(incoming);
        proof {
            lemma_uncrossed_insert(resting, incoming);
        }
    }

    /// Submits `order`: when it passes validation for its own account and
    /// its identifier is not in use, runs it against the book.
    pub fn submit_order(&mut self, order: OrderBase) -> (r: Result<(), OrderRejection>)
        requires
            old(self).wf(),
        ensures
            final(self).wf(),
            final(self).capacity() == old(self).capacity(),
            r == match rejection(old(self).state(), order) {
                None => Ok::<(), OrderRejection>(()),
                Some(e) => Err(e),
            },
            final(self).state() == submit_state(old(self).state(), order, old(self).capacity()),
    {
        match self.validate_order(&order, order.account_id) {
            Ok(()) => {},
            Err(e) => return Err(e),
        }
        if !self.is_fresh_id(order.id) {
            return Err(OrderRejection::DuplicateId);
        }
        self.handle_incoming_order(order);
        Ok(())
    }

    /// Whether no order with identifier `id` rests or is in the journal.
    pub fn is_fresh_id(&self, id: u128) -> (r: bool)
        requires
            self.wf(),
        ensures
            r == !(self.order_book@.contains_key(id) || journal_has_id(self.processed_orders@, id)),
            r ==> forall|e: OrderBase| #[trigger] self.processed_orders@.contains(e) ==> e.id != id,
    {
        if self.order_book.find_order(id).is_some() {
            return false;
        }
        let in_journal = self.processed_orders.find_order(id);
        proof {
            if journal_has_id(self.processed_orders@, id) {
                assert(first_with_id(self.processed_orders@, id) is Some);
            }
            assert forall|e: OrderBase| #[trigger]
                self.processed_orders@.contains(e) implies in_journal is Some || e.id != id by {
                if e.id == id {
                    let i = choose|i: int|
                        0 <= i < self.processed_orders@.len() && self.processed_orders@[i] == e;
                    assert(journal_has_id(self.processed_orders@, id));
                }
            }
        }
        in_journal.is_none()
    }

    /// Checks an order before it may enter the book: it is well formed,
    /// `account_id` is stored, and that account passes the solvency rule.
    pub fn validate_order(&self, order: &OrderBase, account_id: AccountId) -> (r: Result<
        (),
        OrderRejection,
    >)
        requires
            self.wf(),
        ensures
            r == match validation_failure(self.state(), *order, account_id@) {
                None => Ok::<(), OrderRejection>(()),
                Some(e) => Err(e),
            },
    {
        if order.limit == 0 || order.quantity == 0 {
            return Err(OrderRejection::Malformed);
        }
        if self.accounts.check_uuid(account_id.as_uuid()).is_none() {
            return Err(OrderRejection::UnknownAccount);
        }
        if !self.accounts.check_sufficient_balance(account_id, order) {
            return Err(OrderRejection::InsufficientBalance);
        }
        Ok(())
    }

    /// Cancels the resting order `order_id`: it leaves the book and enters
    /// the journal as `Cancelled`, and a copy comes back. `None`, and no
    /// change, when no such order rests.
    pub fn delete_order_by_id(&mut self, order_id: u128) -> (r: Option<OrderBase>)
        requires
            old(self).wf(),
        ensures
            final(self).wf(),
            final(self).capacity() == old(self).capacity(),
            final(self).state() == cancel_state(old(self).state(), order_id, old(self).capacity()),
            r == if old(self).order_book@.contains_key(order_id) {
                Some(OrderBase { status: Status::Cancelled, ..old(self).order_book@[order_id] })
            } else {
                None
            },
    {
        match self.order_book.delete_order(order_id) {
            None => {
                assert(self.order_book@ =~= old(self).order_book@);
                None
            },
            Some(order) => {
                let mut cancelled = order;
                cancelled.status = Status::Cancelled;
                proof {
                    lemma_journal_push_members(self.processed_orders@, cancelled, self.capacity());
                }
                self.processed_orders.push(cancelled);
                proof {
                    old(self).order_book.lemma_wf();
                    let st = self.state();
                    assert forall|k: u128| #[trigger] st.book.contains_key(k) implies {
                        &&& st.book[k].status == Status::Pending
                        &&& st.ledger.contains_key(st.book[k].account_id@)
                    } by {
                        assert(old(self).order_book@.contains_key(k));
                    }
                    assert forall|e: OrderBase| #[trigger] st.journal.contains(e) implies {
                        &&& e.status == Status::Executed || e.status == Status::Cancelled
                        &&& !st.book.contains_key(e.id)
                    } by {
                        if e != cancelled {
                            let st0 = old(self).state();
                            assert(state_wf(st0));
                            assert(st0.journal.contains(e));
                            assert(!st0.book.contains_key(e.id));
                        } else {
                            assert(e.id == order_id);
                            assert(e.status == Status::Cancelled);
                        }
                    }
                }
                Some(cancelled)
            },
        }
    }

    /// The order `order_id`: from the book if it rests there, else the
    /// oldest journal entry with that identifier.
    pub fn get_order_by_id(&self, order_id: u128) -> (r: Option<&OrderBase>)
        requires
            self.wf(),
        ensures
            r == if self.order_book@.contains_key(order_id) {
                Some(&self.order_book@[order_id])
            } else {
                match first_with_id(self.processed_orders@, order_id) {
                    Some(o) => Some(&o),
                    None => None,
                }
            },
    {
        match self.order_book.find_order(order_id) {
            Some(o) => Some(o),
            None => self.processed_orders.find_order(order_id),
        }
    }

    /// The account's resting orders, in no particular order, then its
    /// journal entries, oldest first.
    pub fn get_orders_by_account(&self, account_id: AccountId) -> (r: Vec<OrderBase>)
        requires
            self.wf(),
        ensures
            exists|n: int|
                0 <= n <= r@.len() && r@.subrange(n, r@.len() as int)
                    == self.processed_orders@.filter(
                    |o: OrderBase| o.account_id@ == account_id@,
                ) && (forall|i: int|
                    0 <= i < n ==> {
                        &&& self.order_book@.contains_key(#[trigger] r@[i].id)
                        &&& self.order_book@[r@[i].id] == r@[i]
                        &&& r@[i].account_id@ == account_id@
                    }) && (forall|k: u128| #[trigger]
                    self.order_book@.contains_key(k) && self.order_book@[k].account_id@
                        == account_id@ ==> r@.subrange(0, n).contains(self.order_book@[k])),
    {
        let mut resting = self.order_book.filter_order_by_account(account_id);
        let ghost n = resting@.len() as int;
        let ghost resting0 = resting@;
        let mut finished = self.processed_orders.filter_order_by_account(account_id);
        resting.append(&mut finished);
        assert(resting@.subrange(0, n) =~= resting0);
        assert(resting@.subrange(n, resting@.len() as int) =~= self.processed_orders@.filter(
            |o: OrderBase| o.account_id@ == account_id@,
        ));
        resting
    }

    /// The best ask and the best bid, if any.
    pub fn quote(&self) -> (r: (Option<&OrderBase>, Option<&OrderBase>))
        requires
            self.wf(),
        ensures
            match r.0 {
                None => !has_side(self.order_book@, Side::Ask),
                Some(o) => is_best(self.order_book@, Side::Ask, *o),
            },
            match r.1 {
                None => !has_side(self.order_book@, Side::Bid),
                Some(o) => is_best(self.order_book@, Side::Bid, *o),
            },
    {
        (self.order_book.peek(Side::Ask), self.order_book.peek(Side::Bid))
    }

    /// Opens an account with a freshly drawn identifier. Fails, changing
    /// nothing, when the drawn identifier is taken already.
    pub fn new_account(&mut self, account_balance: i64, position: i32) -> (r: Result<
        AccountId,
        &'static str,
    >)
        requires
            old(self).wf(),
        ensures
            final(self).wf(),
            final(self).capacity() == old(self).capacity(),
            final(self).order_book@ == old(self).order_book@,
            final(self).processed_orders@ == old(self).processed_orders@,
            match r {
                Ok(h) => {
                    &&& !old(self).accounts@.contains_key(h@)
                    &&& final(self).accounts@ == old(self).accounts@.insert(
                        h@,
                        Account { id: h@, account_balance, position },
                    )
                },
                Err(_) => {
                    &&& final(self).accounts@ == old(self).accounts@
                    &&& old(self).accounts@.dom().len() > 0
                },
            },
    {
        let r = self.accounts.create_new_account(account_balance, position);
        proof {
            let st = self.state();
            assert forall|k: u128| #[trigger] st.book.contains_key(k) implies {
                &&& st.book[k].status == Status::Pending
                &&& st.ledger.contains_key(st.book[k].account_id@)
            } by {
                assert(old(self).accounts@.contains_key(st.book[k].account_id@));
            }
            let st0 = old(self).state();
            assert(st0.journal == st.journal);
            assert(st0.book == st.book);
            assert forall|e: OrderBase| #[trigger] st.journal.contains(e) implies {
                &&& e.status == Status::Executed || e.status == Status::Cancelled
                &&& !st.book.contains_key(e.id)
            } by {
                assert(st0.journal.contains(e));
            }
        }
        match r {
            Some(h) => Ok(h),
            None => Err("account identifier already in use"),
        }
    }

    /// The handle of the stored account with identifier `uuid`, if any.
    pub fn check_uuid(&self, uuid: u128) -> (r: Option<AccountId>)
        ensures
            match r {
                Some(h) => self.accounts@.contains_key(uuid) && h@ == uuid,
                None => !self.accounts@.contains_key(uuid),
            },
    {
        self.accounts.check_uuid(uuid)
    }

    /// The same as [`Market::check_uuid`].
    pub fn check_account_uuid(&self, uuid: u128) -> (r: Option<AccountId>)
        ensures
            match r {
                Some(h) => self.accounts@.contains_key(uuid) && h@ == uuid,
                None => !self.accounts@.contains_key(uuid),
            },
    {
        self.check_uuid(uuid)
    }

    pub fn get_account(&self, account_id: &AccountId) -> (r: &Account)
        requires
            self.accounts@.contains_key(account_id@),
        ensures
            *r == self.accounts@[account_id@],
    {
        self.accounts.get(account_id)
    }

    pub fn new() -> (r: Market)
        ensures
            r.wf(),
            r.state().book.dom() == Set::<u128>::empty(),
            r.state().ledger.dom() == Set::<u128>::empty(),
            r.state().journal == Seq::<OrderBase>::empty(),
            r.capacity() == crate::order::DEFAULT_JOURNAL_CAPACITY,
    {
        Market {
            order_book: OrderBook::new(),
            accounts: Accounts::new(),
            processed_orders: ProcessedOrders::default(),
        }
    }
}

/// What the engine keeps true of its state.
pub open spec fn state_wf(st: MarketState) -> bool {
    &&& st.ledger.dom().finite()
    &&& forall|k: u128| #[trigger]
        st.book.contains_key(k) ==> {
            &&& st.book[k].status == Status::Pending
            &&& st.ledger.contains_key(st.book[k].account_id@)
        }
    &&& forall|e: OrderBase| #[trigger]
        st.journal.contains(e) ==> {
            &&& e.status == Status::Executed || e.status == Status::Cancelled
            &&& !st.book.contains_key(e.id)
        }
    &&& uncrossed(st.book)
}

/// A book whose orders all come from an uncrossed book, on the same side at
/// the same limit, is uncrossed.
pub proof fn lemma_uncrossed_kept(old_book: Map<u128, OrderBase>, new_book: Map<u128, OrderBase>)
    requires
        uncrossed(old_book),
        forall|k: u128| #[trigger]
            new_book.contains_key(k) ==> old_book.contains_key(k) && new_book[k].side
                == old_book[k].side && new_book[k].limit == old_book[k].limit,
    ensures
        uncrossed(new_book),
{
    assert forall|b: u128, a: u128|
        new_book.contains_key(b) && new_book.contains_key(a) && new_book[b].side == Side::Bid
            && new_book[a].side == Side::Ask implies #[trigger] new_book[b].limit
        < #[trigger] new_book[a].limit by {
        assert(old_book.contains_key(b) && old_book.contains_key(a));
        assert(old_book[b].limit < old_book[a].limit);
    }
}

/// An order that nothing opposite crosses keeps an uncrossed book uncrossed.
pub proof fn lemma_uncrossed_insert(book: Map<u128, OrderBase>, o: OrderBase)
    requires
        uncrossed(book),
        !book.contains_key(o.id),
        forall|k: u128| #[trigger]
            book.contains_key(k) && book[k].side == o.side.flip() ==> !crosses(book[k], o),
    ensures
        uncrossed(book.insert(o.id, o)),
{
    let n = book.insert(o.id, o);
    assert forall|b: u128, a: u128|
        n.contains_key(b) && n.contains_key(a) && n[b].side == Side::Bid && n[a].side
            == Side::Ask implies #[trigger] n[b].limit < #[trigger] n[a].limit by {
        if b == o.id {
            assert(book.contains_key(a) && book[a].side == o.side.flip());
        } else if a == o.id {
            assert(book.contains_key(b) && book[b].side == o.side.flip());
        } else {
            assert(book[b].limit < book[a].limit);
        }
    }
}

/// When the best order of a side does not cross `incoming`, no order of
/// that side does.
pub proof fn lemma_best_not_crossing(
    book: Map<u128, OrderBase>,
    side: Side,
    best: OrderBase,
    incoming: OrderBase,
)
    requires
        is_best(book, side, best),
        side == incoming.side.flip(),
        !crosses(best, incoming),
    ensures
        forall|k: u128| #[trigger]
            book.contains_key(k) && book[k].side == side ==> !crosses(book[k], incoming),
{
    assert forall|k: u128| #[trigger]
        book.contains_key(k) && book[k].side == side implies !crosses(book[k], incoming) by {
        assert(!crate::order::outranks(book[k], best));
    }
}

/// An entry of the journal after a push is the pushed order or an entry
/// from before.
pub proof fn lemma_journal_push_members(s: Seq<OrderBase>, o: OrderBase, capacity: nat)
    ensures
        forall|x: OrderBase| #[trigger]
            journal_push(s, o, capacity).contains(x) ==> x == o || s.contains(x),
        s.len() <= capacity ==> journal_push(s, o, capacity).len() <= capacity,
{
    let t = journal_push(s, o, capacity);
    assert forall|x: OrderBase| #[trigger] t.contains(x) implies x == o || s.contains(x) by {
        let i = choose|i: int| 0 <= i < t.len() && t[i] == x;
        if capacity != 0 && x != o {
            if s.len() < capacity {
                assert(s[i] == x);
            } else {
                assert(s[i + 1] == x);
            }
        }
    }
}

/// A fill leaves the set of accounts as it was.
pub proof fn lemma_fill_keeps_accounts(
    m: Map<u128, Account>,
    aggressor: u128,
    counterparty: u128,
    side: Side,
    price: u64,
    qty: usize,
)
    requires
        m.contains_key(aggressor),
        m.contains_key(counterparty),
    ensures
        after_fill(m, aggressor, counterparty, side, price, qty).dom() == m.dom(),
        forall|k: u128| #[trigger]
            m.contains_key(k) ==> after_fill(m, aggressor, counterparty, side, price, qty)[k].id
                == m[k].id,
{
    assert(after_fill(m, aggressor, counterparty, side, price, qty).dom() =~= m.dom());
}

impl Default for Market {
    fn default() -> (r: Market)
        ensures
            r.wf(),
            r.state().book.dom() == Set::<u128>::empty(),
            r.state().ledger.dom() == Set::<u128>::empty(),
            r.state().journal == Seq::<OrderBase>::empty(),
    {
        Market::new()
    }
}

} // verus!
