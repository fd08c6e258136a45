use vstd::prelude::*;
use keyed_priority_queue::KeyedPriorityQueue;
use std::collections::HashMap;
use std::collections::VecDeque;

use crate::account::AccountId;
use crate::fresh::{clock_nanos, fresh_uuid};
use crate::side::{Side, Status};

verus! {

broadcast use vstd::std_specs::hash::group_hash_axioms;

/// The number of price ticks in one unit of currency.
pub const PRICE_SCALE: u64 = 10_000;

/// A limit order: `limit` in price ticks, `quantity` the residual quantity,
/// `timestamp` in nanoseconds since the Unix epoch.
#[derive(Debug, Clone, Copy)]
pub struct OrderBase {
    pub limit: u64,
    pub timestamp: u64,
    pub quantity: usize,
    pub side: Side,
    pub account_id: AccountId,
    pub id: u128,
    pub status: Status,
}

impl PartialEq for OrderBase {
    /// Orders are equal when their identifiers are.
    fn eq(&self, other: &OrderBase) -> (r: bool) {
        self.id == other.id
    }
}

impl vstd::std_specs::cmp::PartialEqSpecImpl for OrderBase {
    open spec fn obeys_eq_spec() -> bool {
        true
    }

    open spec fn eq_spec(&self, other: &OrderBase) -> bool {
        self.id == other.id
    }
}

impl Eq for OrderBase {
}

/// Price-time priority of two orders of one side, ignoring identifiers.
pub open spec fn price_time_order(a: OrderBase, b: OrderBase) -> core::cmp::Ordering {
    if a.limit == b.limit {
        if a.timestamp == b.timestamp {
            core::cmp::Ordering::Equal
        } else if a.timestamp < b.timestamp {
            core::cmp::Ordering::Greater
        } else {
            core::cmp::Ordering::Less
        }
    } else if (a.side == Side::Bid && a.limit > b.limit) || (a.side == Side::Ask && a.limit
        < b.limit) {
        core::cmp::Ordering::Greater
    } else {
        core::cmp::Ordering::Less
    }
}

/// Why an order could not be built.
#[derive(Debug, Clone, Copy, PartialEq, Eq, Structural)]
pub enum BuildError {
    /// The limit price is not strictly positive.
    InvalidLimit,
    /// The quantity is zero.
    InvalidQuantity,
    /// The system clock reads earlier than the Unix epoch.
    Clock,
}

impl OrderBase {
    /// An order with the given identifier and timestamp, in status
    /// `Created`; rejected when the limit or the quantity is zero.
    pub fn build_at(
        limit: u64,
        quantity: usize,
        side: Side,
        account_id: AccountId,
        id: u128,
        timestamp: u64,
    ) -> (r: Result<OrderBase, BuildError>)
        ensures
            limit == 0 ==> r == Err::<OrderBase, BuildError>(BuildError::InvalidLimit),
            limit > 0 && quantity == 0 ==> r == Err::<OrderBase, BuildError>(
                BuildError::InvalidQuantity,
            ),
            limit > 0 && quantity > 0 ==> r == Ok::<OrderBase, BuildError>(
                OrderBase { limit, timestamp, quantity, side, account_id, id, status: Status::Created },
            ),
    {
        if limit == 0 {
            return Err(BuildError::InvalidLimit);
        }
        if quantity == 0 {
            return Err(BuildError::InvalidQuantity);
        }
        Ok(OrderBase { limit, timestamp, quantity, side, account_id, id, status: Status::Created })
    }

    /// A new order with a fresh random identifier, stamped with the current
    /// time, in status `Created`.
    pub fn build(limit: u64, quantity: usize, side: Side, account_id: AccountId) -> (r: Result<
        OrderBase,
        BuildError,
    >)
        ensures
            limit == 0 ==> r == Err::<OrderBase, BuildError>(BuildError::InvalidLimit),
            limit > 0 && quantity == 0 ==> r == Err::<OrderBase, BuildError>(
                BuildError::InvalidQuantity,
            ),
            limit > 0 && quantity > 0 ==> (r is Ok || r == Err::<OrderBase, BuildError>(
                BuildError::Clock,
            )),
            r matches Ok(o) ==> {
                &&& o.limit == limit
                &&& o.quantity == quantity
                &&& o.side == side
                &&& o.account_id == account_id
                &&& o.status == Status::Created
            },
    {
        if limit == 0 {
            return Err(BuildError::InvalidLimit);
        }
        if quantity == 0 {
            return Err(BuildError::InvalidQuantity);
        }
        match clock_nanos() {
            None => Err(BuildError::Clock),
            Some(timestamp) => OrderBase::build_at(
                limit,
                quantity,
                side,
                account_id,
                fresh_uuid(),
                timestamp,
            ),
        }
    }

    /// Compares two orders of one side by price-time priority, ignoring
    /// identifiers: `Greater` when `self` has the better limit (higher for a
    /// bid, lower for an ask) or the same limit and an earlier timestamp,
    /// `Equal` when limit and timestamp are the same.
    pub fn compare_priority(&self, other: &OrderBase) -> (r: core::cmp::Ordering)
        requires
            self.side == other.side,
        ensures
            r == price_time_order(*self, *other),
    {
        if self.limit == other.limit {
            if self.timestamp == other.timestamp {
                core::cmp::Ordering::Equal
            } else if self.timestamp < other.timestamp {
                core::cmp::Ordering::Greater
            } else {
                core::cmp::Ordering::Less
            }
        } else {
            let better = match self.side {
                Side::Bid => self.limit > other.limit,
                Side::Ask => self.limit < other.limit,
            };
            if better {
                core::cmp::Ordering::Greater
            } else {
                core::cmp::Ordering::Less
            }
        }
    }

    pub fn get_id(&self) -> (r: u128)
        ensures
            r == self.id,
    {
        self.id
    }
}


/// The key by which a side of the book orders its orders; the greatest
/// key is served first. Tuples compare lexicographically.
pub type Priority = (u64, u64, u128);

/// A side of the book: order identifiers keyed by priority.
pub type IdQueue = KeyedPriorityQueue<u128, Priority>;

#[verifier::external_type_specification]
#[verifier::external_body]
#[verifier::reject_recursive_types(TKey)]
#[verifier::reject_recursive_types(TPriority)]
#[verifier::reject_recursive_types(S)]
pub struct ExKeyedPriorityQueue<TKey, TPriority, S>(KeyedPriorityQueue<TKey, TPriority, S>) where
    TKey: std::hash::Hash + Eq,
    TPriority: Ord,
    S: std::hash::BuildHasher,
;

/// What a keyed priority queue holds: the priority of each key.
pub uninterp spec fn queue_items(q: IdQueue) -> Map<u128, Priority>;

/// The lexicographic order of std's tuples: `a <= b`.
pub open spec fn priority_le(a: Priority, b: Priority) -> bool {
    a.0 < b.0 || (a.0 == b.0 && (a.1 < b.1 || (a.1 == b.1 && a.2 <= b.2)))
}

/// Relies on `KeyedPriorityQueue::new`: an empty queue.
#[verifier::external_body]
fn queue_new() -> (r: IdQueue)
    ensures
        queue_items(r).dom() == Set::<u128>::empty(),
{
    KeyedPriorityQueue::new()
}

/// Relies on `KeyedPriorityQueue::push`: adds the key with its priority, or
/// replaces the priority of a key that is there and returns the old one.
#[verifier::external_body]
fn queue_push(q: &mut IdQueue, key: u128, priority: Priority) -> (r:
    Option<Priority>)
    ensures
        queue_items(*final(q)) == queue_items(*old(q)).insert(key, priority),
        r == if queue_items(*old(q)).contains_key(key) {
            Some(queue_items(*old(q))[key])
        } else {
            None
        },
{
    q.push(key, priority)
}

/// Relies on `KeyedPriorityQueue::peek`: a key of greatest priority, with
/// that priority; `None` on an empty queue.
#[verifier::external_body]
fn queue_peek(q: &IdQueue) -> (r: Option<(u128, Priority)>)
    ensures
        match r {
            None => queue_items(*q).dom() == Set::<u128>::empty(),
            Some((k, p)) => {
                &&& queue_items(*q).contains_key(k)
                &&& queue_items(*q)[k] == p
                &&& forall|j: u128| #[trigger]
                    queue_items(*q).contains_key(j) ==> priority_le(queue_items(*q)[j], p)
            },
        },
{
    q.peek().map(|(k, p)| (*k, *p))
}

/// Relies on `KeyedPriorityQueue::pop`: removes and returns a key of
/// greatest priority, with that priority; `None` on an empty queue.
#[verifier::external_body]
fn queue_pop(q: &mut IdQueue) -> (r: Option<(u128, Priority)>)
    ensures
        match r {
            None => {
                &&& queue_items(*old(q)).dom() == Set::<u128>::empty()
                &&& queue_items(*final(q)) == queue_items(*old(q))
            },
            Some((k, p)) => {
                &&& queue_items(*old(q)).contains_key(k)
                &&& queue_items(*old(q))[k] == p
                &&& forall|j: u128| #[trigger]
                    queue_items(*old(q)).contains_key(j) ==> priority_le(
                        queue_items(*old(q))[j],
                        p,
                    )
                &&& queue_items(*final(q)) == queue_items(*old(q)).remove(k)
            },
        },
{
    q.pop()
}

/// Relies on `KeyedPriorityQueue::remove`: takes the key out and returns its
/// priority, or `None` when the key is not there.
#[verifier::external_body]
fn queue_remove(q: &mut IdQueue, key: u128) -> (r: Option<Priority>)
    ensures
        queue_items(*final(q)) == queue_items(*old(q)).remove(key),
        r == if queue_items(*old(q)).contains_key(key) {
            Some(queue_items(*old(q))[key])
        } else {
            None
        },
{
    q.remove(&key)
}

/// Relies on `KeyedPriorityQueue::is_empty`: whether the queue holds no key.
#[verifier::external_body]
fn queue_is_empty(q: &IdQueue) -> (r: bool)
    ensures
        r == (queue_items(*q).dom() == Set::<u128>::empty()),
{
    q.is_empty()
}

/// Relies on `KeyedPriorityQueue::iter`: every key of the queue, once each,
/// in no particular order.
#[verifier::external_body]
fn queue_keys(q: &IdQueue) -> (r: Vec<u128>)
    ensures
        r@.to_set() == queue_items(*q).dom(),
        r@.no_duplicates(),
{
    q.iter().map(|(k, _)| *k).collect()
}

/// `a` is served before `b` on their side: a better limit (higher for a bid,
/// lower for an ask), then an earlier timestamp, then a smaller identifier.
pub open spec fn outranks(a: OrderBase, b: OrderBase) -> bool {
    let better_limit = match a.side {
        Side::Bid => a.limit > b.limit,
        Side::Ask => a.limit < b.limit,
    };
    better_limit || (a.limit == b.limit && (a.timestamp < b.timestamp || (a.timestamp
        == b.timestamp && a.id < b.id)))
}

/// The queue key of an order on its side.
pub open spec fn priority_of(o: OrderBase) -> Priority {
    let price = match o.side {
        Side::Bid => o.limit,
        Side::Ask => (u64::MAX - o.limit) as u64,
    };
    (price, (u64::MAX - o.timestamp) as u64, (u128::MAX - o.id) as u128)
}

/// `o` rests on `side` of `book` and nothing on that side outranks it.
pub open spec fn is_best(book: Map<u128, OrderBase>, side: Side, o: OrderBase) -> bool {
    &&& book.contains_key(o.id)
    &&& book[o.id] == o
    &&& o.side == side
    &&& forall|k: u128| #[trigger]
        book.contains_key(k) && book[k].side == side ==> !outranks(book[k], o)
}

/// Whether some order rests on `side`.
pub open spec fn has_side(book: Map<u128, OrderBase>, side: Side) -> bool {
    exists|k: u128| #[trigger] book.contains_key(k) && book[k].side == side
}

/// The order that `side` serves first, if any.
pub open spec fn best_of(book: Map<u128, OrderBase>, side: Side) -> Option<OrderBase> {
    if exists|o: OrderBase| is_best(book, side, o) {
        Some(choose|o: OrderBase| is_best(book, side, o))
    } else {
        None
    }
}

/// On one side, the queue key orders orders as `outranks` does.
pub proof fn lemma_priority_matches_rank(a: OrderBase, b: OrderBase)
    requires
        a.side == b.side,
    ensures
        priority_le(priority_of(b), priority_of(a)) <==> !outranks(b, a),
{
}

/// At most one order is best on a side.
pub proof fn lemma_best_unique(book: Map<u128, OrderBase>, side: Side, a: OrderBase, b: OrderBase)
    requires
        is_best(book, side, a),
        is_best(book, side, b),
    ensures
        a == b,
{
    assert(!outranks(book[b.id], a));
    assert(!outranks(book[a.id], b));
}

/// A best order is what `best_of` names.
pub proof fn lemma_best_of(book: Map<u128, OrderBase>, side: Side, o: OrderBase)
    requires
        is_best(book, side, o),
    ensures
        best_of(book, side) == Some(o),
{
    let c = choose|c: OrderBase| is_best(book, side, c);
    lemma_best_unique(book, side, c, o);
}

/// The two sides of resting orders, each a keyed priority queue over order
/// identifiers, and the orders themselves by identifier.
#[derive(Debug)]
pub struct OrderBook {
    bids: IdQueue,
    asks: IdQueue,
    orders: HashMap<u128, OrderBase>,
}

/// The queue of `side` holds exactly the orders of `book` on that side,
/// each under its key.
pub open spec fn side_matches(
    items: Map<u128, Priority>,
    book: Map<u128, OrderBase>,
    side: Side,
) -> bool {
    forall|k: u128|
        #![trigger items.contains_key(k)]
        #![trigger book.contains_key(k)]
        (items.contains_key(k) <==> (book.contains_key(k) && book[k].side == side)) && (
        items.contains_key(k) ==> items[k] == priority_of(book[k]))
}

impl OrderBook {
    /// The resting orders by identifier.
    pub closed spec fn view(&self) -> Map<u128, OrderBase> {
        self.orders@
    }

    pub closed spec fn wf(&self) -> bool {
        &&& self.orders@.dom().finite()
        &&& forall|k: u128| #[trigger]
            self.orders@.contains_key(k) ==> self.orders@[k].id == k && self.orders@[k].quantity
                > 0
        &&& side_matches(queue_items(self.bids), self.orders@, Side::Bid)
        &&& side_matches(queue_items(self.asks), self.orders@, Side::Ask)
    }

    /// What holds of the resting orders of a well-formed book.
    pub proof fn lemma_wf(&self)
        requires
            self.wf(),
        ensures
            self@.dom().finite(),
            forall|k: u128| #[trigger]
                self@.contains_key(k) ==> self@[k].id == k && self@[k].quantity > 0,
    {
    }

    pub fn new() -> (r: OrderBook)
        ensures
            r.wf(),
            r@.dom() == Set::<u128>::empty(),
    {
        OrderBook { bids: queue_new(), asks: queue_new(), orders: HashMap::new() }
    }

    /// Places `order` on its side of the book.
    pub fn insert_order(&mut self, order: OrderBase)
        requires
            old(self).wf(),
            order.quantity > 0,
            !old(self)@.contains_key(order.id),
        ensures
            final(self).wf(),
            final(self)@ == old(self)@.insert(order.id, order),
    {
        let p = priority(&order);
        match order.side {
            Side::Ask => {
                queue_push(&mut self.asks, order.id, p);
            },
            Side::Bid => {
                queue_push(&mut self.bids, order.id, p);
            },
        }
        self.orders.insert(order.id, order);
    }

    /// The order that `side` serves first, if any. Nothing changes.
    pub fn peek(&self, side: Side) -> (r: Option<&OrderBase>)
        requires
            self.wf(),
        ensures
            match r {
                None => !has_side(self@, side),
                Some(o) => is_best(self@, side, *o),
            },
    {
        let top = match side {
            Side::Ask => queue_peek(&self.asks),
            Side::Bid => queue_peek(&self.bids),
        };
        match top {
            None => {
                proof {
                    self.lemma_side_empty(side);
                }
                None
            },
            Some((k, _)) => {
                proof {
                    self.lemma_top_is_best(side, k);
                }
                self.orders.get(&k)
            },
        }
    }

    /// Removes and returns the order that `side` serves first, if any.
    pub fn pop(&mut self, side: Side) -> (r: Option<OrderBase>)
        requires
            old(self).wf(),
        ensures
            final(self).wf(),
            match r {
                None => !has_side(old(self)@, side) && final(self)@ == old(self)@,
                Some(o) => is_best(old(self)@, side, o) && final(self)@ == old(self)@.remove(o.id),
            },
    {
        let top = match side {
            Side::Ask => queue_pop(&mut self.asks),
            Side::Bid => queue_pop(&mut self.bids),
        };
        match top {
            None => {
                proof {
                    old(self).lemma_side_empty(side);
                }
                None
            },
            Some((k, _)) => {
                proof {
                    old(self).lemma_top_is_best(side, k);
                }
                self.orders.remove(&k)
            },
        }
    }

    /// Whether no order rests on `side`.
    pub fn is_empty(&self, side: Side) -> (r: bool)
        requires
            self.wf(),
        ensures
            r == !has_side(self@, side),
    {
        let r = match side {
            Side::Ask => queue_is_empty(&self.asks),
            Side::Bid => queue_is_empty(&self.bids),
        };
        proof {
            if r {
                self.lemma_side_empty(side);
            } else {
                let q = if side == Side::Ask {
                    self.asks
                } else {
                    self.bids
                };
                if !(exists|k: u128| queue_items(q).dom().contains(k)) {
                    assert(queue_items(q).dom() =~= Set::<u128>::empty());
                }
                let k = choose|k: u128| queue_items(q).dom().contains(k);
                assert(queue_items(q).contains_key(k));
                assert(self@.contains_key(k) && self@[k].side == side);
            }
        }
        r
    }

    /// Takes the order with identifier `order_id` out of the book, from
    /// whichever side holds it.
    pub fn delete_order(&mut self, order_id: u128) -> (r: Option<OrderBase>)
        requires
            old(self).wf(),
        ensures
            final(self).wf(),
            final(self)@ == old(self)@.remove(order_id),
            r == if old(self)@.contains_key(order_id) {
                Some(old(self)@[order_id])
            } else {
                None
            },
    {
        let from_asks = queue_remove(&mut self.asks, order_id);
        let from_bids = queue_remove(&mut self.bids, order_id);
        let r = self.orders.remove(&order_id);
        proof {
            assert(self.orders@ =~= old(self).orders@.remove(order_id));
        }
        r
    }

    /// The resting order with identifier `order_id`, if any.
    pub fn find_order(&self, order_id: u128) -> (r: Option<&OrderBase>)
        requires
            self.wf(),
        ensures
            r == if self@.contains_key(order_id) {
                Some(&self@[order_id])
            } else {
                None
            },
    {
        self.orders.get(&order_id)
    }

    /// Every resting order of the account, once each, in no particular order.
    pub fn filter_order_by_account(&self, account_id: AccountId) -> (r: Vec<OrderBase>)
        requires
            self.wf(),
        ensures
            forall|i: int|
                0 <= i < r@.len() ==> {
                    &&& self@.contains_key(#[trigger] r@[i].id)
                    &&& self@[r@[i].id] == r@[i]
                    &&& r@[i].account_id@ == account_id@
                },
            forall|k: u128| #[trigger]
                self@.contains_key(k) && self@[k].account_id@ == account_id@ ==> r@.contains(
                    self@[k],
                ),
            forall|i: int, j: int| 0 <= i < j < r@.len() ==> r@[i].id != r@[j].id,
    {
        let mut out: Vec<OrderBase> = Vec::new();
        let bid_keys = queue_keys(&self.bids);
        proof {
            self.lemma_keys_of_side(bid_keys@, Side::Bid);
        }
        self.collect_account_orders(&bid_keys, Ghost(Side::Bid), account_id, &mut out);
        let ask_keys = queue_keys(&self.asks);
        proof {
            self.lemma_keys_of_side(ask_keys@, Side::Ask);
        }
        self.collect_account_orders(&ask_keys, Ghost(Side::Ask), account_id, &mut out);
        proof {
            assert forall|k: u128| #[trigger]
                self@.contains_key(k) && self@[k].account_id@ == account_id@ implies out@.contains(
                self@[k],
            ) by {
                if self@[k].side == Side::Bid {
                    let m = choose|m: int| 0 <= m < out@.len() && out@[m] == self@[k];
                    assert(out@[m] == self@[k]);
                }
            }
        }
        out
    }

    /// Appends to `out` the orders of the account among those of `keys`,
    /// which are the keys of the queue of `side`.
    fn collect_account_orders(
        &self,
        keys: &Vec<u128>,
        side: Ghost<Side>,
        account_id: AccountId,
        out: &mut Vec<OrderBase>,
    )
        requires
            self.wf(),
            keys@.no_duplicates(),
            forall|k: u128| #[trigger]
                keys@.contains(k) <==> self@.contains_key(k) && self@[k].side == side@,
            forall|i: int|
                0 <= i < old(out)@.len() ==> {
                    &&& self@.contains_key(#[trigger] old(out)@[i].id)
                    &&& self@[old(out)@[i].id] == old(out)@[i]
                    &&& old(out)@[i].account_id@ == account_id@
                    &&& old(out)@[i].side != side@
                },
            forall|i: int, j: int| 0 <= i < j < old(out)@.len() ==> old(out)@[i].id != old(out)@[j].id,
        ensures
            forall|i: int|
                0 <= i < final(out)@.len() ==> {
                    &&& self@.contains_key(#[trigger] final(out)@[i].id)
                    &&& self@[final(out)@[i].id] == final(out)@[i]
                    &&& final(out)@[i].account_id@ == account_id@
                },
            forall|i: int, j: int|
                0 <= i < j < final(out)@.len() ==> final(out)@[i].id != final(out)@[j].id,
            forall|i: int| 0 <= i < old(out)@.len() ==> final(out)@[i] == old(out)@[i],
            forall|i: int| old(out)@.len() <= i < final(out)@.len() ==> final(out)@[i].side == side@,
            final(out)@.len() >= old(out)@.len(),
            forall|k: u128| #[trigger]
                self@.contains_key(k) && self@[k].side == side@ && self@[k].account_id@
                    == account_id@ ==> final(out)@.contains(self@[k]),
    {
        let ghost start = out@.len();
        let mut i: usize = 0;
        assert(out@ == old(out)@);
        assert forall|m: int| 0 <= m < start implies (#[trigger] old(out)@[m]).side != side@ by {
            assert(self@.contains_key(old(out)@[m].id));
        }
        while i < keys.len()
            invariant
                self.wf(),
                keys@.no_duplicates(),
                forall|k: u128| #[trigger]
                    keys@.contains(k) <==> self@.contains_key(k) && self@[k].side == side@,
                start == old(out)@.len(),
                start <= out@.len(),
                i <= keys@.len(),
                forall|m: int|
                    0 <= m < out@.len() ==> {
                        &&& self@.contains_key(#[trigger] out@[m].id)
                        &&& self@[out@[m].id] == out@[m]
                        &&& out@[m].account_id@ == account_id@
                    },
                forall|m: int| 0 <= m < start ==> out@[m] == old(out)@[m],
                forall|m: int| 0 <= m < start ==> (#[trigger] old(out)@[m]).side != side@,
                forall|m: int| start <= m < out@.len() ==> (#[trigger] out@[m]).side == side@,
                forall|m: int|
                    start <= m < out@.len() ==> exists|j: int|
                        0 <= j < i && keys@[j] == #[trigger] out@[m].id,
                forall|a: int, b: int| 0 <= a < b < out@.len() ==> out@[a].id != out@[b].id,
                forall|j: int|
                    0 <= j < i && self@[#[trigger] keys@[j]].account_id@ == account_id@
                        ==> out@.contains(self@[keys@[j]]),
            decreases keys@.len() - i,
        {
            let k = keys[i];
            assert(keys@.contains(k));
            let o = self.orders.get(&k).unwrap();
            if o.account_id.same(account_id) {
                let ghost before = out@;
                assert forall|m: int| 0 <= m < before.len() implies before[m].id != k by {
                    if m >= start {
                        let j = choose|j: int| 0 <= j < i && keys@[j] == before[m].id;
                        assert(keys@[j] != keys@[i as int]);
                    } else {
                        assert(self@.contains_key(old(out)@[m].id));
                        assert(before[m] == old(out)@[m]);
                        assert(old(out)@[m].side != side@);
                    }
                }
                out.push(*o);
                assert(out@[before.len() as int] == *o);
                assert(o.side == side@);
                assert forall|j: int|
                    0 <= j <= i && self@[#[trigger] keys@[j]].account_id@ == account_id@
                        implies out@.contains(self@[keys@[j]]) by {
                    if j < i {
                        let m = choose|m: int| 0 <= m < before.len() && before[m] == self@[keys@[j]];
                        assert(out@[m] == before[m]);
                    } else {
                        assert(out@[before.len() as int] == self@[keys@[j]]);
                    }
                }
                assert forall|m: int| start <= m < out@.len() implies exists|j: int|
                    0 <= j < i + 1 && keys@[j] == #[trigger] out@[m].id by {
                    if m < before.len() {
                        let j = choose|j: int| 0 <= j < i && keys@[j] == before[m].id;
                        assert(keys@[j] == out@[m].id);
                    } else {
                        assert(keys@[i as int] == out@[m].id);
                    }
                }
            } else {
                assert forall|m: int| start <= m < out@.len() implies exists|j: int|
                    0 <= j < i + 1 && keys@[j] == #[trigger] out@[m].id by {
                    let j = choose|j: int| 0 <= j < i && keys@[j] == out@[m].id;
                    assert(keys@[j] == out@[m].id);
                }
                assert forall|j: int|
                    0 <= j <= i && self@[#[trigger] keys@[j]].account_id@ == account_id@
                        implies out@.contains(self@[keys@[j]]) by {
                    if j == i {
                        assert(o.account_id@ != account_id@);
                    }
                }
            }
            i = i + 1;
        }
        proof {
            assert forall|k: u128| #[trigger]
                self@.contains_key(k) && self@[k].side == side@ && self@[k].account_id@
                    == account_id@ implies out@.contains(self@[k]) by {
                assert(keys@.contains(k));
                let j = choose|j: int| 0 <= j < keys@.len() && keys@[j] == k;
                assert(self@[keys@[j]].account_id@ == account_id@);
            }
        }
    }

    proof fn lemma_side_empty(&self, side: Side)
        requires
            self.wf(),
            side == Side::Ask ==> queue_items(self.asks).dom() == Set::<u128>::empty(),
            side == Side::Bid ==> queue_items(self.bids).dom() == Set::<u128>::empty(),
        ensures
            !has_side(self@, side),
    {
        if has_side(self@, side) {
            let k = choose|k: u128| self@.contains_key(k) && self@[k].side == side;
            if side == Side::Ask {
                assert(queue_items(self.asks).contains_key(k));
                assert(queue_items(self.asks).dom().contains(k));
            } else {
                assert(queue_items(self.bids).contains_key(k));
                assert(queue_items(self.bids).dom().contains(k));
            }
        }
    }

    proof fn lemma_top_is_best(&self, side: Side, k: u128)
        requires
            self.wf(),
            side == Side::Ask ==> {
                &&& queue_items(self.asks).contains_key(k)
                &&& forall|j: u128| #[trigger]
                    queue_items(self.asks).contains_key(j) ==> priority_le(
                        queue_items(self.asks)[j],
                        queue_items(self.asks)[k],
                    )
            },
            side == Side::Bid ==> {
                &&& queue_items(self.bids).contains_key(k)
                &&& forall|j: u128| #[trigger]
                    queue_items(self.bids).contains_key(j) ==> priority_le(
                        queue_items(self.bids)[j],
                        queue_items(self.bids)[k],
                    )
            },
        ensures
            self@.contains_key(k),
            is_best(self@, side, self@[k]),
    {
        let q = if side == Side::Ask {
            self.asks
        } else {
            self.bids
        };
        assert(queue_items(q).contains_key(k));
        assert forall|j: u128| #[trigger]
            self@.contains_key(j) && self@[j].side == side implies !outranks(self@[j], self@[k]) by {
            assert(queue_items(q).contains_key(j));
            lemma_priority_matches_rank(self@[k], self@[j]);
        }
    }

    proof fn lemma_keys_of_side(&self, keys: Seq<u128>, side: Side)
        requires
            self.wf(),
            side == Side::Ask ==> keys.to_set() == queue_items(self.asks).dom(),
            side == Side::Bid ==> keys.to_set() == queue_items(self.bids).dom(),
        ensures
            forall|k: u128| #[trigger]
                keys.contains(k) <==> self@.contains_key(k) && self@[k].side == side,
    {
        let q = if side == Side::Ask {
            self.asks
        } else {
            self.bids
        };
        assert forall|k: u128| #[trigger]
            keys.contains(k) <==> self@.contains_key(k) && self@[k].side == side by {
            assert(keys.to_set().contains(k) <==> keys.contains(k));
            assert(queue_items(q).dom().contains(k) <==> queue_items(q).contains_key(k));
        }
    }
}

impl Default for OrderBook {
    fn default() -> (r: OrderBook)
        ensures
            r.wf(),
            r@.dom() == Set::<u128>::empty(),
    {
        OrderBook::new()
    }
}

/// The queue key of an order on its side.
fn priority(o: &OrderBase) -> (r: Priority)
    ensures
        r == priority_of(*o),
{
    let price = match o.side {
        Side::Bid => o.limit,
        Side::Ask => u64::MAX - o.limit,
    };
    (price, u64::MAX - o.timestamp, u128::MAX - o.id)
}

/// The journal after `o` is appended: the oldest entry makes room when the
/// journal is full, and a journal of capacity zero keeps nothing.
pub open spec fn journal_push(s: Seq<OrderBase>, o: OrderBase, capacity: nat) -> Seq<OrderBase> {
    if capacity == 0 {
        s
    } else if s.len() < capacity {
        s.push(o)
    } else {
        s.drop_first().push(o)
    }
}

/// The first entry of `s` with identifier `id`, if any.
pub open spec fn first_with_id(s: Seq<OrderBase>, id: u128) -> Option<OrderBase> {
    if exists|i: int| 0 <= i < s.len() && s[i].id == id {
        let i = choose|i: int|
            0 <= i < s.len() && s[i].id == id && forall|j: int| 0 <= j < i ==> s[j].id != id;
        Some(s[i])
    } else {
        None
    }
}

/// A bounded first-in first-out journal of orders that reached a final
/// status.
#[derive(Debug)]
pub struct ProcessedOrders {
    orders: VecDeque<OrderBase>,
    capacity: usize,
}

pub const DEFAULT_JOURNAL_CAPACITY: usize = 64;

impl ProcessedOrders {
    /// The entries, oldest first.
    pub closed spec fn view(&self) -> Seq<OrderBase> {
        self.orders@
    }

    /// The greatest number of entries kept.
    pub closed spec fn capacity(&self) -> nat {
        self.capacity as nat
    }

    /// The journal never holds more entries than its capacity.
    pub open spec fn wf(&self) -> bool {
        self@.len() <= self.capacity()
    }

    pub fn with_capacity(capacity: usize) -> (r: ProcessedOrders)
        ensures
            r.wf(),
            r@ == Seq::<OrderBase>::empty(),
            r.capacity() == capacity,
    {
        ProcessedOrders { orders: VecDeque::new(), capacity }
    }

    /// Appends `order`, dropping the oldest entry when the journal is full.
    pub fn push(&mut self, order: OrderBase)
        requires
            old(self).wf(),
        ensures
            final(self).wf(),
            final(self).capacity() == old(self).capacity(),
            final(self)@ == journal_push(old(self)@, order, old(self).capacity()),
    {
        if self.capacity == 0 {
            return ;
        }
        if self.orders.len() >= self.capacity {
            self.orders.pop_front();
        }
        self.orders.push_back(order);
    }

    pub fn len(&self) -> (r: usize)
        ensures
            r == self@.len(),
    {
        self.orders.len()
    }

    /// The oldest entry with identifier `order_id`, if any.
    pub fn find_order(&self, order_id: u128) -> (r: Option<&OrderBase>)
        ensures
            r matches Some(o) ==> first_with_id(self@, order_id) == Some(*o),
            r is None ==> first_with_id(self@, order_id) is None,
    {
        let mut i: usize = 0;
        while i < self.orders.len()
            invariant
                i <= self@.len(),
                forall|j: int| 0 <= j < i ==> self@[j].id != order_id,
            decreases self@.len() - i,
        {
            if self.orders[i].id == order_id {
                let r = &self.orders[i];
                proof {
                    let c = choose|c: int|
                        0 <= c < self@.len() && self@[c].id == order_id && forall|j: int|
                            0 <= j < c ==> self@[j].id != order_id;
                    assert(self@[i as int].id == order_id);
                    if c < i {
                    } else if c > i {
                        assert(self@[c].id != order_id || self@[i as int].id != order_id);
                    }
                }
                return Some(r);
            }
            i = i + 1;
        }
        None
    }

    /// The entries of the account, oldest first.
    pub fn filter_order_by_account(&self, account_id: AccountId) -> (r: Vec<OrderBase>)
        ensures
            r@ == self@.filter(|o: OrderBase| o.account_id@ == account_id@),
    {
        let ghost pred = |o: OrderBase| o.account_id@ == account_id@;
        let mut out: Vec<OrderBase> = Vec::new();
        let mut i: usize = 0;
        while i < self.orders.len()
            invariant
                i <= self@.len(),
                pred == (|o: OrderBase| o.account_id@ == account_id@),
                out@ == self@.subrange(0, i as int).filter(pred),
            decreases self@.len() - i,
        {
            let o = self.orders[i];
            let ghost t = self@.subrange(0, i as int + 1);
            assert(t.drop_last() =~= self@.subrange(0, i as int));
            assert(t.last() == o);
            reveal(Seq::filter);
            assert(t.filter(pred) == if pred(o) {
                t.drop_last().filter(pred).push(o)
            } else {
                t.drop_last().filter(pred)
            });
            let keep = o.account_id.same(account_id);
            assert(keep == pred(o));
            if keep {
                out.push(o);
            }
            i = i + 1;
        }
        assert(self@.subrange(0, self@.len() as int) =~= self@);
        out
    }
}

impl Default for ProcessedOrders {
    fn default() -> (r: ProcessedOrders)
        ensures
            r.wf(),
            r@ == Seq::<OrderBase>::empty(),
            r.capacity() == DEFAULT_JOURNAL_CAPACITY,
    {
        ProcessedOrders::with_capacity(DEFAULT_JOURNAL_CAPACITY)
    }
}

} // verus!
