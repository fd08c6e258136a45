use vstd::prelude::*;
use std::collections::HashMap;

use crate::fresh::fresh_uuid;
use crate::order::OrderBase;
use crate::side::Side;

verus! {

broadcast use vstd::std_specs::hash::group_hash_axioms;

/// A handle on an account of the registry. Only the registry mints one, and
/// only for an account it stores.
#[derive(Debug, Clone, Copy, PartialEq, Eq, Structural, Hash)]
pub struct AccountId {
    account_id: u128,
}

impl AccountId {
    /// The identifier of the account that the handle refers to.
    pub closed spec fn view(self) -> u128 {
        self.account_id
    }

    /// The raw identifier of the account.
    pub fn as_uuid(self) -> (r: u128)
        ensures
            r == self@,
    {
        self.account_id
    }

    /// Two handles are equal exactly when they name the same account.
    pub fn same(self, other: AccountId) -> (r: bool)
        ensures
            r == (self@ == other@),
    {
        self.account_id == other.account_id
    }
}

/// A cash balance (in ticks) and a signed inventory.
#[derive(Debug, Clone, Copy, PartialEq, Eq, Structural)]
pub struct Account {
    pub id: u128,
    pub account_balance: i64,
    pub position: i32,
}

impl Account {
    pub fn get_id(&self) -> (r: u128)
        ensures
            r == self.id,
    {
        self.id
    }
}

/// What one sum over the ledger adds up: cash or inventory.
pub open spec fn holding(a: Account, cash: bool) -> int {
    if cash {
        a.account_balance as int
    } else {
        a.position as int
    }
}

/// The sum of the cash balances (`cash`) or of the positions (`!cash`) of
/// all accounts of a ledger.
pub open spec fn ledger_sum(m: Map<u128, Account>, cash: bool) -> int
    decreases m.dom().len(),
{
    if m.dom().finite() && m.dom().len() > 0 {
        let k = m.dom().choose();
        holding(m[k], cash) + ledger_sum(m.remove(k), cash)
    } else {
        0
    }
}

/// Any account can be taken out of the sum first.
pub proof fn lemma_ledger_sum_remove(m: Map<u128, Account>, k: u128, cash: bool)
    requires
        m.dom().finite(),
        m.contains_key(k),
    ensures
        ledger_sum(m, cash) == holding(m[k], cash) + ledger_sum(m.remove(k), cash),
    decreases m.dom().len(),
{
    let j = m.dom().choose();
    assert(m.dom().contains(j));
    if j != k {
        let mj = m.remove(j);
        let mk = m.remove(k);
        lemma_ledger_sum_remove(mj, k, cash);
        lemma_ledger_sum_remove(mk, j, cash);
        assert(mj.remove(k) =~= mk.remove(j));
    }
}

/// Replacing one account changes the sum by the difference.
pub proof fn lemma_ledger_sum_update(m: Map<u128, Account>, k: u128, v: Account, cash: bool)
    requires
        m.dom().finite(),
        m.contains_key(k),
    ensures
        ledger_sum(m.insert(k, v), cash) == ledger_sum(m, cash) - holding(m[k], cash) + holding(
            v,
            cash,
        ),
{
    let n = m.insert(k, v);
    lemma_ledger_sum_remove(m, k, cash);
    lemma_ledger_sum_remove(n, k, cash);
    assert(n.remove(k) =~= m.remove(k));
}

proof fn lemma_product_fits(a: int, b: int)
    requires
        0 <= a <= u64::MAX,
        0 <= b <= u64::MAX,
    ensures
        0 <= a * b <= u128::MAX,
{
    assert(0 <= a * b <= u64::MAX * u64::MAX) by (nonlinear_arith)
        requires
            0 <= a <= u64::MAX,
            0 <= b <= u64::MAX,
    ;
}

pub open spec fn fits_i64(x: int) -> bool {
    i64::MIN <= x <= i64::MAX
}

pub open spec fn fits_i32(x: int) -> bool {
    i32::MIN <= x <= i32::MAX
}

/// The account of the aggressor after a fill of `qty` at `price`, the
/// aggressor being on `side`.
pub open spec fn aggressor_after(a: Account, side: Side, price: u64, qty: usize) -> Account {
    Account {
        position: (a.position + qty * side.sign()) as i32,
        account_balance: (a.account_balance - qty * price * side.sign()) as i64,
        ..a
    }
}

/// The account of the counterparty after the same fill.
pub open spec fn counterparty_after(c: Account, side: Side, price: u64, qty: usize) -> Account {
    Account {
        position: (c.position - qty * side.sign()) as i32,
        account_balance: (c.account_balance + qty * price * side.sign()) as i64,
        ..c
    }
}

/// A fill can be booked when both new balances and positions fit their
/// types. A fill between an account and itself changes nothing.
pub open spec fn fill_fits(
    m: Map<u128, Account>,
    aggressor: u128,
    counterparty: u128,
    side: Side,
    price: u64,
    qty: usize,
) -> bool {
    aggressor == counterparty || {
        let a = m[aggressor];
        let c = m[counterparty];
        &&& fits_i32(a.position + qty * side.sign())
        &&& fits_i64(a.account_balance - qty * price * side.sign())
        &&& fits_i32(c.position - qty * side.sign())
        &&& fits_i64(c.account_balance + qty * price * side.sign())
    }
}

/// The ledger after a fill of `qty` at `price` between an aggressor on
/// `side` and a counterparty.
pub open spec fn after_fill(
    m: Map<u128, Account>,
    aggressor: u128,
    counterparty: u128,
    side: Side,
    price: u64,
    qty: usize,
) -> Map<u128, Account> {
    if aggressor == counterparty {
        m
    } else {
        m.insert(aggressor, aggressor_after(m[aggressor], side, price, qty)).insert(
            counterparty,
            counterparty_after(m[counterparty], side, price, qty),
        )
    }
}

/// The solvency rule for admitting an order of `qty` at `limit` on `side`:
/// a bid needs the whole notional in cash; an ask that would leave the
/// position short needs `balance >= limit * (position - qty) / 2`.
pub open spec fn sufficient(a: Account, side: Side, limit: u64, qty: usize) -> bool {
    match side {
        Side::Bid => a.account_balance >= limit * qty,
        Side::Ask => a.position - qty >= 0 || 2 * a.account_balance >= limit * (a.position - qty),
    }
}

/// The registry of accounts, keyed by identifier. Accounts are never removed.
#[derive(Debug)]
pub struct Accounts {
    accounts: HashMap<u128, Account>,
}

impl Accounts {
    pub closed spec fn view(&self) -> Map<u128, Account> {
        self.accounts@
    }

    /// Each account is stored under its own identifier.
    pub open spec fn wf(&self) -> bool {
        &&& self@.dom().finite()
        &&& forall|k: u128| #[trigger] self@.contains_key(k) ==> self@[k].id == k
    }

    pub fn new() -> (r: Accounts)
        ensures
            r.wf(),
            r@.dom() == Set::<u128>::empty(),
    {
        Accounts { accounts: HashMap::new() }
    }

    /// Stores a new account under `id`, unless an account has that
    /// identifier already; then nothing changes and `None` comes back.
    pub fn create_account_with_id(&mut self, id: u128, account_balance: i64, position: i32) -> (r:
        Option<AccountId>)
        requires
            old(self).wf(),
        ensures
            final(self).wf(),
            match r {
                Some(h) => {
                    &&& !old(self)@.contains_key(id)
                    &&& h@ == id
                    &&& final(self)@ == old(self)@.insert(
                        id,
                        Account { id, account_balance, position },
                    )
                },
                None => old(self)@.contains_key(id) && final(self)@ == old(self)@,
            },
    {
        if self.accounts.contains_key(&id) {
            return None;
        }
        self.accounts.insert(id, Account { id, account_balance, position });
        Some(AccountId { account_id: id })
    }

    /// Opens an account under a freshly drawn identifier. `None` when the
    /// drawn identifier is taken already, which leaves the registry as it was.
    pub fn create_new_account(&mut self, account_balance: i64, position: i32) -> (r: Option<
        AccountId,
    >)
        requires
            old(self).wf(),
        ensures
            final(self).wf(),
            match r {
                Some(h) => {
                    &&& !old(self)@.contains_key(h@)
                    &&& final(self)@ == old(self)@.insert(
                        h@,
                        Account { id: h@, account_balance, position },
                    )
                },
                None => {
                    &&& final(self)@ == old(self)@
                    &&& old(self)@.dom().len() > 0
                },
            },
    {
        let id = fresh_uuid();
        self.create_account_with_id(id, account_balance, position)
    }

    /// The handle of the account with identifier `uuid`, if there is one.
    pub fn check_uuid(&self, uuid: u128) -> (r: Option<AccountId>)
        ensures
            match r {
                Some(h) => self@.contains_key(uuid) && h@ == uuid,
                None => !self@.contains_key(uuid),
            },
    {
        if self.accounts.contains_key(&uuid) {
            Some(AccountId { account_id: uuid })
        } else {
            None
        }
    }

    pub fn get(&self, account_id: &AccountId) -> (r: &Account)
        requires
            self@.contains_key(account_id@),
        ensures
            *r == self@[account_id@],
    {
        self.accounts.get(&account_id.account_id).unwrap()
    }

    /// Whether the account can carry `order`, by the rule of [`sufficient`].
    pub fn check_sufficient_balance(&self, account_id: AccountId, order: &OrderBase) -> (r: bool)
        requires
            self@.contains_key(account_id@),
        ensures
            r == sufficient(self@[account_id@], order.side, order.limit, order.quantity),
    {
        let account = self.get(&account_id);
        let balance = account.account_balance;
        let limit = order.limit;
        let qty = order.quantity;
        match order.side {
            Side::Bid => {
                if balance < 0 {
                    assert(limit * qty >= 0) by (nonlinear_arith)
                        requires
                            limit >= 0,
                            qty >= 0,
                    ;
                    false
                } else {
                    proof { lemma_product_fits(limit as int, qty as int); }
                    let need: u128 = (limit as u128) * (qty as u128);
                    assert(need == limit * qty);
                    balance as u128 >= need
                }
            },
            Side::Ask => {
                let diff: i128 = account.position as i128 - qty as i128;
                if diff >= 0 {
                    true
                } else if balance >= 0 {
                    assert(limit * diff <= 0) by (nonlinear_arith)
                        requires
                            diff < 0,
                    ;
                    true
                } else {
                    let short: u128 = (-diff) as u128;
                    let owed: u128 = (-2 * (balance as i128)) as u128;
                    assert(limit * (account.position - qty) == -(limit * short))
                        by (nonlinear_arith)
                        requires
                            short == -(account.position - qty),
                    ;
                    if short >= 0x1_0000_0000_0000_0000u128 {
                        if limit > 0 {
                            assert(limit * short >= short) by (nonlinear_arith)
                                requires
                                    limit >= 1,
                                    short >= 0,
                            ;
                        } else {
                            assert(limit * short == 0) by (nonlinear_arith)
                                requires
                                    limit == 0,
                            ;
                        }
                        limit > 0
                    } else {
                        assert(limit * short < 0x1_0000_0000_0000_0000_0000_0000_0000_0000)
                            by (nonlinear_arith)
                            requires
                                limit < 0x1_0000_0000_0000_0000int,
                                short < 0x1_0000_0000_0000_0000int,
                                short >= 0,
                        ;
                        let cover: u128 = (limit as u128) * short;
                        cover >= owed
                    }
                }
            },
        }
    }

    /// Books a fill of `quantity` at `limit` between the aggressor, on
    /// `side`, and the counterparty: the aggressor's position moves by
    /// `quantity * side` and its cash by `-quantity * limit * side`; the
    /// counterparty's by the opposite. Both accounts change, or (when a
    /// result would not fit its type) neither does and `false` comes back.
    pub fn handle_transaction(
        &mut self,
        aggressor_id: AccountId,
        counterparty_id: AccountId,
        side: Side,
        limit: u64,
        quantity: usize,
    ) -> (r: bool)
        requires
            old(self).wf(),
            old(self)@.contains_key(aggressor_id@),
            old(self)@.contains_key(counterparty_id@),
        ensures
            final(self).wf(),
            r == fill_fits(old(self)@, aggressor_id@, counterparty_id@, side, limit, quantity),
            final(self)@ == if r {
                after_fill(old(self)@, aggressor_id@, counterparty_id@, side, limit, quantity)
            } else {
                old(self)@
            },
    {
        if aggressor_id.account_id == counterparty_id.account_id {
            return true;
        }
        let a = *self.get(&aggressor_id);
        let c = *self.get(&counterparty_id);
        let sign: i128 = side.coefficient() as i128;
        let moved: i128 = (quantity as i128) * sign;
        proof { lemma_product_fits(quantity as int, limit as int); }
        let notional: u128 = (quantity as u128) * (limit as u128);
        let a_pos: i128 = a.position as i128 + moved;
        let c_pos: i128 = c.position as i128 - moved;
        if notional > 0x1_0000_0000_0000_0000_0000u128 {
            assert(quantity * limit * side.sign() == notional * side.sign()) by (nonlinear_arith)
                requires
                    notional == quantity * limit,
            ;
            return false;
        }
        let cash: i128 = (notional as i128) * sign;
        assert(cash == quantity * limit * side.sign()) by (nonlinear_arith)
            requires
                notional == quantity * limit,
                cash == notional * side.sign(),
        ;
        let a_cash: i128 = a.account_balance as i128 - cash;
        let c_cash: i128 = c.account_balance as i128 + cash;
        if a_pos < i32::MIN as i128 || a_pos > i32::MAX as i128 || c_pos < i32::MIN as i128 || c_pos
            > i32::MAX as i128 || a_cash < i64::MIN as i128 || a_cash > i64::MAX as i128 || c_cash
            < i64::MIN as i128 || c_cash > i64::MAX as i128 {
            return false;
        }
        let na = Account { position: a_pos as i32, account_balance: a_cash as i64, ..a };
        let nc = Account { position: c_pos as i32, account_balance: c_cash as i64, ..c };
        self.accounts.insert(aggressor_id.account_id, na);
        self.accounts.insert(counterparty_id.account_id, nc);
        true
    }
}

impl Default for Accounts {
    fn default() -> (r: Accounts)
        ensures
            r.wf(),
            r@.dom() == Set::<u128>::empty(),
    {
        Accounts::new()
    }
}

} // verus!
