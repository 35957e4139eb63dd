use vstd::prelude::*;
use crate::identity::B256;

verus! {

/// An unsigned 256-bit integer, as four 64-bit limbs, least significant first.
#[derive(Debug, Clone, Copy, PartialEq, Eq, Structural)]
pub struct U256 {
    pub limbs0: u64,
    pub limbs1: u64,
    pub limbs2: u64,
    pub limbs3: u64,
}

/// The value of a `U256`.
pub open spec fn u256_value(x: U256) -> nat {
    x.limbs0 as nat + x.limbs1 as nat * 0x1_0000_0000_0000_0000 + x.limbs2 as nat
        * 0x1_0000_0000_0000_0000_0000_0000_0000_0000 + x.limbs3 as nat
        * 0x1_0000_0000_0000_0000_0000_0000_0000_0000_0000_0000_0000_0000
}

/// The 256-bit zero.
pub open spec fn u256_zero() -> U256 {
    U256 { limbs0: 0, limbs1: 0, limbs2: 0, limbs3: 0 }
}

impl U256 {
    /// The 256-bit integer of value `v`.
    pub fn from_u128(v: u128) -> (r: U256)
        ensures
            u256_value(r) == v,
    {
        let lo = (v % 0x1_0000_0000_0000_0000) as u64;
        let hi = (v / 0x1_0000_0000_0000_0000) as u64;
        let r = U256 { limbs0: lo, limbs1: hi, limbs2: 0, limbs3: 0 };
        assert(u256_value(r) == v) by (nonlinear_arith)
            requires
                lo == v % 0x1_0000_0000_0000_0000,
                hi == v / 0x1_0000_0000_0000_0000,
                r == (U256 { limbs0: lo, limbs1: hi, limbs2: 0, limbs3: 0 }),
        ;
        r
    }
}

/// The fields of an account that a block can change.
#[derive(Debug, Clone, Copy, PartialEq, Eq, Structural)]
pub struct Account {
    pub balance: U256,
    pub nonce: u64,
    pub code_hash: B256,
}

/// A change of one account: `None` marks the account as self-destructed.
#[derive(Debug, Clone, Copy, PartialEq, Eq, Structural)]
pub struct AccountChange {
    pub address: B256,
    pub info: Option<Account>,
}

/// A change of storage: a write of one slot (a value of zero clears the
/// slot), or the wipe of all slots of an account that self-destructed.
#[derive(Debug, Clone, Copy, PartialEq, Eq, Structural)]
pub enum StorageChange {
    Write { address: B256, slot: B256, value: U256 },
    Wipe { address: B256 },
}

/// A set of account and storage changes, not yet committed.
///
/// Changes are kept in the order they were made: for a key, the last change
/// wins, so each key has at most one effective value. A self-destruct is
/// recorded among the storage changes too, so that it clears every slot
/// written before it.
#[derive(Debug)]
pub struct StateDiff {
    pub accounts: Vec<AccountChange>,
    pub storage: Vec<StorageChange>,
}

/// The mathematical content of a `StateDiff`.
pub ghost struct DiffView {
    pub accounts: Seq<AccountChange>,
    pub storage: Seq<StorageChange>,
}

impl View for StateDiff {
    type V = DiffView;

    open spec fn view(&self) -> DiffView {
        DiffView { accounts: self.accounts@, storage: self.storage@ }
    }
}

/// The diff that changes nothing.
pub open spec fn empty_diff() -> DiffView {
    DiffView { accounts: seq![], storage: seq![] }
}

/// `a` followed by `b`: where both change a key, `b` wins.
pub open spec fn compose_spec(a: DiffView, b: DiffView) -> DiffView {
    DiffView { accounts: a.accounts + b.accounts, storage: a.storage + b.storage }
}

/// The effective change of `address` in `s`: `None` when it is not changed.
pub open spec fn account_in(s: Seq<AccountChange>, address: B256) -> Option<Option<Account>>
    decreases s.len(),
{
    if s.len() == 0 {
        None
    } else if s.last().address == address {
        Some(s.last().info)
    } else {
        account_in(s.drop_last(), address)
    }
}

/// The effective value of a slot in `s`: `None` when it is not changed;
/// `Some` of zero when it was cleared, by a write of zero or by a wipe of its
/// account after the last write.
pub open spec fn storage_in(s: Seq<StorageChange>, address: B256, slot: B256) -> Option<U256>
    decreases s.len(),
{
    if s.len() == 0 {
        None
    } else {
        match s.last() {
            StorageChange::Write { address: a, slot: k, value } => if a == address && k == slot {
                Some(value)
            } else {
                storage_in(s.drop_last(), address, slot)
            },
            StorageChange::Wipe { address: a } => if a == address {
                Some(u256_zero())
            } else {
                storage_in(s.drop_last(), address, slot)
            },
        }
    }
}

/// A lookup in `a + b` is a lookup in `b`, then in `a`.
pub proof fn lemma_account_in_concat(a: Seq<AccountChange>, b: Seq<AccountChange>, address: B256)
    ensures
        account_in(a + b, address) == (match account_in(b, address) {
            Some(x) => Some(x),
            None => account_in(a, address),
        }),
    decreases b.len(),
{
    if b.len() == 0 {
        assert(a + b =~= a);
    } else {
        assert((a + b).drop_last() =~= a + b.drop_last());
        lemma_account_in_concat(a, b.drop_last(), address);
    }
}

/// A lookup in `a + b` is a lookup in `b`, then in `a`.
pub proof fn lemma_storage_in_concat(
    a: Seq<StorageChange>,
    b: Seq<StorageChange>,
    address: B256,
    slot: B256,
)
    ensures
        storage_in(a + b, address, slot) == (match storage_in(b, address, slot) {
            Some(x) => Some(x),
            None => storage_in(a, address, slot),
        }),
    decreases b.len(),
{
    if b.len() == 0 {
        assert(a + b =~= a);
    } else {
        assert((a + b).drop_last() =~= a + b.drop_last());
        lemma_storage_in_concat(a, b.drop_last(), address, slot);
    }
}

impl StateDiff {
    /// A diff with no changes.
    pub fn new() -> (r: StateDiff)
        ensures
            r@ == empty_diff(),
    {
        StateDiff { accounts: Vec::new(), storage: Vec::new() }
    }

    /// Records a change of an account; `None` self-destructs it, which also
    /// clears all of its storage.
    pub fn set_account(&mut self, address: B256, info: Option<Account>)
        ensures
            final(self)@.accounts == old(self)@.accounts.push(AccountChange { address, info }),
            final(self)@.storage == if info is None {
                old(self)@.storage.push(StorageChange::Wipe { address })
            } else {
                old(self)@.storage
            },
    {
        self.accounts.push(AccountChange { address, info });
        if info.is_none() {
            self.storage.push(StorageChange::Wipe { address });
        }
    }

    /// Records a change of a storage slot.
    pub fn set_storage(&mut self, address: B256, slot: B256, value: U256)
        ensures
            final(self)@.storage == old(self)@.storage.push(
                StorageChange::Write { address, slot, value },
            ),
            final(self)@.accounts == old(self)@.accounts,
    {
        self.storage.push(StorageChange::Write { address, slot, value });
    }

    /// A copy of this diff.
    pub fn duplicate(&self) -> (r: StateDiff)
        ensures
            r@ == self@,
    {
        let mut r = StateDiff::new();
        r.append_from(self);
        assert(r@.accounts =~= self@.accounts);
        assert(r@.storage =~= self@.storage);
        r
    }

    /// Appends the changes of `other` after those of `self`.
    pub fn append_from(&mut self, other: &StateDiff)
        ensures
            final(self)@ == compose_spec(old(self)@, other@),
    {
        let ghost start = self@;
        let mut i: usize = 0;
        while i < other.accounts.len()
            invariant
                i <= other.accounts@.len(),
                self@.accounts =~= start.accounts + other@.accounts.take(i as int),
                self@.storage == start.storage,
            decreases other.accounts.len() - i,
        {
            self.accounts.push(other.accounts[i]);
            i = i + 1;
            assert(other@.accounts.take(i as int) =~= other@.accounts.take(i - 1).push(
                other@.accounts[i - 1],
            ));
        }
        assert(other@.accounts.take(i as int) =~= other@.accounts);
        let mut j: usize = 0;
        while j < other.storage.len()
            invariant
                j <= other.storage@.len(),
                self@.accounts =~= start.accounts + other@.accounts,
                self@.storage =~= start.storage + other@.storage.take(j as int),
            decreases other.storage.len() - j,
        {
            self.storage.push(other.storage[j]);
            j = j + 1;
            assert(other@.storage.take(j as int) =~= other@.storage.take(j - 1).push(
                other@.storage[j - 1],
            ));
        }
        assert(other@.storage.take(j as int) =~= other@.storage);
        assert(self@ =~= compose_spec(start, other@));
    }

    /// The diff that applies `self` and then `later`.
    pub fn compose(&self, later: &StateDiff) -> (r: StateDiff)
        ensures
            r@ == compose_spec(self@, later@),
    {
        let mut r = self.duplicate();
        r.append_from(later);
        r
    }

    /// The effective change of an account: `None` when this diff leaves it alone.
    pub fn account(&self, address: B256) -> (r: Option<Option<Account>>)
        ensures
            r == account_in(self@.accounts, address),
    {
        let mut i: usize = self.accounts.len();
        assert(self@.accounts.take(i as int) =~= self@.accounts);
        while i > 0
            invariant
                i <= self.accounts@.len(),
                account_in(self@.accounts, address) == account_in(
                    self@.accounts.take(i as int),
                    address,
                ),
            decreases i,
        {
            let c = self.accounts[i - 1];
            assert(self@.accounts.take(i as int).drop_last() =~= self@.accounts.take(i - 1));
            if c.address == address {
                return Some(c.info);
            }
            i = i - 1;
        }
        None
    }

    /// The effective value of a slot: `None` when this diff leaves it alone.
    pub fn storage_value(&self, address: B256, slot: B256) -> (r: Option<U256>)
        ensures
            r == storage_in(self@.storage, address, slot),
    {
        let mut i: usize = self.storage.len();
        assert(self@.storage.take(i as int) =~= self@.storage);
        while i > 0
            invariant
                i <= self.storage@.len(),
                storage_in(self@.storage, address, slot) == storage_in(
                    self@.storage.take(i as int),
                    address,
                    slot,
                ),
            decreases i,
        {
            let c = self.storage[i - 1];
            assert(self@.storage.take(i as int).drop_last() =~= self@.storage.take(i - 1));
            match c {
                StorageChange::Write { address: a, slot: k, value } => {
                    if a == address && k == slot {
                        return Some(value);
                    }
                },
                StorageChange::Wipe { address: a } => {
                    if a == address {
                        return Some(U256 { limbs0: 0, limbs1: 0, limbs2: 0, limbs3: 0 });
                    }
                },
            }
            i = i - 1;
        }
        None
    }
}

/// A read-only view of accounts and storage at a fixed point.
#[derive(Debug)]
pub enum StateView {
    /// Committed state: every change up to the point, in order.
    Persisted(StateDiff),
    /// A diff layered over another view.
    Overlay(Box<StateView>, StateDiff),
}

/// The account that `v` shows at `address`; `None` when there is none.
pub open spec fn view_account(v: StateView, address: B256) -> Option<Account>
    decreases v,
{
    match v {
        StateView::Persisted(d) => match account_in(d@.accounts, address) {
            Some(x) => x,
            None => None,
        },
        StateView::Overlay(base, d) => match account_in(d@.accounts, address) {
            Some(x) => x,
            None => view_account(*base, address),
        },
    }
}

/// The value that `v` shows in a slot: `None` when the slot was never
/// written, `Some` of zero when it was cleared (a diff that clears it hides the base).
pub open spec fn view_storage(v: StateView, address: B256, slot: B256) -> Option<U256>
    decreases v,
{
    match v {
        StateView::Persisted(d) => storage_in(d@.storage, address, slot),
        StateView::Overlay(base, d) => match storage_in(d@.storage, address, slot) {
            Some(x) => Some(x),
            None => view_storage(*base, address, slot),
        },
    }
}

/// An overlay of `b` on an overlay of `a` on `base` answers every query as
/// one overlay of the composition of `a` and `b` on `base`.
pub proof fn lemma_overlay_associative(base: StateView, a: StateDiff, b: StateDiff, c: StateDiff)
    requires
        c@ == compose_spec(a@, b@),
    ensures
        forall|address: B256|
            view_account(
                StateView::Overlay(Box::new(StateView::Overlay(Box::new(base), a)), b),
                address,
            ) == view_account(StateView::Overlay(Box::new(base), c), address),
        forall|address: B256, slot: B256|
            view_storage(
                StateView::Overlay(Box::new(StateView::Overlay(Box::new(base), a)), b),
                address,
                slot,
            ) == view_storage(StateView::Overlay(Box::new(base), c), address, slot),
{
    assert forall|address: B256|
        view_account(
            StateView::Overlay(Box::new(StateView::Overlay(Box::new(base), a)), b),
            address,
        ) == view_account(StateView::Overlay(Box::new(base), c), address) by {
        reveal_with_fuel(view_account, 3);
        lemma_account_in_concat(a@.accounts, b@.accounts, address);
    }
    assert forall|address: B256, slot: B256|
        view_storage(
            StateView::Overlay(Box::new(StateView::Overlay(Box::new(base), a)), b),
            address,
            slot,
        ) == view_storage(StateView::Overlay(Box::new(base), c), address, slot) by {
        reveal_with_fuel(view_storage, 3);
        lemma_storage_in_concat(a@.storage, b@.storage, address, slot);
    }
}

impl StateView {
    /// A view of `diff` layered over `base`.
    pub fn overlay(base: StateView, diff: StateDiff) -> (r: StateView)
        ensures
            r == StateView::Overlay(Box::new(base), diff),
    {
        StateView::Overlay(Box::new(base), diff)
    }

    /// The account at `address`, or `None` when the view has none.
    pub fn basic_account(&self, address: B256) -> (r: Option<Account>)
        ensures
            r == view_account(*self, address),
        decreases self,
    {
        match self {
            StateView::Persisted(d) => match d.account(address) {
                Some(x) => x,
                None => None,
            },
            StateView::Overlay(base, d) => match d.account(address) {
                Some(x) => x,
                None => base.basic_account(address),
            },
        }
    }

    /// The value of a storage slot: `None` when it was never written,
    /// `Some` of zero when it was cleared, also by a self-destruct of its account.
    pub fn storage(&self, address: B256, slot: B256) -> (r: Option<U256>)
        ensures
            r == view_storage(*self, address, slot),
        decreases self,
    {
        match self {
            StateView::Persisted(d) => d.storage_value(address, slot),
            StateView::Overlay(base, d) => match d.storage_value(address, slot) {
                Some(x) => Some(x),
                None => base.storage(address, slot),
            },
        }
    }
}

} // verus!
