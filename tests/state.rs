use chainview::error::{
    GotExpected, InvalidTransactionError, TransactionConversionError,
    TryFromRecoveredTransactionError,
};
use chainview::identity::B256;
use chainview::state::{Account, StateDiff, StateView, U256};

fn h(n: u64) -> B256 {
    B256::from_low(n)
}

fn acct(balance: u128, nonce: u64) -> Account {
    Account { balance: U256::from_u128(balance), nonce, code_hash: B256::from_low(3) }
}

fn base() -> StateView {
    let mut d = StateDiff::new();
    d.set_account(h(1), Some(acct(10, 0)));
    d.set_account(h(2), Some(acct(20, 0)));
    d.set_account(h(3), Some(acct(30, 0)));
    d.set_storage(h(1), h(5), U256::from_u128(50));
    d.set_storage(h(2), h(5), U256::from_u128(60));
    StateView::Persisted(d)
}

fn diff_a() -> StateDiff {
    let mut d = StateDiff::new();
    d.set_account(h(1), Some(acct(11, 1)));
    d.set_account(h(2), None);
    d.set_storage(h(1), h(5), U256::from_u128(0));
    d.set_storage(h(4), h(5), U256::from_u128(9));
    d
}

fn diff_b() -> StateDiff {
    let mut d = StateDiff::new();
    d.set_account(h(1), Some(acct(12, 2)));
    d.set_account(h(4), Some(acct(40, 0)));
    d.set_storage(h(4), h(5), U256::from_u128(8));
    d
}

#[test]
fn overlay_composition_is_associative() {
    let nested = StateView::overlay(StateView::overlay(base(), diff_a()), diff_b());
    let flat = StateView::overlay(base(), diff_a().compose(&diff_b()));
    for address in 0..6u64 {
        assert_eq!(nested.basic_account(h(address)), flat.basic_account(h(address)));
        for slot in 0..7u64 {
            assert_eq!(nested.storage(h(address), h(slot)), flat.storage(h(address), h(slot)));
        }
    }
    assert_eq!(flat.basic_account(h(1)), Some(acct(12, 2)));
    assert_eq!(flat.basic_account(h(2)), None);
    assert_eq!(flat.basic_account(h(3)), Some(acct(30, 0)));
    assert_eq!(flat.basic_account(h(4)), Some(acct(40, 0)));
    assert_eq!(flat.basic_account(h(5)), None);
    assert_eq!(flat.storage(h(1), h(5)), Some(U256::from_u128(0)));
    assert_eq!(flat.storage(h(2), h(5)), Some(U256::from_u128(0)));
    assert_eq!(flat.storage(h(4), h(5)), Some(U256::from_u128(8)));
    assert_eq!(flat.storage(h(9), h(5)), None);
}

#[test]
fn diff_lookup_last_change_wins() {
    let d = diff_a().compose(&diff_b());
    assert_eq!(d.account(h(1)), Some(Some(acct(12, 2))));
    assert_eq!(d.account(h(2)), Some(None));
    assert_eq!(d.account(h(3)), None);
    assert_eq!(d.storage_value(h(4), h(5)), Some(U256::from_u128(8)));
    assert_eq!(d.storage_value(h(1), h(5)), Some(U256::from_u128(0)));
    let copy = d.duplicate();
    assert_eq!(copy.accounts, d.accounts);
    assert_eq!(copy.storage, d.storage);
    assert_eq!(StateDiff::new().account(h(1)), None);
}

#[test]
fn transaction_error_variants() {
    let e = InvalidTransactionError::InsufficientFunds(GotExpected { got: U256::from_u128(1), expected: U256::from_u128(2) });
    assert_eq!(e.clone(), e);
    assert_ne!(e, InvalidTransactionError::NonceNotConsistent);
    assert_eq!(TransactionConversionError::UnsupportedForP2P, TransactionConversionError::UnsupportedForP2P);
    assert_eq!(
        TryFromRecoveredTransactionError::UnsupportedTransactionType(3),
        TryFromRecoveredTransactionError::UnsupportedTransactionType(3)
    );
    assert_ne!(
        TryFromRecoveredTransactionError::UnsupportedTransactionType(3),
        TryFromRecoveredTransactionError::BlobSidecarMissing
    );
}

#[test]
fn self_destruct_clears_storage() {
    let mut d = StateDiff::new();
    d.set_account(h(1), None);
    let v = StateView::overlay(base(), d);
    assert_eq!(v.storage(h(1), h(5)), Some(U256::from_u128(0)));
    assert_eq!(v.basic_account(h(1)), None);
    assert_eq!(v.storage(h(2), h(5)), Some(U256::from_u128(60)));
    // a write after the self-destruct shows again
    let mut e = StateDiff::new();
    e.set_account(h(1), None);
    e.set_storage(h(1), h(6), U256::from_u128(4));
    let w = StateView::overlay(base(), e);
    assert_eq!(w.storage(h(1), h(6)), Some(U256::from_u128(4)));
    assert_eq!(w.storage(h(1), h(5)), Some(U256::from_u128(0)));
}

#[test]
fn u256_from_u128_splits_limbs() {
    let x = U256::from_u128((5u128 << 64) | 9);
    assert_eq!(x, U256 { limbs0: 9, limbs1: 5, limbs2: 0, limbs3: 0 });
    assert_eq!(U256::from_u128(u128::MAX).limbs1, u64::MAX);
}

#[test]
fn storage_holds_full_width_values() {
    let big = U256 { limbs0: 1, limbs1: 2, limbs2: 3, limbs3: u64::MAX };
    let mut d = StateDiff::new();
    d.set_storage(h(1), h(1), big);
    let v = StateView::overlay(base(), d);
    assert_eq!(v.storage(h(1), h(1)), Some(big));
}

#[test]
fn keys_differ_in_high_words() {
    let low = h(1);
    let high = B256 { w0: 1, w1: 0, w2: 0, w3: 9 };
    let mut d = StateDiff::new();
    d.set_storage(low, low, U256::from_u128(5));
    assert_eq!(d.storage_value(high, low), None);
    assert_eq!(d.storage_value(low, high), None);
    assert_eq!(d.storage_value(low, low), Some(U256::from_u128(5)));
}
