use chainview::error::ProviderError;
use chainview::identity::{B256, BlockId, BlockNumHash, BlockNumberOrTag};
use chainview::provider::BlockchainProvider;
use chainview::state::{Account, StateDiff, StateView, U256};
use chainview::store::{ChainStore, Header, Receipt, SealedBlock, Withdrawal};
use chainview::tree::{BlockStatus, ForkTree};

fn h(n: u64) -> B256 {
    B256::from_low(n)
}

fn account(balance: u128) -> Account {
    Account { balance: U256::from_u128(balance), nonce: 0, code_hash: h(0) }
}

fn block(hash: u64, parent_hash: u64, number: u64, address: u64, balance: u128) -> SealedBlock {
    let mut diff = StateDiff::new();
    diff.set_account(h(address), Some(account(balance)));
    diff.set_storage(h(address), h(1), U256::from_u128(balance));
    SealedBlock {
        header: Header { hash: h(hash), parent_hash: h(parent_hash), number, difficulty: number + 10 },
        transactions: vec![h(hash * 100)],
        receipts: vec![Receipt { tx_hash: h(hash * 100), success: true, cumulative_gas_used: 21000 }],
        withdrawals: vec![Withdrawal { index: hash, validator_index: 3, address: h(address), amount: 5 }],
        diff,
    }
}

fn genesis() -> SealedBlock {
    block(1, 0, 0, 7, 1000)
}

fn provider() -> BlockchainProvider {
    BlockchainProvider::new(ChainStore::new(genesis()), ForkTree::new())
}

fn hashes(h: &[Header]) -> Vec<u64> {
    h.iter().map(|x| x.hash.w0).collect()
}

fn balance(v: &StateView, address: u64) -> Option<u128> {
    v.basic_account(h(address)).map(|a| a.balance.limbs0 as u128 | (a.balance.limbs1 as u128) << 64)
}

#[test]
fn fork_switch_scenario() {
    let mut p = provider();
    // inserting genesis again is a no-op on a known canonical block
    assert_eq!(p.insert_block(genesis()), BlockStatus::Valid);
    assert_eq!(p.insert_block(block(11, 1, 1, 7, 900)), BlockStatus::Valid);
    let ev = p.make_canonical(h(11)).unwrap().unwrap();
    assert_eq!(p.chain_info().best_number, 1);
    assert_eq!(p.chain_info().best_hash, h(11));
    assert!(ev.reverted.is_empty());
    assert_eq!(hashes(&ev.committed), vec![11]);

    assert_eq!(p.insert_block(block(21, 1, 1, 7, 800)), BlockStatus::Accepted);
    assert_eq!(p.insert_block(block(22, 21, 2, 8, 5)), BlockStatus::Accepted);
    let ev = p.make_canonical(h(22)).unwrap().unwrap();
    assert_eq!(hashes(&ev.reverted), vec![11]);
    assert_eq!(hashes(&ev.committed), vec![21, 22]);
    assert_eq!(ev.committed[0].parent_hash, h(1));
    assert_eq!(p.chain_info().best_number, 2);
    assert_eq!(p.chain_info().best_hash, h(22));

    // the reverted block is still held and queryable by hash
    let a1 = p.block(BlockId::Hash(h(11))).unwrap();
    assert_eq!(a1.header.number, 1);
    assert!(p.block_by_hash(h(11)).is_some());
    let side = p.history_by_block_hash(h(11)).unwrap();
    assert_eq!(balance(&side, 7), Some(900));

    // by number, block 1 is now the other branch
    assert_eq!(p.block_hash(1), Some(h(21)));
    let h1 = p.history_by_block_number(1).unwrap();
    assert_eq!(balance(&h1, 7), Some(800));
    assert_eq!(balance(&h1, 8), None);
    let latest = p.latest().unwrap();
    assert_eq!(balance(&latest, 8), Some(5));
}

#[test]
fn pending_without_pending_block_is_latest() {
    let mut p = provider();
    p.insert_block(block(11, 1, 1, 7, 900));
    p.make_canonical(h(11)).unwrap();
    assert_eq!(p.pending_block(), None);
    let pending = p.pending().unwrap();
    let latest = p.latest().unwrap();
    for address in [7u64, 8, 9] {
        assert_eq!(pending.basic_account(h(address)), latest.basic_account(h(address)));
        assert_eq!(pending.storage(h(address), h(1)), latest.storage(h(address), h(1)));
    }
    assert_eq!(balance(&pending, 7), Some(900));
}

#[test]
fn pending_block_overlays_tip() {
    let mut p = provider();
    assert_eq!(p.set_pending_block(block(5, 1, 1, 9, 42)), Ok(()));
    assert_eq!(p.pending_block(), Some(BlockNumHash { number: 1, hash: h(5) }));
    let pending = p.pending().unwrap();
    assert_eq!(balance(&pending, 9), Some(42));
    assert_eq!(balance(&pending, 7), Some(1000));
    assert_eq!(balance(&p.latest().unwrap(), 9), None);
    // pending is never latest
    assert_eq!(p.chain_info().best_number, 0);
    assert_eq!(p.convert_block_number(BlockNumberOrTag::Pending), Some(1));
    assert_eq!(p.block_hash_for_id(BlockId::Number(BlockNumberOrTag::Pending)), Some(h(5)));
    assert_eq!(p.block(BlockId::Number(BlockNumberOrTag::Pending)).unwrap().header.hash, h(5));
    // a block that does not extend the tip cannot be pending
    assert_eq!(
        p.set_pending_block(block(6, 99, 1, 9, 1)),
        Err(ProviderError::InvalidTransition)
    );
}

#[test]
fn make_canonical_twice_emits_one_event() {
    let mut p = provider();
    let id = p.subscribe_to_canonical_state();
    p.insert_block(block(11, 1, 1, 7, 900));
    assert!(p.make_canonical(h(11)).unwrap().is_some());
    assert!(p.make_canonical(h(11)).unwrap().is_none());
    let first = p.next_canonical_event(id).unwrap();
    assert_eq!(hashes(&first.committed), vec![11]);
    assert!(p.next_canonical_event(id).is_none());
    assert_eq!(p.chain_info().best_hash, h(11));
}

#[test]
fn subscriber_sees_only_later_events() {
    let mut p = provider();
    p.insert_block(block(11, 1, 1, 7, 900));
    p.make_canonical(h(11)).unwrap();
    let id = p.subscribe_to_canonical_state();
    assert!(p.next_canonical_event(id).is_none());
    p.insert_block(block(12, 11, 2, 7, 800));
    p.make_canonical(h(12)).unwrap();
    let ev = p.next_canonical_event(id).unwrap();
    assert_eq!(hashes(&ev.committed), vec![12]);
    assert!(p.next_canonical_event(id + 1).is_none());
}

#[test]
fn unwind_at_or_below_finalized_fails() {
    let mut p = provider();
    p.insert_block(block(11, 1, 1, 7, 900));
    p.insert_block(block(12, 11, 2, 7, 800));
    p.make_canonical(h(12)).unwrap();
    assert_eq!(p.finalize_block(1), Ok(()));
    let before = p.chain_info();
    assert_eq!(before.last_finalized, Some(1));
    assert_eq!(p.unwind(1).unwrap_err(), ProviderError::InvalidTransition);
    assert_eq!(p.unwind(0).unwrap_err(), ProviderError::InvalidTransition);
    assert_eq!(p.chain_info(), before);
}

#[test]
fn unwind_then_promote_restores_state() {
    let mut p = provider();
    p.insert_block(block(11, 1, 1, 7, 900));
    p.insert_block(block(12, 11, 2, 8, 30));
    p.insert_block(block(13, 12, 3, 7, 700));
    p.make_canonical(h(13)).unwrap();
    let info = p.chain_info();
    let ev = p.unwind(1).unwrap().unwrap();
    assert_eq!(hashes(&ev.reverted), vec![12, 13]);
    assert_eq!(p.chain_info().best_number, 1);
    assert_eq!(balance(&p.latest().unwrap(), 8), None);
    // the reverted blocks are held again
    assert_eq!(p.insert_block(block(12, 11, 2, 8, 30)), BlockStatus::Valid);
    assert_eq!(p.insert_block(block(13, 12, 3, 7, 700)), BlockStatus::Valid);
    let ev = p.make_canonical(h(13)).unwrap().unwrap();
    assert!(ev.reverted.is_empty());
    assert_eq!(hashes(&ev.committed), vec![12, 13]);
    assert_eq!(p.chain_info(), info);
    let latest = p.latest().unwrap();
    assert_eq!(balance(&latest, 7), Some(700));
    assert_eq!(balance(&latest, 8), Some(30));
    assert_eq!(latest.storage(h(8), h(1)), Some(U256::from_u128(30)));
}

#[test]
fn unwind_above_tip_is_a_no_op() {
    let mut p = provider();
    assert!(p.unwind(5).unwrap().is_none());
    assert_eq!(p.chain_info().best_number, 0);
}

#[test]
fn disconnected_block_is_held_until_parent_arrives() {
    let mut p = provider();
    assert_eq!(p.insert_block(block(12, 11, 2, 7, 5)), BlockStatus::Disconnected);
    assert_eq!(p.make_canonical(h(12)).unwrap_err(), ProviderError::InvalidTransition);
    assert_eq!(p.history_by_block_hash(h(12)).unwrap_err(), ProviderError::NotFound);
    assert_eq!(p.insert_block(block(11, 1, 1, 7, 6)), BlockStatus::Valid);
    assert_eq!(p.insert_block(block(12, 11, 2, 7, 5)), BlockStatus::Valid);
    p.make_canonical(h(12)).unwrap();
    assert_eq!(p.chain_info().best_number, 2);
}

#[test]
fn make_canonical_of_unknown_hash_is_not_found() {
    let mut p = provider();
    assert_eq!(p.make_canonical(h(77)).unwrap_err(), ProviderError::NotFound);
    // a canonical block is a no-op
    assert!(p.make_canonical(h(1)).unwrap().is_none());
}

#[test]
fn finalize_prunes_branches_below() {
    let mut p = provider();
    p.insert_block(block(11, 1, 1, 7, 900));
    p.insert_block(block(12, 11, 2, 7, 800));
    p.make_canonical(h(12)).unwrap();
    p.insert_block(block(21, 1, 1, 7, 1));
    p.insert_block(block(32, 11, 2, 7, 2));
    assert_eq!(p.blocks().len(), 2);
    assert_eq!(p.finalize_block(1), Ok(()));
    let held: Vec<u64> = p.blocks().iter().map(|b| b.hash.w0).collect();
    assert_eq!(held, vec![32]);
    assert_eq!(p.finalize_block(0), Err(ProviderError::InvalidTransition));
    assert_eq!(p.finalize_block(9), Err(ProviderError::NotFound));
    // a block whose branch forks below the finalized block is refused
    assert_eq!(p.insert_block(block(41, 1, 1, 7, 3)), BlockStatus::Disconnected);
    assert!(p.block_by_hash(h(41)).is_none());
    assert_eq!(p.make_canonical(h(41)).unwrap_err(), ProviderError::NotFound);
    // so is a disconnected block at or below the finalized number
    assert_eq!(p.insert_block(block(42, 99, 1, 7, 3)), BlockStatus::Disconnected);
    assert!(p.block_by_hash(h(42)).is_none());
    // a block above it is still held
    assert_eq!(p.insert_block(block(43, 12, 3, 7, 3)), BlockStatus::Valid);
}

#[test]
fn header_falls_back_to_held_and_pending_blocks() {
    let mut p = provider();
    p.insert_block(block(11, 1, 1, 7, 900));
    p.make_canonical(h(11)).unwrap();
    p.insert_block(block(21, 1, 1, 7, 800));
    p.set_pending_block(block(31, 11, 2, 7, 700)).unwrap();
    assert_eq!(p.header(h(11)).unwrap().number, 1);
    assert_eq!(p.header(h(21)).unwrap().parent_hash, h(1));
    assert_eq!(p.header(h(31)).unwrap().number, 2);
    assert_eq!(p.header(h(99)), None);
}

#[test]
fn promotion_drops_the_pending_block() {
    let mut p = provider();
    p.set_pending_block(block(31, 1, 1, 7, 700)).unwrap();
    p.insert_block(block(11, 1, 1, 7, 900));
    p.make_canonical(h(11)).unwrap();
    assert_eq!(p.pending_block(), None);
}

#[test]
fn identity_resolution() {
    let mut p = provider();
    p.insert_block(block(11, 1, 1, 7, 900));
    p.insert_block(block(12, 11, 2, 7, 800));
    p.make_canonical(h(12)).unwrap();
    assert_eq!(p.convert_block_number(BlockNumberOrTag::Latest), Some(2));
    assert_eq!(p.convert_block_number(BlockNumberOrTag::Earliest), Some(0));
    assert_eq!(p.convert_block_number(BlockNumberOrTag::Number(9)), Some(9));
    assert_eq!(p.convert_block_number(BlockNumberOrTag::Finalized), None);
    assert_eq!(p.convert_block_number(BlockNumberOrTag::Safe), None);
    assert_eq!(p.convert_block_number(BlockNumberOrTag::Pending), Some(2));
    p.finalize_block(1).unwrap();
    assert_eq!(p.convert_block_number(BlockNumberOrTag::Finalized), Some(1));
    assert_eq!(p.block_hash_for_id(BlockId::Number(BlockNumberOrTag::Finalized)), Some(h(11)));
    assert_eq!(p.block_hash_for_id(BlockId::Number(BlockNumberOrTag::Latest)), Some(h(12)));
    assert_eq!(p.block_hash_for_id(BlockId::Number(BlockNumberOrTag::Earliest)), Some(h(1)));
    assert_eq!(p.block_hash_for_id(BlockId::Number(BlockNumberOrTag::Number(7))), None);
    assert_eq!(p.block_hash_for_id(BlockId::Hash(h(55))), Some(h(55)));
    assert_eq!(p.block_number(h(11)), Some(1));
    assert_eq!(p.block_number(h(55)), None);
    assert_eq!(p.header(h(12)).unwrap().parent_hash, h(11));
    assert_eq!(p.header_by_number(1).unwrap().hash, h(11));
    assert_eq!(p.header_by_number(3), None);
    assert_eq!(p.transaction_block(h(1200)), Some(2));
    assert_eq!(p.transaction_block(h(5)), None);
    assert_eq!(p.canonical_tip(), BlockNumHash { number: 2, hash: h(12) });
    assert_eq!(p.history_by_block_number(3).unwrap_err(), ProviderError::NotFound);
    assert!(p.block(BlockId::Number(BlockNumberOrTag::Number(3))).is_none());
}

#[test]
fn promoting_a_shorter_branch_is_refused() {
    let mut p = provider();
    p.insert_block(block(11, 1, 1, 7, 900));
    p.insert_block(block(12, 11, 2, 7, 800));
    p.make_canonical(h(12)).unwrap();
    let id = p.subscribe_to_canonical_state();
    assert_eq!(p.insert_block(block(21, 1, 1, 7, 5)), BlockStatus::Accepted);
    assert_eq!(p.make_canonical(h(21)).unwrap_err(), ProviderError::InvalidTransition);
    assert_eq!(p.chain_info().best_number, 2);
    assert_eq!(p.chain_info().best_hash, h(12));
    assert!(p.next_canonical_event(id).is_none());
    // a branch of equal length may take over
    p.insert_block(block(22, 21, 2, 7, 6));
    let ev = p.make_canonical(h(22)).unwrap().unwrap();
    assert_eq!(hashes(&ev.reverted), vec![11, 12]);
    assert_eq!(p.chain_info().best_number, 2);
}

#[test]
fn hashes_differ_in_high_words() {
    let mut p = provider();
    let mut a = block(11, 1, 1, 7, 900);
    let mut b = block(11, 1, 1, 7, 800);
    b.header.hash = B256 { w0: 11, w1: 0, w2: 0, w3: 1 };
    a.header.hash = h(11);
    assert_eq!(p.insert_block(a), BlockStatus::Valid);
    assert_eq!(p.insert_block(b), BlockStatus::Valid);
    assert_eq!(p.blocks().len(), 2);
    p.make_canonical(B256 { w0: 11, w1: 0, w2: 0, w3: 1 }).unwrap();
    assert_eq!(balance(&p.latest().unwrap(), 7), Some(800));
    assert!(p.block_by_hash(h(11)).is_some());
}
