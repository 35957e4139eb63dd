use chainview::error::ProviderError;
use chainview::identity::{B256, 
    convert_block_number, BlockId, BlockNumHash, BlockNumberOrTag, ChainInfo,
};
use chainview::provider::BlockchainProvider;
use chainview::state::{Account, StateDiff, U256};
use chainview::store::{ChainStore, Header, Receipt, SealedBlock, Withdrawal};
use chainview::tree::ForkTree;

fn h(n: u64) -> B256 {
    B256::from_low(n)
}

fn blk(hash: u64, parent_hash: u64, number: u64, balance: u128) -> SealedBlock {
    let mut diff = StateDiff::new();
    diff.set_account(h(7), Some(Account { balance: U256::from_u128(balance), nonce: number, code_hash: h(0) }));
    SealedBlock {
        header: Header { hash: h(hash), parent_hash: h(parent_hash), number, difficulty: number + 10 },
        transactions: vec![h(hash + 1000), h(hash + 2000)],
        receipts: vec![
            Receipt { tx_hash: h(hash + 1000), success: true, cumulative_gas_used: 21000 },
            Receipt { tx_hash: h(hash + 2000), success: false, cumulative_gas_used: 50000 },
        ],
        withdrawals: vec![Withdrawal { index: hash, validator_index: 1, address: h(7), amount: number }],
        diff,
    }
}

fn three_blocks() -> BlockchainProvider {
    let mut p = BlockchainProvider::new(ChainStore::new(blk(1, 0, 0, 10)), ForkTree::new());
    p.insert_block(blk(2, 1, 1, 20));
    p.insert_block(blk(3, 2, 2, 30));
    p.make_canonical(h(3)).unwrap();
    p
}

#[test]
fn ranges_are_clipped_to_the_chain() {
    let p = three_blocks();
    let hs: Vec<u64> = p.headers_range(1, 10).iter().map(|x| x.hash.w0).collect();
    assert_eq!(hs, vec![2, 3]);
    assert_eq!(p.canonical_hashes_range(0, 2), vec![h(1), h(2)]);
    assert!(p.canonical_hashes_range(2, 2).is_empty());
    assert!(p.canonical_hashes_range(5, 9).is_empty());
    assert!(p.headers_range(2, 1).is_empty());
}

#[test]
fn canonical_and_pending_blocks() {
    let mut p = three_blocks();
    assert_eq!(
        p.canonical_blocks(),
        vec![
            BlockNumHash { number: 0, hash: h(1) },
            BlockNumHash { number: 1, hash: h(2) },
            BlockNumHash { number: 2, hash: h(3) },
        ]
    );
    p.insert_block(blk(4, 3, 3, 40));
    p.insert_block(blk(5, 3, 3, 50));
    p.insert_block(blk(6, 2, 2, 60));
    assert_eq!(p.pending_blocks(), (3, vec![h(4), h(5)]));
}

#[test]
fn transactions_of_a_block() {
    let mut p = three_blocks();
    assert_eq!(p.transactions_by_block(BlockId::Hash(h(2))), Some(vec![h(1002), h(2002)]));
    assert_eq!(
        p.transactions_by_block(BlockId::Number(BlockNumberOrTag::Latest)),
        Some(vec![h(1003), h(2003)])
    );
    assert_eq!(p.transactions_by_block(BlockId::Hash(h(99))), None);
    p.insert_block(blk(8, 2, 2, 80));
    assert_eq!(p.transactions_by_block(BlockId::Hash(h(8))), Some(vec![h(1008), h(2008)]));
}

#[test]
fn pending_with_a_given_diff() {
    let mut p = three_blocks();
    let mut d = StateDiff::new();
    d.set_account(h(9), Some(Account { balance: U256::from_u128(1), nonce: 0, code_hash: h(0) }));
    let v = p.pending_with_provider(h(2), d).unwrap();
    assert_eq!(v.basic_account(h(9)).unwrap().balance, U256::from_u128(1));
    assert_eq!(v.basic_account(h(7)).unwrap().balance, U256::from_u128(20));
    assert_eq!(
        p.pending_with_provider(h(77), StateDiff::new()).unwrap_err(),
        ProviderError::NotFound
    );
    // a side block as the base
    p.insert_block(blk(8, 2, 2, 80));
    let v = p.pending_with_provider(h(8), StateDiff::new()).unwrap();
    assert_eq!(v.basic_account(h(7)).unwrap().balance, U256::from_u128(80));
}

#[test]
fn safe_tag_follows_the_mark() {
    let mut p = three_blocks();
    assert_eq!(p.convert_block_number(BlockNumberOrTag::Safe), None);
    assert_eq!(p.mark_safe_block(1), Ok(()));
    assert_eq!(p.convert_block_number(BlockNumberOrTag::Safe), Some(1));
    assert_eq!(p.block_hash_for_id(BlockId::Number(BlockNumberOrTag::Safe)), Some(h(2)));
    assert_eq!(p.mark_safe_block(3), Err(ProviderError::NotFound));
    // unwinding below the safe block drops the mark
    p.unwind(0).unwrap();
    assert_eq!(p.chain_info().safe_finalized, None);
}

#[test]
fn resolution_from_chain_info() {
    let info = ChainInfo { best_number: 5, best_hash: h(50), last_finalized: Some(3), safe_finalized: None };
    let pending = Some(BlockNumHash { number: 6, hash: h(60) });
    assert_eq!(convert_block_number(&info, None, BlockNumberOrTag::Pending), Some(5));
    assert_eq!(convert_block_number(&info, pending, BlockNumberOrTag::Pending), Some(6));
    assert_eq!(convert_block_number(&info, pending, BlockNumberOrTag::Latest), Some(5));
    assert_eq!(convert_block_number(&info, pending, BlockNumberOrTag::Finalized), Some(3));
    assert_eq!(convert_block_number(&info, pending, BlockNumberOrTag::Safe), None);
    assert_eq!(convert_block_number(&info, pending, BlockNumberOrTag::Earliest), Some(0));
}

#[test]
fn receipts_and_withdrawals_of_a_block() {
    let mut p = three_blocks();
    let rs = p.receipts_by_block(BlockId::Number(BlockNumberOrTag::Number(1))).unwrap();
    assert_eq!(rs.len(), 2);
    assert_eq!(rs[0].tx_hash, h(1002));
    assert!(!rs[1].success);
    assert_eq!(rs[1].cumulative_gas_used, 50000);
    let ws = p.withdrawals_by_block(BlockId::Hash(h(3))).unwrap();
    assert_eq!(ws, vec![Withdrawal { index: 3, validator_index: 1, address: h(7), amount: 2 }]);
    assert!(p.receipts_by_block(BlockId::Hash(h(99))).is_none());
    assert!(p.withdrawals_by_block(BlockId::Number(BlockNumberOrTag::Finalized)).is_none());
    p.insert_block(blk(8, 2, 2, 80));
    assert_eq!(p.withdrawals_by_block(BlockId::Hash(h(8))).unwrap()[0].amount, 2);
}

#[test]
fn lookups_by_transaction_hash() {
    let p = three_blocks();
    let meta = p.transaction_by_hash_with_meta(h(2003)).unwrap();
    assert_eq!(meta.block_number, 2);
    assert_eq!(meta.block_hash, h(3));
    assert_eq!(meta.index, 1);
    assert_eq!(meta.tx_hash, h(2003));
    assert!(p.transaction_by_hash_with_meta(h(5)).is_none());
    let r = p.receipt_by_hash(h(2002)).unwrap();
    assert_eq!(r.tx_hash, h(2002));
    assert!(!r.success);
    assert!(p.receipt_by_hash(h(5)).is_none());
}

#[test]
fn latest_withdrawal_is_from_the_highest_block() {
    let mut p = three_blocks();
    assert_eq!(
        p.latest_withdrawal(),
        Some(Withdrawal { index: 3, validator_index: 1, address: h(7), amount: 2 })
    );
    // a newer block without withdrawals leaves the answer as it was
    let mut b = blk(4, 3, 3, 40);
    b.withdrawals = vec![];
    p.insert_block(b);
    p.make_canonical(h(4)).unwrap();
    assert_eq!(p.latest_withdrawal().unwrap().index, 3);
}

#[test]
fn total_difficulty_sums_up_to_the_block() {
    let p = three_blocks();
    // difficulties are 10, 11, 12
    assert_eq!(p.header_td_by_number(0), Some(U256::from_u128(10)));
    assert_eq!(p.header_td_by_number(2), Some(U256::from_u128(33)));
    assert_eq!(p.header_td_by_number(3), None);
    assert_eq!(p.header_td(h(2)), Some(U256::from_u128(21)));
    assert_eq!(p.header_td(h(99)), None);
}
