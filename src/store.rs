use vstd::prelude::*;
use crate::identity::{BlockNumHash, ChainInfo, B256};
use crate::state::{compose_spec, empty_diff, u256_value, DiffView, StateDiff, StateView, U256};

verus! {

/// The header fields that place a block in the chain.
#[derive(Debug, Clone, Copy, PartialEq, Eq, Structural)]
pub struct Header {
    pub hash: B256,
    pub parent_hash: B256,
    pub number: u64,
    pub difficulty: u64,
}

/// The outcome of one transaction.
#[derive(Debug, Clone, Copy, PartialEq, Eq, Structural)]
pub struct Receipt {
    pub tx_hash: B256,
    pub success: bool,
    pub cumulative_gas_used: u64,
}

/// A withdrawal from the consensus layer.
#[derive(Debug, Clone, Copy, PartialEq, Eq, Structural)]
pub struct Withdrawal {
    pub index: u64,
    pub validator_index: u64,
    pub address: B256,
    pub amount: u64,
}

/// The sum of the difficulties of blocks `0..n` of `canon`.
pub open spec fn total_difficulty(canon: Seq<BlockView>, n: int) -> int
    decreases n,
{
    if n <= 0 {
        0
    } else {
        total_difficulty(canon, n - 1) + canon[n - 1].header.difficulty
    }
}

/// The sum of `n` difficulties is at most `n` times the largest one.
pub proof fn lemma_total_difficulty_bound(canon: Seq<BlockView>, n: int)
    requires
        0 <= n,
    ensures
        0 <= total_difficulty(canon, n) <= n * 0xffff_ffff_ffff_ffff,
    decreases n,
{
    if n > 0 {
        lemma_total_difficulty_bound(canon, n - 1);
        assert((n - 1) * 0xffff_ffff_ffff_ffff + 0xffff_ffff_ffff_ffff == n * 0xffff_ffff_ffff_ffff)
            by (nonlinear_arith);
    }
}

/// Where a transaction stands on the canonical chain.
#[derive(Debug, Clone, Copy, PartialEq, Eq, Structural)]
pub struct TransactionMeta {
    pub tx_hash: B256,
    pub block_hash: B256,
    pub block_number: u64,
    pub index: u64,
}

/// The last withdrawal of the highest block of `canon` that has any.
pub open spec fn last_withdrawal(canon: Seq<BlockView>) -> Option<Withdrawal>
    decreases canon.len(),
{
    if canon.len() == 0 {
        None
    } else if canon.last().withdrawals.len() > 0 {
        Some(canon.last().withdrawals.last())
    } else {
        last_withdrawal(canon.drop_last())
    }
}

/// A block with its transactions (by hash), their receipts, its withdrawals
/// and the state changes that executing it produced.
#[derive(Debug)]
pub struct SealedBlock {
    pub header: Header,
    pub transactions: Vec<B256>,
    pub receipts: Vec<Receipt>,
    pub withdrawals: Vec<Withdrawal>,
    pub diff: StateDiff,
}

/// The mathematical content of a `SealedBlock`.
pub ghost struct BlockView {
    pub header: Header,
    pub transactions: Seq<B256>,
    pub receipts: Seq<Receipt>,
    pub withdrawals: Seq<Withdrawal>,
    pub diff: DiffView,
}

impl View for SealedBlock {
    type V = BlockView;

    open spec fn view(&self) -> BlockView {
        BlockView {
            header: self.header,
            transactions: self.transactions@,
            receipts: self.receipts@,
            withdrawals: self.withdrawals@,
            diff: self.diff@,
        }
    }
}

/// The contents of a sequence of blocks.
pub open spec fn views(s: Seq<SealedBlock>) -> Seq<BlockView> {
    s.map_values(|b: SealedBlock| b@)
}

/// The headers of a sequence of blocks.
pub open spec fn headers(s: Seq<BlockView>) -> Seq<Header> {
    s.map_values(|b: BlockView| b.header)
}

/// The last position of a block with hash `hash` in `s`.
pub open spec fn index_of_hash(s: Seq<BlockView>, hash: B256) -> Option<int>
    decreases s.len(),
{
    if s.len() == 0 {
        None
    } else if s.last().header.hash == hash {
        Some(s.len() - 1)
    } else {
        index_of_hash(s.drop_last(), hash)
    }
}

/// What the last-position search finds.
pub proof fn lemma_index_of_hash(s: Seq<BlockView>, hash: B256)
    ensures
        match index_of_hash(s, hash) {
            Some(i) => 0 <= i < s.len() && s[i].header.hash == hash,
            None => forall|i: int| 0 <= i < s.len() ==> s[i].header.hash != hash,
        },
    decreases s.len(),
{
    if s.len() > 0 {
        lemma_index_of_hash(s.drop_last(), hash);
        assert(forall|i: int| 0 <= i < s.len() - 1 ==> s.drop_last()[i] == s[i]);
    }
}

/// The contents of a sequence of blocks, position by position.
pub proof fn lemma_views(s: Seq<SealedBlock>)
    ensures
        views(s).len() == s.len(),
        forall|i: int| 0 <= i < s.len() ==> #[trigger] views(s)[i] == s[i]@,
{
}

/// Finds the last position of a block with hash `hash`.
pub fn find_hash(s: &Vec<SealedBlock>, hash: B256) -> (r: Option<usize>)
    ensures
        match r {
            Some(i) => index_of_hash(views(s@), hash) == Some(i as int) && i < s@.len(),
            None => index_of_hash(views(s@), hash).is_none(),
        },
{
    let mut i: usize = s.len();
    proof {
        lemma_views(s@);
        lemma_index_of_hash(views(s@), hash);
    }
    assert(views(s@).take(i as int) =~= views(s@));
    while i > 0
        invariant
            i <= s@.len(),
            views(s@).len() == s@.len(),
            index_of_hash(views(s@), hash) == index_of_hash(views(s@).take(i as int), hash),
        decreases i,
    {
        assert(views(s@).take(i as int).drop_last() =~= views(s@).take(i - 1));
        if s[i - 1].header.hash == hash {
            return Some(i - 1);
        }
        i = i - 1;
    }
    None
}

/// All the changes of blocks `0..=n` of `canon`, in order.
pub open spec fn committed(canon: Seq<BlockView>, n: int) -> DiffView
    decreases n + 1,
{
    if n < 0 {
        empty_diff()
    } else {
        compose_spec(committed(canon, n - 1), canon[n].diff)
    }
}

/// The persisted view whose changes are `d`.
pub open spec fn persisted_with(v: StateView, d: DiffView) -> bool {
    match v {
        StateView::Persisted(x) => x@ == d,
        _ => false,
    }
}

/// A copy of a list of plain values.
pub fn copy_all<T: Copy>(v: &Vec<T>) -> (r: Vec<T>)
    ensures
        r@ == v@,
{
    let mut r: Vec<T> = Vec::new();
    let mut i: usize = 0;
    while i < v.len()
        invariant
            i <= v@.len(),
            r@ =~= v@.take(i as int),
        decreases v.len() - i,
    {
        r.push(v[i]);
        i = i + 1;
        assert(v@.take(i as int) =~= v@.take(i - 1).push(v@[i - 1]));
    }
    assert(v@.take(i as int) =~= v@);
    r
}

impl SealedBlock {
    /// A copy of this block.
    pub fn duplicate(&self) -> (r: SealedBlock)
        ensures
            r@ == self@,
    {
        SealedBlock {
            header: self.header,
            transactions: copy_all(&self.transactions),
            receipts: copy_all(&self.receipts),
            withdrawals: copy_all(&self.withdrawals),
            diff: self.diff.duplicate(),
        }
    }

    /// The number and hash of this block.
    pub fn num_hash(&self) -> (r: BlockNumHash)
        ensures
            r == (BlockNumHash { number: self.header.number, hash: self.header.hash }),
    {
        BlockNumHash { number: self.header.number, hash: self.header.hash }
    }
}

/// The durable record of the canonical chain.
pub struct ChainStore {
    pub blocks: Vec<SealedBlock>,
    pub last_finalized: Option<u64>,
    pub safe_finalized: Option<u64>,
}

/// The mathematical content of a `ChainStore`.
pub ghost struct StoreView {
    pub canon: Seq<BlockView>,
    pub last_finalized: Option<u64>,
    pub safe_finalized: Option<u64>,
}

impl View for ChainStore {
    type V = StoreView;

    open spec fn view(&self) -> StoreView {
        StoreView {
            canon: views(self.blocks@),
            last_finalized: self.last_finalized,
            safe_finalized: self.safe_finalized,
        }
    }
}

/// Chain progress of a canonical chain.
pub open spec fn info_of(canon: Seq<BlockView>, fin: Option<u64>, safe: Option<u64>) -> ChainInfo {
    ChainInfo {
        best_number: (canon.len() - 1) as u64,
        best_hash: canon.last().header.hash,
        last_finalized: fin,
        safe_finalized: safe,
    }
}

/// The canonical chain starts at genesis and block `i` has number `i`; the
/// finalized and safe marks lie on it.
pub open spec fn canon_wf(canon: Seq<BlockView>, fin: Option<u64>, safe: Option<u64>) -> bool {
    &&& canon.len() >= 1
    &&& forall|i: int| 0 <= i < canon.len() ==> #[trigger] canon[i].header.number == i
    &&& forall|i: int|
        0 < i < canon.len() ==> #[trigger] canon[i].header.parent_hash == canon[i - 1].header.hash
    &&& fin matches Some(f) ==> f < canon.len()
    &&& safe matches Some(s) ==> s < canon.len()
}

impl ChainStore {
    /// The stored chain is well formed.
    pub open spec fn wf(&self) -> bool {
        canon_wf(self@.canon, self.last_finalized, self.safe_finalized)
    }

    /// A chain that holds only its genesis block, numbered zero.
    pub fn new(genesis: SealedBlock) -> (r: ChainStore)
        requires
            genesis.header.number == 0,
        ensures
            r.wf(),
            r@.canon == seq![genesis@],
            r@.last_finalized.is_none(),
            r@.safe_finalized.is_none(),
    {
        let mut blocks: Vec<SealedBlock> = Vec::new();
        let ghost g = genesis@;
        blocks.push(genesis);
        assert(views(blocks@) =~= seq![g]);
        ChainStore { blocks, last_finalized: None, safe_finalized: None }
    }

    /// Records canonical block `number` as the safe block.
    pub fn mark_safe_block(&mut self, number: u64) -> (r: Result<(), crate::error::ProviderError>)
        requires
            old(self).wf(),
        ensures
            final(self).wf(),
            final(self)@.canon == old(self)@.canon,
            final(self)@.last_finalized == old(self)@.last_finalized,
            if number < old(self)@.canon.len() {
                r is Ok && final(self)@.safe_finalized == Some(number)
            } else {
                r == Err::<(), crate::error::ProviderError>(crate::error::ProviderError::NotFound)
                    && final(self)@.safe_finalized == old(self)@.safe_finalized
            },
    {
        proof {
            lemma_views(self.blocks@);
        }
        if number >= self.blocks.len() as u64 {
            return Err(crate::error::ProviderError::NotFound);
        }
        self.safe_finalized = Some(number);
        Ok(())
    }

    /// The current progress of the chain.
    pub fn chain_info(&self) -> (r: ChainInfo)
        requires
            self.wf(),
        ensures
            r == info_of(self@.canon, self@.last_finalized, self@.safe_finalized),
    {
        proof {
            lemma_views(self.blocks@);
        }
        let last = self.blocks.len() - 1;
        ChainInfo {
            best_number: last as u64,
            best_hash: self.blocks[last].header.hash,
            last_finalized: self.last_finalized,
            safe_finalized: self.safe_finalized,
        }
    }

    /// The hash of the canonical block at `number`.
    pub fn block_hash(&self, number: u64) -> (r: Option<B256>)
        ensures
            r == (if number < self@.canon.len() {
                Some(self@.canon[number as int].header.hash)
            } else {
                None
            }),
    {
        proof {
            lemma_views(self.blocks@);
        }
        if number < self.blocks.len() as u64 {
            Some(self.blocks[number as usize].header.hash)
        } else {
            None
        }
    }

    /// The canonical header at `number`.
    pub fn header_by_number(&self, number: u64) -> (r: Option<Header>)
        ensures
            r == (if number < self@.canon.len() {
                Some(self@.canon[number as int].header)
            } else {
                None
            }),
    {
        proof {
            lemma_views(self.blocks@);
        }
        if number < self.blocks.len() as u64 {
            Some(self.blocks[number as usize].header)
        } else {
            None
        }
    }

    /// The number of the canonical block with hash `hash`.
    pub fn block_number(&self, hash: B256) -> (r: Option<u64>)
        requires
            self.wf(),
        ensures
            r == (match index_of_hash(self@.canon, hash) {
                Some(i) => Some(i as u64),
                None => None,
            }),
    {
        proof {
            lemma_views(self.blocks@);
            lemma_index_of_hash(self@.canon, hash);
        }
        match find_hash(&self.blocks, hash) {
            Some(i) => Some(i as u64),
            None => None,
        }
    }

    /// The canonical header with hash `hash`.
    pub fn header(&self, hash: B256) -> (r: Option<Header>)
        ensures
            r == (match index_of_hash(self@.canon, hash) {
                Some(i) => Some(self@.canon[i].header),
                None => None,
            }),
    {
        proof {
            lemma_views(self.blocks@);
            lemma_index_of_hash(self@.canon, hash);
        }
        match find_hash(&self.blocks, hash) {
            Some(i) => Some(self.blocks[i].header),
            None => None,
        }
    }

    /// A copy of the canonical block at `number`.
    pub fn block_by_number(&self, number: u64) -> (r: Option<SealedBlock>)
        ensures
            match r {
                Some(b) => number < self@.canon.len() && b@ == self@.canon[number as int],
                None => number >= self@.canon.len(),
            },
    {
        proof {
            lemma_views(self.blocks@);
        }
        if number < self.blocks.len() as u64 {
            Some(self.blocks[number as usize].duplicate())
        } else {
            None
        }
    }

    /// The total difficulty of the chain up to and including canonical block
    /// `number`.
    pub fn header_td_by_number(&self, number: u64) -> (r: Option<U256>)
        ensures
            match r {
                Some(td) => number < self@.canon.len() && u256_value(td) == total_difficulty(
                    self@.canon,
                    number + 1,
                ),
                None => number >= self@.canon.len(),
            },
    {
        proof {
            lemma_views(self.blocks@);
        }
        let len = self.blocks.len();
        if number >= len as u64 {
            return None;
        }
        let n = number as usize;
        let mut sum: u128 = 0;
        let mut i: usize = 0;
        while i <= n
            invariant
                len == self.blocks@.len(),
                n < len,
                i <= n + 1,
                sum == total_difficulty(self@.canon, i as int),
            decreases n + 1 - i,
        {
            proof {
                lemma_views(self.blocks@);
                lemma_total_difficulty_bound(self@.canon, i as int);
                assert(i * 0xffff_ffff_ffff_ffff + 0xffff_ffff_ffff_ffff < 0x1_0000_0000_0000_0000_0000_0000_0000_0000)
                    by (nonlinear_arith)
                    requires
                        i < 0xffff_ffff_ffff_ffff,
                ;
            }
            sum = sum + self.blocks[i].header.difficulty as u128;
            i = i + 1;
        }
        Some(U256::from_u128(sum))
    }

    /// The block and position of transaction `tx_hash` on the canonical chain.
    pub fn transaction_by_hash_with_meta(&self, tx_hash: B256) -> (r: Option<TransactionMeta>)
        requires
            self.wf(),
        ensures
            match r {
                Some(meta) => {
                    &&& meta.tx_hash == tx_hash
                    &&& meta.block_number < self@.canon.len()
                    &&& meta.block_hash == self@.canon[meta.block_number as int].header.hash
                    &&& meta.index < self@.canon[meta.block_number as int].transactions.len()
                    &&& self@.canon[meta.block_number as int].transactions[meta.index as int]
                        == tx_hash
                },
                None => forall|i: int|
                    0 <= i < self@.canon.len() ==> !#[trigger] self@.canon[i].transactions.contains(
                        tx_hash,
                    ),
            },
    {
        proof {
            lemma_views(self.blocks@);
        }
        let mut i: usize = 0;
        while i < self.blocks.len()
            invariant
                i <= self.blocks@.len(),
                forall|k: int|
                    0 <= k < i ==> !#[trigger] self@.canon[k].transactions.contains(tx_hash),
            decreases self.blocks.len() - i,
        {
            let txs = &self.blocks[i].transactions;
            let mut j: usize = 0;
            while j < txs.len()
                invariant
                    j <= txs@.len(),
                    i < self.blocks@.len(),
                    txs@ == self@.canon[i as int].transactions,
                    forall|k: int| 0 <= k < j ==> txs@[k] != tx_hash,
                decreases txs.len() - j,
            {
                if txs[j] == tx_hash {
                    return Some(
                        TransactionMeta {
                            tx_hash,
                            block_hash: self.blocks[i].header.hash,
                            block_number: i as u64,
                            index: j as u64,
                        },
                    );
                }
                j = j + 1;
            }
            i = i + 1;
        }
        None
    }

    /// A receipt of transaction `tx_hash` on the canonical chain.
    pub fn receipt_by_hash(&self, tx_hash: B256) -> (r: Option<Receipt>)
        ensures
            match r {
                Some(x) => x.tx_hash == tx_hash && exists|i: int, j: int|
                    0 <= i < self@.canon.len() && 0 <= j < self@.canon[i].receipts.len()
                        && #[trigger] self@.canon[i].receipts[j] == x,
                None => forall|i: int, j: int|
                    0 <= i < self@.canon.len() && 0 <= j < self@.canon[i].receipts.len()
                        ==> #[trigger] self@.canon[i].receipts[j].tx_hash != tx_hash,
            },
    {
        proof {
            lemma_views(self.blocks@);
        }
        let mut i: usize = 0;
        while i < self.blocks.len()
            invariant
                i <= self.blocks@.len(),
                forall|k: int, j: int|
                    0 <= k < i && 0 <= j < self@.canon[k].receipts.len()
                        ==> #[trigger] self@.canon[k].receipts[j].tx_hash != tx_hash,
            decreases self.blocks.len() - i,
        {
            let rs = &self.blocks[i].receipts;
            let mut j: usize = 0;
            while j < rs.len()
                invariant
                    j <= rs@.len(),
                    i < self.blocks@.len(),
                    rs@ == self@.canon[i as int].receipts,
                    forall|k: int| 0 <= k < j ==> #[trigger] rs@[k].tx_hash != tx_hash,
                decreases rs.len() - j,
            {
                if rs[j].tx_hash == tx_hash {
                    assert(self@.canon[i as int].receipts[j as int] == rs@[j as int]);
                    return Some(rs[j]);
                }
                j = j + 1;
            }
            i = i + 1;
        }
        None
    }

    /// The last withdrawal of the highest canonical block that has any.
    pub fn latest_withdrawal(&self) -> (r: Option<Withdrawal>)
        ensures
            r == last_withdrawal(self@.canon),
    {
        proof {
            lemma_views(self.blocks@);
        }
        let mut i: usize = self.blocks.len();
        assert(self@.canon.take(i as int) =~= self@.canon);
        while i > 0
            invariant
                i <= self.blocks@.len(),
                self@.canon.len() == self.blocks@.len(),
                forall|k: int| 0 <= k < self.blocks@.len() ==> #[trigger] self@.canon[k] == self.blocks@[k]@,
                last_withdrawal(self@.canon) == last_withdrawal(self@.canon.take(i as int)),
            decreases i,
        {
            assert(self@.canon.take(i as int).drop_last() =~= self@.canon.take(i - 1));
            let ws = &self.blocks[i - 1].withdrawals;
            if ws.len() > 0 {
                return Some(ws[ws.len() - 1]);
            }
            i = i - 1;
        }
        None
    }

    /// The number of the canonical block that holds transaction `tx_hash`.
    pub fn transaction_block(&self, tx_hash: B256) -> (r: Option<u64>)
        requires
            self.wf(),
        ensures
            match r {
                Some(n) => n < self@.canon.len() && self@.canon[n as int].transactions.contains(
                    tx_hash,
                ),
                None => forall|i: int|
                    0 <= i < self@.canon.len() ==> !#[trigger] self@.canon[i].transactions.contains(
                        tx_hash,
                    ),
            },
    {
        proof {
            lemma_views(self.blocks@);
        }
        let mut i: usize = 0;
        while i < self.blocks.len()
            invariant
                i <= self.blocks@.len(),
                forall|k: int|
                    0 <= k < i ==> !#[trigger] self@.canon[k].transactions.contains(tx_hash),
            decreases self.blocks.len() - i,
        {
            let txs = &self.blocks[i].transactions;
            let mut j: usize = 0;
            while j < txs.len()
                invariant
                    j <= txs@.len(),
                    i < self.blocks@.len(),
                    txs@ == self@.canon[i as int].transactions,
                    forall|k: int| 0 <= k < j ==> txs@[k] != tx_hash,
                decreases txs.len() - j,
            {
                if txs[j] == tx_hash {
                    assert(self@.canon[i as int].transactions.contains(tx_hash));
                    return Some(i as u64);
                }
                j = j + 1;
            }
            i = i + 1;
        }
        None
    }

    /// The committed state after block `number`.
    pub fn history_by_block_number(&self, number: u64) -> (r: Result<StateView, crate::error::ProviderError>)
        ensures
            match r {
                Ok(v) => number < self@.canon.len() && persisted_with(v, committed(self@.canon, number as int)),
                Err(e) => number >= self@.canon.len() && e == crate::error::ProviderError::NotFound,
            },
    {
        proof {
            lemma_views(self.blocks@);
        }
        if number >= self.blocks.len() as u64 {
            return Err(crate::error::ProviderError::NotFound);
        }
        let n = number as usize;
        let len = self.blocks.len();
        let mut d = StateDiff::new();
        let mut i: usize = 0;
        while i <= n
            invariant
                len == self.blocks@.len(),
                n < len,
                i <= n + 1,
                d@ == committed(self@.canon, i - 1),
            decreases n + 1 - i,
        {
            d.append_from(&self.blocks[i].diff);
            i = i + 1;
        }
        Ok(StateView::Persisted(d))
    }
}

} // verus!
