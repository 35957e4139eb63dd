use vstd::prelude::*;
use crate::bus::CanonicalizationBus;
use crate::consistency::{
    lemma_finalize_wf, lemma_insert_wf, lemma_make_canonical_consistent, lemma_set_pending_wf,
    lemma_unwind_wf, tree_consistent,
};
use crate::error::ProviderError;
use crate::identity::{
    convert_block_number, resolve_number, B256, BlockId, BlockNumHash, BlockNumberOrTag, ChainInfo,
};
use crate::state::{compose_spec, empty_diff, u256_value, DiffView, StateDiff, StateView, U256};
use crate::store::{
    committed, find_hash, index_of_hash, info_of, lemma_index_of_hash, lemma_views,
    persisted_with, total_difficulty, views, last_withdrawal, BlockView, ChainStore, Header, Receipt, SealedBlock,
    TransactionMeta, Withdrawal,
};
use crate::tree::{
    branch_below, event_view, finalize_spec, insert_spec, lemma_branch_below, make_canonical_spec,
    model, positions, set_pending_spec, unwind_spec, walk, BlockStatus, CanonicalizationEvent,
    ChainModel, ForkTree,
};

verus! {

/// The chain progress that a model shows.
pub open spec fn info_spec(m: ChainModel) -> ChainInfo {
    info_of(m.canon, m.last_finalized, m.safe_finalized)
}

/// The number and hash of the model's pending block.
pub open spec fn pending_spec(m: ChainModel) -> Option<BlockNumHash> {
    match m.pending {
        Some(b) => Some(BlockNumHash { number: b.header.number, hash: b.header.hash }),
        None => None,
    }
}

/// The hash of canonical block `n`.
pub open spec fn canon_hash(canon: Seq<BlockView>, n: u64) -> Option<B256> {
    if n < canon.len() {
        Some(canon[n as int].header.hash)
    } else {
        None
    }
}

/// The hash that a block identity resolves to.
pub open spec fn hash_for_id(m: ChainModel, id: BlockId) -> Option<B256> {
    match id {
        BlockId::Hash(h) => Some(h),
        BlockId::Number(BlockNumberOrTag::Latest) => Some(info_spec(m).best_hash),
        BlockId::Number(BlockNumberOrTag::Pending) => match pending_spec(m) {
            Some(p) => Some(p.hash),
            None => Some(info_spec(m).best_hash),
        },
        BlockId::Number(num) => match resolve_number(info_spec(m), pending_spec(m), num) {
            Some(n) => canon_hash(m.canon, n),
            None => None,
        },
    }
}

/// The block that an identity resolves to: by hash among canonical, held
/// and pending blocks; by number or tag on the canonical chain, but for a
/// pending block that exists.
pub open spec fn block_for_id(m: ChainModel, id: BlockId) -> Option<BlockView> {
    match id {
        BlockId::Hash(h) => match index_of_hash(m.canon, h) {
            Some(i) => Some(m.canon[i]),
            None => match index_of_hash(m.nodes, h) {
                Some(i) => Some(m.nodes[i]),
                None => match m.pending {
                    Some(b) => if b.header.hash == h {
                        Some(b)
                    } else {
                        None
                    },
                    None => None,
                },
            },
        },
        BlockId::Number(num) => if num == BlockNumberOrTag::Pending && m.pending.is_some() {
            m.pending
        } else {
            match resolve_number(info_spec(m), pending_spec(m), num) {
                Some(n) => if n < m.canon.len() {
                    Some(m.canon[n as int])
                } else {
                    None
                },
                None => None,
            }
        },
    }
}

/// All changes of the held blocks at positions `p`, in order.
pub open spec fn branch_diff(nodes: Seq<BlockView>, p: Seq<int>) -> DiffView
    decreases p.len(),
{
    if p.len() == 0 {
        empty_diff()
    } else {
        compose_spec(branch_diff(nodes, p.drop_last()), nodes[p.last()].diff)
    }
}

/// Where the state after the block with hash `h` comes from: the canonical
/// block whose committed state is the base, and the diff layered on it for a
/// held block.
pub open spec fn state_source(m: ChainModel, h: B256) -> Option<(int, Option<DiffView>)> {
    match index_of_hash(m.canon, h) {
        Some(i) => Some((i, None)),
        None => match index_of_hash(m.nodes, h) {
            Some(t) => match branch_below(
                m.canon,
                m.nodes,
                m.nodes[t].header.parent_hash,
                m.nodes[t].header.number as int,
            ) {
                Some((f, p)) => Some((f, Some(branch_diff(m.nodes, p.push(t))))),
                None => None,
            },
            None => None,
        },
    }
}

/// `v` shows the committed state after canonical block `n`, with `over`
/// layered on it when there is one.
pub open spec fn shows(v: StateView, canon: Seq<BlockView>, n: int, over: Option<DiffView>) -> bool {
    match over {
        None => persisted_with(v, committed(canon, n)),
        Some(d) => match v {
            StateView::Overlay(base, x) => persisted_with(*base, committed(canon, n)) && x@ == d,
            _ => false,
        },
    }
}

/// The end of a number range clipped to a chain of `len` blocks.
pub open spec fn clip(end: u64, len: int) -> int {
    if end < len {
        end as int
    } else {
        len
    }
}

/// The hashes of the held blocks among the first `k` whose number is `number`,
/// in order.
pub open spec fn hashes_at(nodes: Seq<BlockView>, number: int, k: int) -> Seq<B256>
    decreases k,
{
    if k <= 0 {
        Seq::<B256>::empty()
    } else if nodes[k - 1].header.number == number {
        hashes_at(nodes, number, k - 1).push(nodes[k - 1].header.hash)
    } else {
        hashes_at(nodes, number, k - 1)
    }
}

/// The state view of a blockchain node: the persisted canonical chain, the
/// blocks held in memory, and the broadcast of chain changes.
pub struct BlockchainProvider {
    pub database: ChainStore,
    pub tree: ForkTree,
    pub bus: CanonicalizationBus,
}

impl BlockchainProvider {
    /// What the provider knows, as one model.
    pub open spec fn model(&self) -> ChainModel {
        model(self.database@, self.tree@)
    }

    /// The canonical chain is well formed, held and canonical blocks agree,
    /// and every subscriber reads within the log.
    pub open spec fn wf(&self) -> bool {
        self.database.wf() && self.bus.wf() && tree_consistent(self.model())
    }

    /// A provider over a database and a tree, with no subscribers yet.
    pub fn new(database: ChainStore, tree: ForkTree) -> (r: Self)
        requires
            database.wf(),
            tree_consistent(model(database@, tree@)),
        ensures
            r.wf(),
            r.model() == model(database@, tree@),
            r.bus@.log.len() == 0,
            r.bus@.cursors.len() == 0,
    {
        BlockchainProvider { database, tree, bus: CanonicalizationBus::new() }
    }

    /// The current progress of the canonical chain.
    pub fn chain_info(&self) -> (r: ChainInfo)
        requires
            self.wf(),
        ensures
            r == info_spec(self.model()),
    {
        self.database.chain_info()
    }

    /// The number and hash of the pending block, if there is one.
    pub fn pending_block(&self) -> (r: Option<BlockNumHash>)
        ensures
            r == pending_spec(self.model()),
    {
        self.tree.pending_block()
    }

    /// The number and hash of the canonical tip.
    pub fn canonical_tip(&self) -> (r: BlockNumHash)
        requires
            self.wf(),
        ensures
            r.number == info_spec(self.model()).best_number,
            r.hash == info_spec(self.model()).best_hash,
    {
        let info = self.database.chain_info();
        BlockNumHash { number: info.best_number, hash: info.best_hash }
    }

    /// Resolves a number or tag to a block number.
    pub fn convert_block_number(&self, num: BlockNumberOrTag) -> (r: Option<u64>)
        requires
            self.wf(),
        ensures
            r == resolve_number(info_spec(self.model()), pending_spec(self.model()), num),
    {
        let info = self.database.chain_info();
        convert_block_number(&info, self.tree.pending_block(), num)
    }

    /// Resolves a block identity to a block hash.
    pub fn block_hash_for_id(&self, id: BlockId) -> (r: Option<B256>)
        requires
            self.wf(),
        ensures
            r == hash_for_id(self.model(), id),
    {
        match id {
            BlockId::Hash(h) => Some(h),
            BlockId::Number(BlockNumberOrTag::Latest) => Some(self.database.chain_info().best_hash),
            BlockId::Number(BlockNumberOrTag::Pending) => match self.tree.pending_block() {
                Some(p) => Some(p.hash),
                None => Some(self.database.chain_info().best_hash),
            },
            BlockId::Number(num) => match self.convert_block_number(num) {
                Some(n) => self.database.block_hash(n),
                None => None,
            },
        }
    }

    /// The hash of canonical block `number`.
    pub fn block_hash(&self, number: u64) -> (r: Option<B256>)
        ensures
            r == canon_hash(self.model().canon, number),
    {
        self.database.block_hash(number)
    }

    /// The number of the canonical block with hash `hash`.
    pub fn block_number(&self, hash: B256) -> (r: Option<u64>)
        requires
            self.wf(),
        ensures
            r == (match index_of_hash(self.model().canon, hash) {
                Some(i) => Some(i as u64),
                None => None,
            }),
    {
        self.database.block_number(hash)
    }

    /// The header of the block with hash `hash`: canonical, held or pending.
    pub fn header(&self, hash: B256) -> (r: Option<Header>)
        requires
            self.wf(),
        ensures
            r == (match block_for_id(self.model(), BlockId::Hash(hash)) {
                Some(b) => Some(b.header),
                None => None,
            }),
    {
        match self.block(BlockId::Hash(hash)) {
            Some(b) => Some(b.header),
            None => None,
        }
    }

    /// The canonical header at `number`.
    pub fn header_by_number(&self, number: u64) -> (r: Option<Header>)
        ensures
            r == (if number < self.model().canon.len() {
                Some(self.model().canon[number as int].header)
            } else {
                None
            }),
    {
        self.database.header_by_number(number)
    }

    /// The number of the canonical block that holds transaction `tx_hash`.
    pub fn transaction_block(&self, tx_hash: B256) -> (r: Option<u64>)
        requires
            self.wf(),
        ensures
            match r {
                Some(n) => n < self.model().canon.len() && self.model().canon[n as int].transactions.contains(
                    tx_hash,
                ),
                None => forall|i: int|
                    0 <= i < self.model().canon.len() ==> !#[trigger] self.model().canon[i].transactions.contains(
                        tx_hash,
                    ),
            },
    {
        self.database.transaction_block(tx_hash)
    }

    /// A copy of the block that `id` resolves to.
    pub fn block(&self, id: BlockId) -> (r: Option<SealedBlock>)
        requires
            self.wf(),
        ensures
            match block_for_id(self.model(), id) {
                Some(b) => r matches Some(x) && x@ == b,
                None => r.is_none(),
            },
    {
        proof {
            lemma_views(self.database.blocks@);
            lemma_views(self.tree.nodes@);
        }
        match id {
            BlockId::Hash(h) => {
                proof {
                    lemma_index_of_hash(self.model().canon, h);
                }
                match find_hash(&self.database.blocks, h) {
                    Some(i) => Some(self.database.blocks[i].duplicate()),
                    None => match self.tree.block_by_hash(h) {
                        Some(b) => Some(b),
                        None => match &self.tree.pending {
                            Some(b) => if b.header.hash == h {
                                Some(b.duplicate())
                            } else {
                                None
                            },
                            None => None,
                        },
                    },
                }
            },
            BlockId::Number(num) => {
                if num == BlockNumberOrTag::Pending {
                    if let Some(b) = &self.tree.pending {
                        return Some(b.duplicate());
                    }
                }
                match self.convert_block_number(num) {
                    Some(n) => self.database.block_by_number(n),
                    None => None,
                }
            },
        }
    }

    /// A copy of the held block with hash `hash`.
    pub fn block_by_hash(&self, hash: B256) -> (r: Option<SealedBlock>)
        ensures
            match index_of_hash(self.model().nodes, hash) {
                Some(i) => r matches Some(b) && b@ == self.model().nodes[i],
                None => r.is_none(),
            },
    {
        self.tree.block_by_hash(hash)
    }

    /// The numbers and hashes of the held blocks.
    pub fn blocks(&self) -> (r: Vec<BlockNumHash>)
        ensures
            r@.len() == self.model().nodes.len(),
            forall|i: int|
                0 <= i < r@.len() ==> #[trigger] r@[i] == (BlockNumHash {
                    number: self.model().nodes[i].header.number,
                    hash: self.model().nodes[i].header.hash,
                }),
    {
        proof {
            lemma_views(self.tree.nodes@);
        }
        let mut r: Vec<BlockNumHash> = Vec::new();
        let mut i: usize = 0;
        while i < self.tree.nodes.len()
            invariant
                i <= self.tree.nodes@.len(),
                r@.len() == i,
                forall|k: int|
                    0 <= k < i ==> #[trigger] r@[k] == (BlockNumHash {
                        number: self.tree.nodes@[k].header.number,
                        hash: self.tree.nodes@[k].header.hash,
                    }),
            decreases self.tree.nodes.len() - i,
        {
            r.push(self.tree.nodes[i].num_hash());
            i = i + 1;
        }
        r
    }

    /// The state after the canonical tip.
    pub fn latest(&self) -> (r: Result<StateView, ProviderError>)
        requires
            self.wf(),
        ensures
            r matches Ok(v) && shows(v, self.model().canon, self.model().canon.len() - 1, None),
    {
        proof {
            lemma_views(self.database.blocks@);
        }
        let info = self.database.chain_info();
        proof {
            let c = self.model().canon;
            assert(c[c.len() - 1].header.number == c.len() - 1);
        }
        self.database.history_by_block_number(info.best_number)
    }

    /// The state after canonical block `number`.
    pub fn history_by_block_number(&self, number: u64) -> (r: Result<StateView, ProviderError>)
        ensures
            match r {
                Ok(v) => number < self.model().canon.len() && shows(
                    v,
                    self.model().canon,
                    number as int,
                    None,
                ),
                Err(e) => number >= self.model().canon.len() && e == ProviderError::NotFound,
            },
    {
        self.database.history_by_block_number(number)
    }

    /// The state after the block with hash `hash`: a canonical block, or a
    /// held block whose branch reaches the canonical chain.
    pub fn history_by_block_hash(&self, hash: B256) -> (r: Result<StateView, ProviderError>)
        requires
            self.wf(),
        ensures
            match state_source(self.model(), hash) {
                Some((n, over)) => r matches Ok(v) && shows(v, self.model().canon, n, over),
                None => r == Err::<StateView, ProviderError>(ProviderError::NotFound),
            },
    {
        let ghost m = self.model();
        proof {
            lemma_views(self.database.blocks@);
            lemma_views(self.tree.nodes@);
            lemma_index_of_hash(m.canon, hash);
            lemma_index_of_hash(m.nodes, hash);
            if let Some(i) = index_of_hash(m.canon, hash) {
                assert(m.canon[i].header.number == i);
            }
        }
        if let Some(n) = self.database.block_number(hash) {
            return self.database.history_by_block_number(n);
        }
        let t = match find_hash(&self.tree.nodes, hash) {
            Some(t) => t,
            None => {
                return Err(ProviderError::NotFound);
            },
        };
        let th = self.tree.nodes[t].header;
        let (f, mut path) = match walk(&self.database.blocks, &self.tree.nodes, th.parent_hash, th.number) {
            Some(x) => x,
            None => {
                return Err(ProviderError::NotFound);
            },
        };
        proof {
            lemma_branch_below(m.canon, m.nodes, th.parent_hash, th.number as int);
        }
        let ghost p0 = positions(path@);
        path.push(t);
        let ghost p = p0.push(t as int);
        assert(positions(path@) =~= p);
        let mut d = StateDiff::new();
        let mut k: usize = 0;
        while k < path.len()
            invariant
                k <= path@.len(),
                positions(path@) == p,
                p.len() == path@.len(),
                forall|j: int| 0 <= j < p.len() ==> 0 <= #[trigger] p[j] < m.nodes.len(),
                m.nodes == views(self.tree.nodes@),
                m.nodes.len() == self.tree.nodes@.len(),
                d@ == branch_diff(m.nodes, p.take(k as int)),
            decreases path.len() - k,
        {
            assert(p[k as int] == path@[k as int] as int);
            d.append_from(&self.tree.nodes[path[k]].diff);
            k = k + 1;
            assert(p.take(k as int).drop_last() =~= p.take(k - 1));
        }
        assert(p.take(k as int) =~= p);
        match self.database.history_by_block_number(f) {
            Ok(base) => Ok(StateView::overlay(base, d)),
            Err(e) => Err(e),
        }
    }

    /// The state after the pending block, or after the canonical tip when
    /// there is no pending block.
    pub fn pending(&self) -> (r: Result<StateView, ProviderError>)
        requires
            self.wf(),
        ensures
            r matches Ok(v) && shows(
                v,
                self.model().canon,
                self.model().canon.len() - 1,
                match self.model().pending {
                    Some(b) => Some(b.diff),
                    None => None,
                },
            ),
    {
        match &self.tree.pending {
            Some(b) => {
                let base = self.latest();
                match base {
                    Ok(base) => Ok(StateView::overlay(base, b.diff.duplicate())),
                    Err(e) => Err(e),
                }
            },
            None => self.latest(),
        }
    }

    /// Inserts a validated block and reports how it stands.
    pub fn insert_block(&mut self, block: SealedBlock) -> (r: BlockStatus)
        requires
            old(self).wf(),
        ensures
            final(self).wf(),
            final(self).bus == old(self).bus,
            (final(self).model(), r) == insert_spec(old(self).model(), block@),
    {
        let ghost m = self.model();
        let ghost b = block@;
        let r = self.tree.insert_block(&self.database, block);
        proof {
            lemma_insert_wf(m, b);
        }
        r
    }

    /// Sets the pending block, which must extend the canonical tip.
    pub fn set_pending_block(&mut self, block: SealedBlock) -> (r: Result<(), ProviderError>)
        requires
            old(self).wf(),
        ensures
            final(self).wf(),
            final(self).bus == old(self).bus,
            (final(self).model(), r) == set_pending_spec(old(self).model(), block@),
    {
        let ghost m = self.model();
        let ghost b = block@;
        let r = self.tree.set_pending_block(&self.database, block);
        proof {
            lemma_set_pending_wf(m, b);
        }
        r
    }

    /// Marks canonical block `n` as finalized and drops the held blocks that
    /// can no longer become canonical.
    pub fn finalize_block(&mut self, n: u64) -> (r: Result<(), ProviderError>)
        requires
            old(self).wf(),
        ensures
            final(self).wf(),
            final(self).bus == old(self).bus,
            (final(self).model(), r) == finalize_spec(old(self).model(), n),
    {
        let ghost m = self.model();
        let r = self.tree.finalize_block(&mut self.database, n);
        proof {
            lemma_finalize_wf(m, n);
        }
        r
    }

    /// Records canonical block `number` as the safe block.
    pub fn mark_safe_block(&mut self, number: u64) -> (r: Result<(), ProviderError>)
        requires
            old(self).wf(),
        ensures
            final(self).wf(),
            final(self).bus == old(self).bus,
            if number < old(self).model().canon.len() {
                r is Ok && final(self).model() == (ChainModel {
                    safe_finalized: Some(number),
                    ..old(self).model()
                })
            } else {
                r == Err::<(), ProviderError>(ProviderError::NotFound) && final(self).model()
                    == old(self).model()
            },
    {
        self.database.mark_safe_block(number)
    }

    /// Promotes the held block with hash `hash` to canonical tip and
    /// publishes the change; returns the published event, or `None` when the
    /// block was canonical already and nothing was published.
    pub fn make_canonical(&mut self, hash: B256) -> (r: Result<
        Option<CanonicalizationEvent>,
        ProviderError,
    >)
        requires
            old(self).wf(),
        ensures
            final(self).wf(),
            (final(self).model(), event_view(r)) == make_canonical_spec(old(self).model(), hash),
            final(self).bus@.cursors == old(self).bus@.cursors,
            final(self).bus@.log == match r {
                Ok(Some(e)) => old(self).bus@.log.push(e@),
                _ => old(self).bus@.log,
            },
    {
        let ghost m = self.model();
        let r = self.tree.make_canonical(&mut self.database, hash);
        proof {
            lemma_make_canonical_consistent(m, hash);
        }
        match r {
            Ok(Some(e)) => {
                self.bus.publish(e.duplicate());
                Ok(Some(e))
            },
            other => other,
        }
    }

    /// Moves the canonical blocks above `to` back to the held blocks and
    /// publishes the change; returns the published event, or `None` when
    /// nothing lay above `to`.
    pub fn unwind(&mut self, to: u64) -> (r: Result<Option<CanonicalizationEvent>, ProviderError>)
        requires
            old(self).wf(),
        ensures
            final(self).wf(),
            (final(self).model(), event_view(r)) == unwind_spec(old(self).model(), to),
            final(self).bus@.cursors == old(self).bus@.cursors,
            final(self).bus@.log == match r {
                Ok(Some(e)) => old(self).bus@.log.push(e@),
                _ => old(self).bus@.log,
            },
    {
        let ghost m = self.model();
        let r = self.tree.unwind(&mut self.database, to);
        proof {
            lemma_unwind_wf(m, to);
        }
        match r {
            Ok(Some(e)) => {
                self.bus.publish(e.duplicate());
                Ok(Some(e))
            },
            other => other,
        }
    }

    /// Adds a subscriber to chain changes and returns its id.
    pub fn subscribe_to_canonical_state(&mut self) -> (r: usize)
        requires
            old(self).wf(),
        ensures
            final(self).wf(),
            final(self).model() == old(self).model(),
            r == old(self).bus@.cursors.len(),
            final(self).bus@.cursors == old(self).bus@.cursors.push(
                old(self).bus@.log.len() as usize,
            ),
            final(self).bus@.log == old(self).bus@.log,
    {
        self.bus.subscribe()
    }

    /// The next chain change for subscriber `id`, if there is one.
    pub fn next_canonical_event(&mut self, id: usize) -> (r: Option<CanonicalizationEvent>)
        requires
            old(self).wf(),
        ensures
            final(self).wf(),
            final(self).model() == old(self).model(),
            final(self).bus@.log == old(self).bus@.log,
            if id < old(self).bus@.cursors.len() && old(self).bus@.cursors[id as int] < old(
                self,
            ).bus@.log.len() {
                &&& r matches Some(e) && e@ == old(self).bus@.log[old(
                    self,
                ).bus@.cursors[id as int] as int]
                &&& final(self).bus@.cursors == old(self).bus@.cursors.update(
                    id as int,
                    (old(self).bus@.cursors[id as int] + 1) as usize,
                )
            } else {
                r.is_none() && final(self).bus@.cursors == old(self).bus@.cursors
            },
    {
        self.bus.try_recv(id)
    }

    /// The canonical headers with numbers in `start..end`, in order.
    pub fn headers_range(&self, start: u64, end: u64) -> (r: Vec<Header>)
        ensures
            r@.len() == if start < clip(end, self.model().canon.len() as int) {
                clip(end, self.model().canon.len() as int) - start
            } else {
                0
            },
            forall|k: int|
                0 <= k < r@.len() ==> #[trigger] r@[k] == self.model().canon[start + k].header,
    {
        proof {
            lemma_views(self.database.blocks@);
        }
        let len_u = self.database.blocks.len();
        let len = len_u as u64;
        let stop = if end < len {
            end
        } else {
            len
        };
        let mut r: Vec<Header> = Vec::new();
        if start >= stop {
            return r;
        }
        let mut n = start;
        while n < stop
            invariant
                stop as int == clip(end, self.model().canon.len() as int),
                start <= n <= stop,
                stop <= len_u,
                len_u == self.database.blocks@.len(),
                r@.len() == n - start,
                forall|k: int|
                    0 <= k < r@.len() ==> #[trigger] r@[k] == self.model().canon[start + k].header,
            decreases stop - n,
        {
            proof {
                lemma_views(self.database.blocks@);
            }
            r.push(self.database.blocks[n as usize].header);
            n = n + 1;
        }
        r
    }

    /// The canonical hashes with numbers in `start..end`, in order.
    pub fn canonical_hashes_range(&self, start: u64, end: u64) -> (r: Vec<B256>)
        ensures
            r@.len() == if start < clip(end, self.model().canon.len() as int) {
                clip(end, self.model().canon.len() as int) - start
            } else {
                0
            },
            forall|k: int|
                0 <= k < r@.len() ==> #[trigger] r@[k] == self.model().canon[start + k].header.hash,
    {
        let hs = self.headers_range(start, end);
        let mut r: Vec<B256> = Vec::new();
        let mut i: usize = 0;
        while i < hs.len()
            invariant
                i <= hs@.len(),
                r@.len() == i,
                forall|k: int| 0 <= k < i ==> #[trigger] r@[k] == hs@[k].hash,
            decreases hs.len() - i,
        {
            r.push(hs[i].hash);
            i = i + 1;
        }
        r
    }

    /// The transaction hashes of the block that `id` resolves to.
    pub fn transactions_by_block(&self, id: BlockId) -> (r: Option<Vec<B256>>)
        requires
            self.wf(),
        ensures
            match block_for_id(self.model(), id) {
                Some(b) => r matches Some(x) && x@ == b.transactions,
                None => r.is_none(),
            },
    {
        match self.block(id) {
            Some(b) => Some(b.transactions),
            None => None,
        }
    }

    /// The total difficulty of the chain up to and including canonical block
    /// `number`.
    pub fn header_td_by_number(&self, number: u64) -> (r: Option<U256>)
        ensures
            match r {
                Some(td) => number < self.model().canon.len() && u256_value(td) == total_difficulty(
                    self.model().canon,
                    number + 1,
                ),
                None => number >= self.model().canon.len(),
            },
    {
        self.database.header_td_by_number(number)
    }

    /// The total difficulty of the chain up to and including the canonical
    /// block with hash `hash`.
    pub fn header_td(&self, hash: B256) -> (r: Option<U256>)
        requires
            self.wf(),
        ensures
            match index_of_hash(self.model().canon, hash) {
                Some(i) => r matches Some(td) && u256_value(td) == total_difficulty(
                    self.model().canon,
                    i + 1,
                ),
                None => r.is_none(),
            },
    {
        proof {
            lemma_index_of_hash(self.model().canon, hash);
            if let Some(i) = index_of_hash(self.model().canon, hash) {
                assert(self.model().canon[i].header.number == i);
            }
        }
        match self.database.block_number(hash) {
            Some(n) => self.database.header_td_by_number(n),
            None => None,
        }
    }

    /// The block and position of transaction `tx_hash` on the canonical chain.
    pub fn transaction_by_hash_with_meta(&self, tx_hash: B256) -> (r: Option<TransactionMeta>)
        requires
            self.wf(),
        ensures
            match r {
                Some(meta) => {
                    &&& meta.tx_hash == tx_hash
                    &&& meta.block_number < self.model().canon.len()
                    &&& meta.block_hash == self.model().canon[meta.block_number as int].header.hash
                    &&& meta.index < self.model().canon[meta.block_number as int].transactions.len()
                    &&& self.model().canon[meta.block_number as int].transactions[meta.index as int]
                        == tx_hash
                },
                None => forall|i: int|
                    0 <= i < self.model().canon.len() ==> !#[trigger] self.model().canon[i].transactions.contains(
                        tx_hash,
                    ),
            },
    {
        self.database.transaction_by_hash_with_meta(tx_hash)
    }

    /// A receipt of transaction `tx_hash` on the canonical chain.
    pub fn receipt_by_hash(&self, tx_hash: B256) -> (r: Option<Receipt>)
        ensures
            match r {
                Some(x) => x.tx_hash == tx_hash && exists|i: int, j: int|
                    0 <= i < self.model().canon.len() && 0 <= j < self.model().canon[i].receipts.len()
                        && #[trigger] self.model().canon[i].receipts[j] == x,
                None => forall|i: int, j: int|
                    0 <= i < self.model().canon.len() && 0 <= j < self.model().canon[i].receipts.len()
                        ==> #[trigger] self.model().canon[i].receipts[j].tx_hash != tx_hash,
            },
    {
        let r = self.database.receipt_by_hash(tx_hash);
        proof {
            if let Some(x) = r {
                let (i, j) = choose|i: int, j: int|
                    0 <= i < self.database@.canon.len() && 0 <= j
                        < self.database@.canon[i].receipts.len()
                        && #[trigger] self.database@.canon[i].receipts[j] == x;
                assert(self.model().canon[i].receipts[j] == x);
            }
        }
        r
    }

    /// The last withdrawal of the highest canonical block that has any.
    pub fn latest_withdrawal(&self) -> (r: Option<Withdrawal>)
        ensures
            r == last_withdrawal(self.model().canon),
    {
        self.database.latest_withdrawal()
    }

    /// The receipts of the block that `id` resolves to.
    pub fn receipts_by_block(&self, id: BlockId) -> (r: Option<Vec<Receipt>>)
        requires
            self.wf(),
        ensures
            match block_for_id(self.model(), id) {
                Some(b) => r matches Some(x) && x@ == b.receipts,
                None => r.is_none(),
            },
    {
        match self.block(id) {
            Some(b) => Some(b.receipts),
            None => None,
        }
    }

    /// The withdrawals of the block that `id` resolves to.
    pub fn withdrawals_by_block(&self, id: BlockId) -> (r: Option<Vec<Withdrawal>>)
        requires
            self.wf(),
        ensures
            match block_for_id(self.model(), id) {
                Some(b) => r matches Some(x) && x@ == b.withdrawals,
                None => r.is_none(),
            },
    {
        match self.block(id) {
            Some(b) => Some(b.withdrawals),
            None => None,
        }
    }

    /// The state after the block with hash `fork_hash`, with `diff` layered
    /// on it.
    pub fn pending_with_provider(&self, fork_hash: B256, diff: StateDiff) -> (r: Result<
        StateView,
        ProviderError,
    >)
        requires
            self.wf(),
        ensures
            match state_source(self.model(), fork_hash) {
                Some((n, over)) => r matches Ok(v) && (match v {
                    StateView::Overlay(base, d) => shows(*base, self.model().canon, n, over) && d@
                        == diff@,
                    _ => false,
                }),
                None => r == Err::<StateView, ProviderError>(ProviderError::NotFound),
            },
    {
        match self.history_by_block_hash(fork_hash) {
            Ok(base) => Ok(StateView::overlay(base, diff)),
            Err(e) => Err(e),
        }
    }

    /// The numbers and hashes of the canonical blocks, oldest first.
    pub fn canonical_blocks(&self) -> (r: Vec<BlockNumHash>)
        requires
            self.wf(),
        ensures
            r@.len() == self.model().canon.len(),
            forall|i: int|
                0 <= i < r@.len() ==> #[trigger] r@[i] == (BlockNumHash {
                    number: i as u64,
                    hash: self.model().canon[i].header.hash,
                }),
    {
        proof {
            lemma_views(self.database.blocks@);
        }
        let mut r: Vec<BlockNumHash> = Vec::new();
        let mut i: usize = 0;
        while i < self.database.blocks.len()
            invariant
                self.database.wf(),
                i <= self.database.blocks@.len(),
                r@.len() == i,
                forall|k: int|
                    0 <= k < i ==> #[trigger] r@[k] == (BlockNumHash {
                        number: k as u64,
                        hash: self.model().canon[k].header.hash,
                    }),
            decreases self.database.blocks.len() - i,
        {
            r.push(BlockNumHash { number: i as u64, hash: self.database.blocks[i].header.hash });
            i = i + 1;
        }
        r
    }

    /// The number just above the canonical tip, and the hashes of the held
    /// blocks at that number, in the order they were inserted.
    pub fn pending_blocks(&self) -> (r: (u64, Vec<B256>))
        requires
            self.wf(),
        ensures
            r.0 == self.model().canon.len(),
            r.1@ == hashes_at(
                self.model().nodes,
                self.model().canon.len() as int,
                self.model().nodes.len() as int,
            ),
    {
        proof {
            lemma_views(self.tree.nodes@);
        }
        let number = self.database.blocks.len() as u64;
        let mut r: Vec<B256> = Vec::new();
        let mut i: usize = 0;
        while i < self.tree.nodes.len()
            invariant
                i <= self.tree.nodes@.len(),
                number == self.model().canon.len(),
                self.model().nodes == views(self.tree.nodes@),
                self.model().nodes.len() == self.tree.nodes@.len(),
                r@ == hashes_at(self.model().nodes, number as int, i as int),
            decreases self.tree.nodes.len() - i,
        {
            if self.tree.nodes[i].header.number == number {
                r.push(self.tree.nodes[i].header.hash);
            }
            i = i + 1;
        }
        (number, r)
    }
}

} // verus!
