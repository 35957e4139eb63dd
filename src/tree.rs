use vstd::prelude::*;
use crate::identity::B256;
use crate::error::ProviderError;
use crate::store::{
    copy_all, find_hash, headers, index_of_hash, lemma_index_of_hash, lemma_views, views,
    BlockView, ChainStore, Header, SealedBlock, StoreView,
};

verus! {

/// How an inserted block stands against the canonical chain.
#[derive(Debug, Clone, Copy, PartialEq, Eq, Structural)]
pub enum BlockStatus {
    /// The block's branch forks off at the canonical tip.
    Valid,
    /// The block's branch forks off below the canonical tip.
    Accepted,
    /// No chain of known parents leads from the block to the canonical chain.
    Disconnected,
}

/// A change of the canonical chain: blocks that left it, oldest first, and
/// blocks that joined it, oldest first.
#[derive(Debug)]
pub struct CanonicalizationEvent {
    pub reverted: Vec<Header>,
    pub committed: Vec<Header>,
}

/// The mathematical content of a `CanonicalizationEvent`.
pub ghost struct EventView {
    pub reverted: Seq<Header>,
    pub committed: Seq<Header>,
}

impl View for CanonicalizationEvent {
    type V = EventView;

    open spec fn view(&self) -> EventView {
        EventView { reverted: self.reverted@, committed: self.committed@ }
    }
}

impl CanonicalizationEvent {
    /// A copy of this event.
    pub fn duplicate(&self) -> (r: CanonicalizationEvent)
        ensures
            r@ == self@,
    {
        CanonicalizationEvent {
            reverted: copy_all(&self.reverted),
            committed: copy_all(&self.committed),
        }
    }
}

/// The blocks that are held in memory: validated blocks off the canonical
/// chain, and the pending block built on the canonical tip.
pub struct ForkTree {
    pub nodes: Vec<SealedBlock>,
    pub pending: Option<SealedBlock>,
}

/// The mathematical content of a `ForkTree`.
pub ghost struct TreeView {
    pub nodes: Seq<BlockView>,
    pub pending: Option<BlockView>,
}

impl View for ForkTree {
    type V = TreeView;

    open spec fn view(&self) -> TreeView {
        TreeView {
            nodes: views(self.nodes@),
            pending: match self.pending {
                Some(b) => Some(b@),
                None => None,
            },
        }
    }
}

/// Everything the chain view knows: the canonical chain with its finality
/// marks, and the blocks held in memory.
pub ghost struct ChainModel {
    pub canon: Seq<BlockView>,
    pub nodes: Seq<BlockView>,
    pub pending: Option<BlockView>,
    pub last_finalized: Option<u64>,
    pub safe_finalized: Option<u64>,
}

/// The model of a store and a tree taken together.
pub open spec fn model(store: StoreView, tree: TreeView) -> ChainModel {
    ChainModel {
        canon: store.canon,
        nodes: tree.nodes,
        pending: tree.pending,
        last_finalized: store.last_finalized,
        safe_finalized: store.safe_finalized,
    }
}

/// The last position of a held block with this hash and number.
pub open spec fn find_node(nodes: Seq<BlockView>, hash: B256, number: int) -> Option<int>
    decreases nodes.len(),
{
    if nodes.len() == 0 {
        None
    } else if nodes.last().header.hash == hash && nodes.last().header.number == number {
        Some(nodes.len() - 1)
    } else {
        find_node(nodes.drop_last(), hash, number)
    }
}

/// What the search for a held block finds.
pub proof fn lemma_find_node(nodes: Seq<BlockView>, hash: B256, number: int)
    ensures
        match find_node(nodes, hash, number) {
            Some(i) => 0 <= i < nodes.len() && nodes[i].header.hash == hash
                && nodes[i].header.number == number,
            None => true,
        },
    decreases nodes.len(),
{
    if nodes.len() > 0 {
        lemma_find_node(nodes.drop_last(), hash, number);
    }
}

/// The branch below a block at `number` whose parent has hash `parent`:
/// the canonical number it forks off at, and the positions of the held
/// blocks from there up to the parent, oldest first.
pub open spec fn branch_below(
    canon: Seq<BlockView>,
    nodes: Seq<BlockView>,
    parent: B256,
    number: int,
) -> Option<(int, Seq<int>)>
    decreases number,
{
    if number <= 0 {
        None
    } else if number - 1 < canon.len() && canon[number - 1].header.hash == parent {
        Some((number - 1, Seq::<int>::empty()))
    } else {
        match find_node(nodes, parent, number - 1) {
            Some(i) => match branch_below(canon, nodes, nodes[i].header.parent_hash, number - 1) {
                Some((f, p)) => Some((f, p.push(i))),
                None => None,
            },
            None => None,
        }
    }
}

/// The shape of a branch: it starts on the canonical chain and each block is
/// the child of the one before.
pub proof fn lemma_branch_below(
    canon: Seq<BlockView>,
    nodes: Seq<BlockView>,
    parent: B256,
    number: int,
)
    ensures
        branch_below(canon, nodes, parent, number) matches Some((f, p)) ==> {
            &&& 0 <= f < canon.len()
            &&& f + p.len() + 1 == number
            &&& forall|k: int|
                0 <= k < p.len() ==> 0 <= #[trigger] p[k] < nodes.len() && nodes[p[k]].header.number
                    == f + 1 + k
            &&& forall|k: int|
                0 < k < p.len() ==> #[trigger] nodes[p[k]].header.parent_hash == nodes[p[k
                    - 1]].header.hash
            &&& p.len() == 0 ==> canon[f].header.hash == parent
            &&& p.len() > 0 ==> canon[f].header.hash == nodes[p[0]].header.parent_hash
                && nodes[p.last()].header.hash == parent
        },
    decreases number,
{
    if number > 0 && !(number - 1 < canon.len() && canon[number - 1].header.hash == parent) {
        lemma_find_node(nodes, parent, number - 1);
        match find_node(nodes, parent, number - 1) {
            Some(i) => {
                lemma_branch_below(canon, nodes, nodes[i].header.parent_hash, number - 1);
            },
            None => {},
        }
    }
}

/// Positions as mathematical integers.
pub open spec fn positions(p: Seq<usize>) -> Seq<int> {
    p.map_values(|i: usize| i as int)
}

/// How a block with header `h` stands among `canon` and `nodes`.
pub open spec fn status_of(canon: Seq<BlockView>, nodes: Seq<BlockView>, h: Header) -> BlockStatus {
    match branch_below(canon, nodes, h.parent_hash, h.number as int) {
        Some((f, _)) => if f == canon.len() - 1 {
            BlockStatus::Valid
        } else {
            BlockStatus::Accepted
        },
        None => BlockStatus::Disconnected,
    }
}

/// Inserting a block: a known block changes nothing; a new one is held,
/// whether or not its parents are known yet, unless it could never become
/// canonical because finalization already ruled out its branch: such a block
/// is refused, reported `Disconnected` and not held.
pub open spec fn insert_spec(m: ChainModel, b: BlockView) -> (ChainModel, BlockStatus) {
    if index_of_hash(m.canon, b.header.hash).is_some() {
        (m, BlockStatus::Valid)
    } else {
        match index_of_hash(m.nodes, b.header.hash) {
            Some(i) => (m, status_of(m.canon, m.nodes, m.nodes[i].header)),
            None => {
                let nodes = m.nodes.push(b);
                if m.last_finalized matches Some(fin) && !survives(
                    m.canon,
                    nodes,
                    fin as int,
                    b.header,
                ) {
                    (m, BlockStatus::Disconnected)
                } else {
                    (ChainModel { nodes, ..m }, status_of(m.canon, nodes, b.header))
                }
            },
        }
    }
}

/// The blocks of `nodes` among the first `k` whose position is not in `p`,
/// in order.
pub open spec fn without(nodes: Seq<BlockView>, p: Seq<int>, k: int) -> Seq<BlockView>
    decreases k,
{
    if k <= 0 {
        Seq::<BlockView>::empty()
    } else if p.contains(k - 1) {
        without(nodes, p, k - 1)
    } else {
        without(nodes, p, k - 1).push(nodes[k - 1])
    }
}

/// The blocks of `nodes` at the positions `p`, in the order of `p`.
pub open spec fn picked(nodes: Seq<BlockView>, p: Seq<int>) -> Seq<BlockView> {
    p.map_values(|i: int| nodes[i])
}

/// A mark that is dropped when it lies above `top`.
pub open spec fn clamp_mark(mark: Option<u64>, top: int) -> Option<u64> {
    match mark {
        Some(s) => if s > top {
            None
        } else {
            Some(s)
        },
        None => None,
    }
}

/// The event of a successful promotion, if any.
pub open spec fn event_view(r: Result<Option<CanonicalizationEvent>, ProviderError>) -> Result<
    Option<EventView>,
    ProviderError,
> {
    match r {
        Ok(Some(e)) => Ok(Some(e@)),
        Ok(None) => Ok(None),
        Err(e) => Err(e),
    }
}

/// Promoting the held block with hash `hash` to canonical tip.
///
/// A block that is already canonical changes nothing and yields no event.
/// Otherwise the held block's branch is walked down to its fork point on the
/// canonical chain: the canonical blocks above the fork point go back to the
/// held blocks, the branch replaces them, and the pending block is dropped.
/// Reverting a finalized block is refused, and so is a block numbered below
/// the canonical tip: only an unwind lowers the tip.
pub open spec fn make_canonical_spec(m: ChainModel, hash: B256) -> (
    ChainModel,
    Result<Option<EventView>, ProviderError>,
) {
    if index_of_hash(m.canon, hash).is_some() {
        (m, Ok(None))
    } else {
        match index_of_hash(m.nodes, hash) {
            None => (m, Err(ProviderError::NotFound)),
            Some(t) => if m.nodes[t].header.number < m.canon.len() - 1 {
                (m, Err(ProviderError::InvalidTransition))
            } else {
                match branch_below(
                m.canon,
                m.nodes,
                m.nodes[t].header.parent_hash,
                m.nodes[t].header.number as int,
            ) {
                None => (m, Err(ProviderError::InvalidTransition)),
                Some((f, p0)) => if m.last_finalized matches Some(fin) && f < fin {
                    (m, Err(ProviderError::InvalidTransition))
                } else {
                    let p = p0.push(t);
                    let joined = picked(m.nodes, p);
                    let left = m.canon.skip(f + 1);
                    (
                        ChainModel {
                            canon: m.canon.take(f + 1) + joined,
                            nodes: without(m.nodes, p, m.nodes.len() as int) + left,
                            pending: None,
                            safe_finalized: clamp_mark(m.safe_finalized, f),
                            ..m
                        },
                        Ok(Some(EventView { reverted: headers(left), committed: headers(joined) })),
                    )
                },
                }
            },
        }
    }
}

/// Reverting the canonical chain down to block `to`: the blocks above it go
/// back to the held blocks. A target at or below the finalized block is
/// refused; a target at or above the tip changes nothing.
pub open spec fn unwind_spec(m: ChainModel, to: u64) -> (
    ChainModel,
    Result<Option<EventView>, ProviderError>,
) {
    if m.last_finalized matches Some(fin) && to <= fin {
        (m, Err(ProviderError::InvalidTransition))
    } else if to as int >= m.canon.len() - 1 {
        (m, Ok(None))
    } else {
        let left = m.canon.skip(to + 1);
        (
            ChainModel {
                canon: m.canon.take(to + 1),
                nodes: m.nodes + left,
                pending: None,
                safe_finalized: clamp_mark(m.safe_finalized, to as int),
                ..m
            },
            Ok(Some(EventView { reverted: headers(left), committed: Seq::<Header>::empty() })),
        )
    }
}

/// Whether a held block survives finalization of block `n`: its branch must
/// fork off at or above `n`, or, while it is disconnected, it must lie above `n`.
pub open spec fn survives(canon: Seq<BlockView>, nodes: Seq<BlockView>, n: int, h: Header) -> bool {
    match branch_below(canon, nodes, h.parent_hash, h.number as int) {
        Some((f, _)) => f >= n,
        None => h.number > n,
    }
}

/// The first `k` held blocks that survive finalization of block `n`, in order.
pub open spec fn pruned(canon: Seq<BlockView>, nodes: Seq<BlockView>, n: int, k: int) -> Seq<
    BlockView,
>
    decreases k,
{
    if k <= 0 {
        Seq::<BlockView>::empty()
    } else if survives(canon, nodes, n, nodes[k - 1].header) {
        pruned(canon, nodes, n, k - 1).push(nodes[k - 1])
    } else {
        pruned(canon, nodes, n, k - 1)
    }
}

/// Finalizing canonical block `n`: the mark moves up (never down) and held
/// blocks that can no longer become canonical are dropped.
pub open spec fn finalize_spec(m: ChainModel, n: u64) -> (ChainModel, Result<(), ProviderError>) {
    if n as int >= m.canon.len() {
        (m, Err(ProviderError::NotFound))
    } else if m.last_finalized matches Some(fin) && n < fin {
        (m, Err(ProviderError::InvalidTransition))
    } else {
        (
            ChainModel {
                nodes: pruned(m.canon, m.nodes, n as int, m.nodes.len() as int),
                last_finalized: Some(n),
                ..m
            },
            Ok(()),
        )
    }
}

/// Setting the pending block: it must be the next block on the canonical tip.
pub open spec fn set_pending_spec(m: ChainModel, b: BlockView) -> (
    ChainModel,
    Result<(), ProviderError>,
) {
    if b.header.parent_hash == m.canon.last().header.hash && b.header.number == m.canon.len() {
        (ChainModel { pending: Some(b), ..m }, Ok(()))
    } else {
        (m, Err(ProviderError::InvalidTransition))
    }
}

/// The chain that a promotion builds is numbered by position and linked by
/// parent hashes.
pub proof fn lemma_promoted_chain(canon: Seq<BlockView>, nodes: Seq<BlockView>, t: int)
    requires
        0 <= t < nodes.len(),
        branch_below(canon, nodes, nodes[t].header.parent_hash, nodes[t].header.number as int)
            is Some,
        forall|i: int| 0 <= i < canon.len() ==> #[trigger] canon[i].header.number == i,
        forall|i: int|
            0 < i < canon.len() ==> #[trigger] canon[i].header.parent_hash == canon[i - 1].header.hash,
    ensures
        ({
            let (f, p0) = branch_below(
                canon,
                nodes,
                nodes[t].header.parent_hash,
                nodes[t].header.number as int,
            ).unwrap();
            let c = canon.take(f + 1) + picked(nodes, p0.push(t));
            &&& forall|j: int| 0 <= j < c.len() ==> #[trigger] c[j].header.number == j
            &&& forall|j: int|
                0 < j < c.len() ==> #[trigger] c[j].header.parent_hash == c[j - 1].header.hash
        }),
{
    let th = nodes[t].header;
    lemma_branch_below(canon, nodes, th.parent_hash, th.number as int);
    let (f, p0) = branch_below(canon, nodes, th.parent_hash, th.number as int).unwrap();
    let p = p0.push(t);
    let q = picked(nodes, p);
    let c = canon.take(f + 1) + q;
    assert(0 <= f < canon.len());
    assert(c.len() == f + 1 + p.len());
    assert forall|k: int| 0 <= k < p.len() implies 0 <= #[trigger] p[k] < nodes.len()
        && nodes[p[k]].header.number == f + 1 + k by {
        if k < p0.len() {
            assert(p[k] == p0[k]);
        } else {
            assert(p[k] == t);
        }
    }
    assert forall|j: int| 0 <= j < c.len() implies #[trigger] c[j].header.number == j by {
        if j > f {
            let k = j - f - 1;
            assert(q[k] == nodes[p[k]]);
            assert(c[j] == q[k]);
            assert(nodes[p[k]].header.number == f + 1 + k);
            assert(c[j].header.number == j);
        } else {
            assert(c[j] == canon[j]);
            assert(canon[j].header.number == j);
            assert(c[j].header.number == j);
        }
    }
    assert forall|j: int| 0 < j < c.len() implies #[trigger] c[j].header.parent_hash
        == c[j - 1].header.hash by {
        if j > f + 1 {
            let k = j - f - 1;
            assert(q[k] == nodes[p[k]] && q[k - 1] == nodes[p[k - 1]]);
            assert(c[j] == q[k] && c[j - 1] == q[k - 1]);
            assert(p[k - 1] == p0[k - 1]);
            if k < p0.len() {
                assert(p[k] == p0[k]);
                assert(nodes[p0[k]].header.parent_hash == nodes[p0[k - 1]].header.hash);
            } else {
                assert(p[k] == t);
                assert(nodes[p0.last()].header.hash == th.parent_hash);
            }
            assert(c[j].header.parent_hash == c[j - 1].header.hash);
        } else if j == f + 1 {
            assert(q[0] == nodes[p[0]]);
            assert(c[j] == q[0]);
            assert(c[j - 1] == canon[f]);
            if p0.len() > 0 {
                assert(p[0] == p0[0]);
            } else {
                assert(p[0] == t);
            }
            assert(c[j].header.parent_hash == c[j - 1].header.hash);
        } else {
            assert(c[j] == canon[j] && c[j - 1] == canon[j - 1]);
            assert(canon[j].header.parent_hash == canon[j - 1].header.hash);
            assert(c[j].header.parent_hash == c[j - 1].header.hash);
        }
    }
}

/// Whether `i` is one of the positions `p`.
fn holds_position(p: &Vec<usize>, i: usize) -> (r: bool)
    ensures
        r == positions(p@).contains(i as int),
{
    let mut k: usize = 0;
    while k < p.len()
        invariant
            k <= p@.len(),
            forall|j: int| 0 <= j < k ==> p@[j] != i,
        decreases p.len() - k,
    {
        if p[k] == i {
            assert(positions(p@)[k as int] == i as int);
            return true;
        }
        k = k + 1;
    }
    assert forall|j: int| 0 <= j < positions(p@).len() implies positions(p@)[j] != i as int by {
        assert(p@[j] != i);
    }
    false
}

/// The headers of a list of blocks.
pub fn headers_of(v: &Vec<SealedBlock>) -> (r: Vec<Header>)
    ensures
        r@ == headers(views(v@)),
{
    let mut r: Vec<Header> = Vec::new();
    let mut i: usize = 0;
    while i < v.len()
        invariant
            i <= v@.len(),
            r@ =~= headers(views(v@)).take(i as int),
        decreases v.len() - i,
    {
        r.push(v[i].header);
        i = i + 1;
        assert(headers(views(v@)).take(i as int) =~= headers(views(v@)).take(i - 1).push(
            v@[i - 1].header,
        ));
    }
    assert(headers(views(v@)).take(i as int) =~= headers(views(v@)));
    r
}

/// Finds the last held block with this hash and number.
fn find_node_exec(nodes: &Vec<SealedBlock>, hash: B256, number: u64) -> (r: Option<usize>)
    ensures
        match r {
            Some(i) => find_node(views(nodes@), hash, number as int) == Some(i as int),
            None => find_node(views(nodes@), hash, number as int).is_none(),
        },
{
    proof {
        lemma_views(nodes@);
    }
    let mut i: usize = nodes.len();
    assert(views(nodes@).take(i as int) =~= views(nodes@));
    while i > 0
        invariant
            i <= nodes@.len(),
            views(nodes@).len() == nodes@.len(),
            find_node(views(nodes@), hash, number as int) == find_node(
                views(nodes@).take(i as int),
                hash,
                number as int,
            ),
        decreases i,
    {
        assert(views(nodes@).take(i as int).drop_last() =~= views(nodes@).take(i - 1));
        if nodes[i - 1].header.hash == hash && nodes[i - 1].header.number == number {
            return Some(i - 1);
        }
        i = i - 1;
    }
    None
}

/// Walks parent links from a block at `number` with parent `parent` down to
/// the canonical chain.
pub(crate) fn walk(canon: &Vec<SealedBlock>, nodes: &Vec<SealedBlock>, parent: B256, number: u64) -> (r: Option<
    (u64, Vec<usize>),
>)
    ensures
        match branch_below(views(canon@), views(nodes@), parent, number as int) {
            Some((f, p)) => r matches Some((rf, rp)) && rf == f && positions(rp@) == p,
            None => r.is_none(),
        },
    decreases number,
{
    proof {
        lemma_views(canon@);
        lemma_views(nodes@);
    }
    if number == 0 {
        return None;
    }
    if number - 1 < canon.len() as u64 && canon[(number - 1) as usize].header.hash == parent {
        let e: Vec<usize> = Vec::new();
        assert(positions(e@) =~= Seq::<int>::empty());
        return Some((number - 1, e));
    }
    match find_node_exec(nodes, parent, number - 1) {
        Some(i) => {
            proof {
                lemma_find_node(views(nodes@), parent, number - 1);
            }
            match walk(canon, nodes, nodes[i].header.parent_hash, number - 1) {
                Some((f, p)) => {
                    let mut p = p;
                    let ghost old_p = p@;
                    p.push(i);
                    assert(positions(p@) =~= positions(old_p).push(i as int));
                    Some((f, p))
                },
                None => None,
            }
        },
        None => None,
    }
}

/// How a block with header `h` stands among the canonical chain and `nodes`.
fn status_exec(canon: &Vec<SealedBlock>, nodes: &Vec<SealedBlock>, h: Header) -> (r: BlockStatus)
    requires
        canon@.len() >= 1,
    ensures
        r == status_of(views(canon@), views(nodes@), h),
{
    proof {
        lemma_views(canon@);
    }
    match walk(canon, nodes, h.parent_hash, h.number) {
        Some((f, _)) => if f == (canon.len() - 1) as u64 {
            BlockStatus::Valid
        } else {
            BlockStatus::Accepted
        },
        None => BlockStatus::Disconnected,
    }
}

impl ForkTree {
    /// A tree that holds nothing.
    pub fn new() -> (r: ForkTree)
        ensures
            r@.nodes == Seq::<BlockView>::empty(),
            r@.pending.is_none(),
    {
        let r = ForkTree { nodes: Vec::new(), pending: None };
        assert(r@.nodes =~= Seq::<BlockView>::empty());
        r
    }

    /// Inserts a validated block and reports how it stands.
    pub fn insert_block(&mut self, store: &ChainStore, block: SealedBlock) -> (r: BlockStatus)
        requires
            store.wf(),
        ensures
            (model(store@, final(self)@), r) == insert_spec(model(store@, old(self)@), block@),
    {
        proof {
            lemma_views(store.blocks@);
            lemma_views(self.nodes@);
            lemma_index_of_hash(views(self.nodes@), block.header.hash);
        }
        let h = block.header;
        if find_hash(&store.blocks, h.hash).is_some() {
            return BlockStatus::Valid;
        }
        match find_hash(&self.nodes, h.hash) {
            Some(i) => {
                let hi = self.nodes[i].header;
                status_exec(&store.blocks, &self.nodes, hi)
            },
            None => {
                let ghost b = block@;
                self.nodes.push(block);
                assert(views(self.nodes@) =~= views(old(self).nodes@).push(b));
                let w = walk(&store.blocks, &self.nodes, h.parent_hash, h.number);
                let keep = match store.last_finalized {
                    Some(fin) => match &w {
                        Some((f, _)) => *f >= fin,
                        None => h.number > fin,
                    },
                    None => true,
                };
                if !keep {
                    self.nodes.pop();
                    assert(views(self.nodes@) =~= views(old(self).nodes@));
                    return BlockStatus::Disconnected;
                }
                proof {
                    lemma_views(store.blocks@);
                }
                match w {
                    Some((f, _)) => if f == (store.blocks.len() - 1) as u64 {
                        BlockStatus::Valid
                    } else {
                        BlockStatus::Accepted
                    },
                    None => BlockStatus::Disconnected,
                }
            },
        }
    }

    /// Promotes the held block with hash `hash`, and its branch, to the
    /// canonical chain; returns the event that describes the change, or
    /// `None` when the block was canonical already.
    pub fn make_canonical(&mut self, store: &mut ChainStore, hash: B256) -> (r: Result<
        Option<CanonicalizationEvent>,
        ProviderError,
    >)
        requires
            old(store).wf(),
        ensures
            final(store).wf(),
            (model(final(store)@, final(self)@), event_view(r)) == make_canonical_spec(
                model(old(store)@, old(self)@),
                hash,
            ),
    {
        let ghost m = model(store@, self@);
        proof {
            lemma_views(store.blocks@);
            lemma_views(self.nodes@);
            lemma_index_of_hash(views(self.nodes@), hash);
        }
        if find_hash(&store.blocks, hash).is_some() {
            return Ok(None);
        }
        let t = match find_hash(&self.nodes, hash) {
            None => {
                return Err(ProviderError::NotFound);
            },
            Some(t) => t,
        };
        let th = self.nodes[t].header;
        if th.number < (store.blocks.len() - 1) as u64 {
            return Err(ProviderError::InvalidTransition);
        }
        let (f, mut path) = match walk(&store.blocks, &self.nodes, th.parent_hash, th.number) {
            None => {
                return Err(ProviderError::InvalidTransition);
            },
            Some(x) => x,
        };
        if let Some(fin) = store.last_finalized {
            if f < fin {
                return Err(ProviderError::InvalidTransition);
            }
        }
        let ghost p0 = positions(path@);
        proof {
            lemma_branch_below(m.canon, m.nodes, th.parent_hash, th.number as int);
        }
        path.push(t);
        let ghost p = p0.push(t as int);
        assert(positions(path@) =~= p);
        let ghost joined = picked(m.nodes, p);
        let mut committed: Vec<SealedBlock> = Vec::new();
        let mut k: usize = 0;
        while k < path.len()
            invariant
                k <= path@.len(),
                positions(path@) == p,
                p.len() == path@.len(),
                forall|j: int| 0 <= j < p.len() ==> 0 <= #[trigger] p[j] < m.nodes.len(),
                m.nodes == views(self.nodes@),
                m.nodes.len() == self.nodes@.len(),
                joined == picked(m.nodes, p),
                views(committed@) =~= joined.take(k as int),
            decreases path.len() - k,
        {
            assert(p[k as int] == path@[k as int] as int);
            let ghost before = committed@;
            committed.push(self.nodes[path[k]].duplicate());
            k = k + 1;
            assert(views(committed@) =~= views(before).push(joined[k - 1]));
            assert(joined.take(k as int) =~= joined.take(k - 1).push(joined[k - 1]));
        }
        assert(joined.take(k as int) =~= joined);
        let mut remaining: Vec<SealedBlock> = Vec::new();
        let mut i: usize = 0;
        while i < self.nodes.len()
            invariant
                i <= self.nodes@.len(),
                positions(path@) == p,
                m.nodes == views(self.nodes@),
                m.nodes.len() == self.nodes@.len(),
                views(remaining@) =~= without(m.nodes, p, i as int),
            decreases self.nodes.len() - i,
        {
            if !holds_position(&path, i) {
                let ghost before = remaining@;
                remaining.push(self.nodes[i].duplicate());
                assert(views(remaining@) =~= views(before).push(m.nodes[i as int]));
            }
            i = i + 1;
        }
        let len = store.blocks.len();
        assert(f < len);
        let at: usize = f as usize + 1;
        let mut reverted = store.blocks.split_off(at);
        let ghost left = m.canon.skip(f + 1);
        assert(views(reverted@) =~= left);
        assert(views(store.blocks@) =~= m.canon.take(f + 1));
        let event = CanonicalizationEvent {
            reverted: headers_of(&reverted),
            committed: headers_of(&committed),
        };
        store.blocks.append(&mut committed);
        assert(views(store.blocks@) =~= m.canon.take(f + 1) + joined);
        remaining.append(&mut reverted);
        assert(views(remaining@) =~= without(m.nodes, p, m.nodes.len() as int) + left);
        self.nodes = remaining;
        self.pending = None;
        store.safe_finalized = match store.safe_finalized {
            Some(sf) => if sf > f {
                None
            } else {
                Some(sf)
            },
            None => None,
        };
        proof {
            lemma_promoted_chain(m.canon, m.nodes, t as int);
        }
        Ok(Some(event))
    }

    /// Moves the canonical blocks above `to` back to the held blocks; returns
    /// the event that describes the change, or `None` when nothing lies above.
    pub fn unwind(&mut self, store: &mut ChainStore, to: u64) -> (r: Result<
        Option<CanonicalizationEvent>,
        ProviderError,
    >)
        requires
            old(store).wf(),
        ensures
            final(store).wf(),
            (model(final(store)@, final(self)@), event_view(r)) == unwind_spec(
                model(old(store)@, old(self)@),
                to,
            ),
    {
        let ghost m = model(store@, self@);
        proof {
            lemma_views(store.blocks@);
            lemma_views(self.nodes@);
        }
        if let Some(fin) = store.last_finalized {
            if to <= fin {
                return Err(ProviderError::InvalidTransition);
            }
        }
        let len = store.blocks.len();
        if to >= (len - 1) as u64 {
            return Ok(None);
        }
        let at: usize = to as usize + 1;
        let mut reverted = store.blocks.split_off(at);
        let ghost left = m.canon.skip(to + 1);
        assert(views(reverted@) =~= left);
        assert(views(store.blocks@) =~= m.canon.take(to + 1));
        let event = CanonicalizationEvent { reverted: headers_of(&reverted), committed: Vec::new() };
        assert(event@.committed =~= Seq::<Header>::empty());
        self.nodes.append(&mut reverted);
        assert(views(self.nodes@) =~= m.nodes + left);
        self.pending = None;
        store.safe_finalized = match store.safe_finalized {
            Some(sf) => if sf > to {
                None
            } else {
                Some(sf)
            },
            None => None,
        };
        Ok(Some(event))
    }

    /// Marks canonical block `n` as finalized and drops the held blocks that
    /// can no longer become canonical.
    pub fn finalize_block(&mut self, store: &mut ChainStore, n: u64) -> (r: Result<(), ProviderError>)
        requires
            old(store).wf(),
        ensures
            final(store).wf(),
            (model(final(store)@, final(self)@), r) == finalize_spec(
                model(old(store)@, old(self)@),
                n,
            ),
    {
        let ghost m = model(store@, self@);
        proof {
            lemma_views(store.blocks@);
            lemma_views(self.nodes@);
        }
        if n >= store.blocks.len() as u64 {
            return Err(ProviderError::NotFound);
        }
        if let Some(fin) = store.last_finalized {
            if n < fin {
                return Err(ProviderError::InvalidTransition);
            }
        }
        let mut kept: Vec<SealedBlock> = Vec::new();
        let mut i: usize = 0;
        while i < self.nodes.len()
            invariant
                i <= self.nodes@.len(),
                m.nodes == views(self.nodes@),
                m.canon == views(store.blocks@),
                m.nodes.len() == self.nodes@.len(),
                store.blocks@.len() >= 1,
                views(kept@) =~= pruned(m.canon, m.nodes, n as int, i as int),
            decreases self.nodes.len() - i,
        {
            let h = self.nodes[i].header;
            let keep = match walk(&store.blocks, &self.nodes, h.parent_hash, h.number) {
                Some((f, _)) => f >= n,
                None => h.number > n,
            };
            if keep {
                let ghost before = kept@;
                kept.push(self.nodes[i].duplicate());
                assert(views(kept@) =~= views(before).push(m.nodes[i as int]));
            }
            i = i + 1;
        }
        self.nodes = kept;
        store.last_finalized = Some(n);
        Ok(())
    }

    /// Sets the pending block, which must extend the canonical tip.
    pub fn set_pending_block(&mut self, store: &ChainStore, block: SealedBlock) -> (r: Result<
        (),
        ProviderError,
    >)
        requires
            store.wf(),
        ensures
            (model(store@, final(self)@), r) == set_pending_spec(
                model(store@, old(self)@),
                block@,
            ),
    {
        proof {
            lemma_views(store.blocks@);
        }
        let len = store.blocks.len();
        let tip = store.blocks[len - 1].header;
        if block.header.parent_hash == tip.hash && block.header.number == len as u64 {
            self.pending = Some(block);
            Ok(())
        } else {
            Err(ProviderError::InvalidTransition)
        }
    }

    /// The number and hash of the pending block, if there is one.
    pub fn pending_block(&self) -> (r: Option<crate::identity::BlockNumHash>)
        ensures
            r == (match self@.pending {
                Some(b) => Some(
                    crate::identity::BlockNumHash { number: b.header.number, hash: b.header.hash },
                ),
                None => None,
            }),
    {
        match &self.pending {
            Some(b) => Some(b.num_hash()),
            None => None,
        }
    }

    /// A copy of the held block with hash `hash`.
    pub fn block_by_hash(&self, hash: B256) -> (r: Option<SealedBlock>)
        ensures
            match index_of_hash(self@.nodes, hash) {
                Some(i) => r matches Some(b) && b@ == self@.nodes[i],
                None => r.is_none(),
            },
    {
        proof {
            lemma_views(self.nodes@);
        }
        match find_hash(&self.nodes, hash) {
            Some(i) => Some(self.nodes[i].duplicate()),
            None => None,
        }
    }
}

} // verus!
