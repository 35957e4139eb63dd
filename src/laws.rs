use vstd::prelude::*;
use crate::identity::B256;
use crate::error::ProviderError;
use crate::consistency::chain_wf;
use crate::provider::info_spec;
use crate::store::{canon_wf, index_of_hash, lemma_index_of_hash, BlockView};
use crate::tree::{
    branch_below, lemma_promoted_chain, finalize_spec, find_node, insert_spec, set_pending_spec, lemma_branch_below, make_canonical_spec,
    picked, unwind_spec, ChainModel,
};

verus! {

/// The chain model is well formed when its canonical chain is.
pub open spec fn model_wf(m: ChainModel) -> bool {
    canon_wf(m.canon, m.last_finalized, m.safe_finalized)
}

/// Inserting the blocks of `bs` one after another, in order.
pub open spec fn insert_all(m: ChainModel, bs: Seq<BlockView>) -> ChainModel
    decreases bs.len(),
{
    if bs.len() == 0 {
        m
    } else {
        insert_spec(insert_all(m, bs.drop_last()), bs.last()).0
    }
}

/// Any sequence of inserts leaves the canonical chain, and so `latest`,
/// unchanged.
pub proof fn lemma_inserts_keep_latest(m: ChainModel, bs: Seq<BlockView>)
    ensures
        insert_all(m, bs).canon == m.canon,
        info_spec(insert_all(m, bs)) == info_spec(m),
    decreases bs.len(),
{
    if bs.len() > 0 {
        lemma_inserts_keep_latest(m, bs.drop_last());
    }
}

/// Inserting blocks each of which alone changes nothing changes nothing.
proof fn lemma_insert_all_noop(m: ChainModel, bs: Seq<BlockView>)
    requires
        forall|i: int| 0 <= i < bs.len() ==> insert_spec(m, #[trigger] bs[i]).0 == m,
    ensures
        insert_all(m, bs) == m,
    decreases bs.len(),
{
    if bs.len() > 0 {
        assert forall|i: int| 0 <= i < bs.drop_last().len() implies insert_spec(
            m,
            #[trigger] bs.drop_last()[i],
        ).0 == m by {
            assert(bs.drop_last()[i] == bs[i]);
        }
        lemma_insert_all_noop(m, bs.drop_last());
        assert(insert_spec(m, bs[bs.len() - 1]).0 == m);
    }
}

/// Inserting a block, setting the pending block or finalizing never moves
/// the canonical tip: `latest` keeps showing the last promoted block, not a
/// held or pending one.
pub proof fn lemma_insert_keeps_latest(m: ChainModel, b: BlockView, n: u64)
    ensures
        insert_spec(m, b).0.canon == m.canon,
        info_spec(insert_spec(m, b).0) == info_spec(m),
        set_pending_spec(m, b).0.canon == m.canon,
        finalize_spec(m, n).0.canon == m.canon,
{
}

/// After a successful promotion of `h`, the canonical tip is `h` and there is
/// no pending block: `latest` shows the block just promoted.
pub proof fn lemma_promotion_sets_latest(m: ChainModel, h: B256)
    requires
        model_wf(m),
        make_canonical_spec(m, h).1 matches Ok(Some(_)),
    ensures
        info_spec(make_canonical_spec(m, h).0).best_hash == h,
        make_canonical_spec(m, h).0.pending.is_none(),
{
    lemma_index_of_hash(m.nodes, h);
    let t = index_of_hash(m.nodes, h).unwrap();
    lemma_branch_below(m.canon, m.nodes, m.nodes[t].header.parent_hash, m.nodes[t].header.number as int);
    let (f, p0) = branch_below(
        m.canon,
        m.nodes,
        m.nodes[t].header.parent_hash,
        m.nodes[t].header.number as int,
    ).unwrap();
    let p = p0.push(t);
    let c = m.canon.take(f + 1) + picked(m.nodes, p);
    assert(c.last() == m.nodes[t]);
}

/// Promoting a block never lowers `best_number`: only an unwind does.
pub proof fn lemma_make_canonical_keeps_height(m: ChainModel, h: B256)
    requires
        model_wf(m),
    ensures
        info_spec(make_canonical_spec(m, h).0).best_number >= info_spec(m).best_number,
{
    let m1 = make_canonical_spec(m, h).0;
    let len = m.canon.len();
    assert(m.canon[len - 1].header.number == len - 1);
    if m1 != m {
        lemma_index_of_hash(m.nodes, h);
        let t = index_of_hash(m.nodes, h).unwrap();
        let th = m.nodes[t].header;
        lemma_branch_below(m.canon, m.nodes, th.parent_hash, th.number as int);
        lemma_promoted_chain(m.canon, m.nodes, t);
        let c = m1.canon;
        assert(c.len() == th.number + 1);
        assert(c[c.len() - 1].header.number == c.len() - 1);
    }
}

/// Promoting the same block twice in a row: the second promotion changes
/// nothing and yields no event.
pub proof fn lemma_make_canonical_idempotent(m: ChainModel, h: B256)
    requires
        model_wf(m),
        make_canonical_spec(m, h).1 matches Ok(Some(_)),
    ensures
        make_canonical_spec(make_canonical_spec(m, h).0, h) == (
            make_canonical_spec(m, h).0,
            Ok::<Option<crate::tree::EventView>, ProviderError>(None),
        ),
{
    let m1 = make_canonical_spec(m, h).0;
    lemma_promotion_sets_latest(m, h);
    lemma_index_of_hash(m1.canon, h);
    if index_of_hash(m1.canon, h).is_none() {
        assert(m1.canon[m1.canon.len() - 1].header.hash == h);
    }
}

/// Unwinding to a block at or below the finalized one fails with
/// `InvalidTransition` and changes nothing, chain progress included.
pub proof fn lemma_unwind_respects_finality(m: ChainModel, to: u64)
    requires
        m.last_finalized matches Some(fin) && to <= fin,
    ensures
        unwind_spec(m, to) == (m, Err::<Option<crate::tree::EventView>, ProviderError>(
            ProviderError::InvalidTransition,
        )),
        info_spec(unwind_spec(m, to).0) == info_spec(m),
{
}

/// The last match in `s` is at `i` when `s[i]` matches and nothing after it does.
proof fn lemma_find_node_at(s: Seq<BlockView>, hash: B256, number: int, i: int)
    requires
        0 <= i < s.len(),
        s[i].header.hash == hash && s[i].header.number == number,
        forall|k: int| i < k < s.len() ==> #[trigger] s[k].header.number != number,
    ensures
        find_node(s, hash, number) == Some(i),
    decreases s.len(),
{
    if i < s.len() - 1 {
        lemma_find_node_at(s.drop_last(), hash, number, i);
    }
}

/// After an unwind to `to`, the branch below canonical block `j > to` runs
/// through the reverted blocks, which sit after the `n` blocks held before.
proof fn lemma_unwound_branch(
    canon: Seq<BlockView>,
    fin: Option<u64>,
    safe: Option<u64>,
    nodes: Seq<BlockView>,
    to: int,
    j: int,
)
    requires
        canon_wf(canon, fin, safe),
        0 <= to < j < canon.len(),
    ensures
        branch_below(canon.take(to + 1), nodes + canon.skip(to + 1), canon[j].header.parent_hash, j)
            == Some((to, Seq::new((j - to - 1) as nat, |k: int| nodes.len() + k))),
    decreases j,
{
    let c1 = canon.take(to + 1);
    let n1 = nodes + canon.skip(to + 1);
    assert(canon[j].header.parent_hash == canon[j - 1].header.hash);
    if j == to + 1 {
        assert(Seq::new((j - to - 1) as nat, |k: int| nodes.len() + k) =~= Seq::<int>::empty());
    } else {
        let i = nodes.len() + j - 1 - to - 1;
        assert(n1[i] == canon[j - 1]);
        assert(canon[j - 1].header.number == j - 1);
        assert forall|k: int| i < k < n1.len() implies #[trigger] n1[k].header.number != j - 1 by {
            assert(n1[k] == canon[k - nodes.len() + to + 1]);
            assert(canon[k - nodes.len() + to + 1].header.number == k - nodes.len() + to + 1);
        }
        lemma_find_node_at(n1, canon[j - 1].header.hash, j - 1, i);
        lemma_unwound_branch(canon, fin, safe, nodes, to, j - 1);
        assert(Seq::new((j - 1 - to - 1) as nat, |k: int| nodes.len() + k).push(i) =~= Seq::new(
            (j - to - 1) as nat,
            |k: int| nodes.len() + k,
        ));
    }
}

/// Unwinding to `to`, inserting the reverted blocks again in parent order,
/// and then promoting the former tip again restores the canonical chain, and
/// so the committed state, exactly.
pub proof fn lemma_unwind_round_trip(m: ChainModel, to: u64)
    requires
        chain_wf(m),
        unwind_spec(m, to).1 matches Ok(Some(_)),
    ensures
        insert_all(unwind_spec(m, to).0, m.canon.skip(to + 1)) == unwind_spec(m, to).0,
        make_canonical_spec(
            insert_all(unwind_spec(m, to).0, m.canon.skip(to + 1)),
            m.canon.last().header.hash,
        ).0.canon == m.canon,
        make_canonical_spec(
            insert_all(unwind_spec(m, to).0, m.canon.skip(to + 1)),
            m.canon.last().header.hash,
        ).1 is Ok,
{
    let m1 = unwind_spec(m, to).0;
    let len = m.canon.len();
    let h = m.canon.last().header.hash;
    let n = m.nodes.len();
    let to_i = to as int;
    assert(m1.canon == m.canon.take(to_i + 1));
    assert(m1.nodes == m.nodes + m.canon.skip(to_i + 1));
    let left = m.canon.skip(to_i + 1);
    assert forall|k: int| 0 <= k < left.len() implies insert_spec(m1, #[trigger] left[k]).0 == m1 by {
        assert(m1.nodes[n + k] == m.canon[k + to_i + 1]);
        lemma_index_of_hash(m1.nodes, m.canon[k + to_i + 1].header.hash);
    }
    lemma_insert_all_noop(m1, left);
    assert forall|i: int| 0 <= i < len - 1 implies #[trigger] m.canon[i].header.hash != h by {
        assert(m.canon[i].header.hash != m.canon[len - 1].header.hash);
    }
    lemma_index_of_hash(m1.canon, h);
    let t = m1.nodes.len() - 1;
    assert(m1.nodes[t] == m.canon[len - 1]);
    assert(index_of_hash(m1.nodes, h) == Some(t));
    assert(m.canon[len - 1].header.number == len - 1);
    lemma_unwound_branch(m.canon, m.last_finalized, m.safe_finalized, m.nodes, to_i, len - 1);
    let p0 = Seq::new((len - 1 - to_i - 1) as nat, |k: int| n + k);
    let p = p0.push(t);
    assert(picked(m1.nodes, p) =~= m.canon.skip(to_i + 1));
    assert(m1.canon.take(to_i + 1) + picked(m1.nodes, p) =~= m.canon);
}

} // verus!
