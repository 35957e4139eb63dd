use vstd::prelude::*;
use crate::identity::B256;
use crate::store::{canon_wf, index_of_hash, lemma_index_of_hash, BlockView};
use crate::tree::{
    branch_below, finalize_spec, insert_spec, lemma_branch_below, make_canonical_spec, picked,
    pruned, set_pending_spec, unwind_spec, without, ChainModel,
};

verus! {

/// No two blocks of `s` share a hash.
pub open spec fn distinct_hashes(s: Seq<BlockView>) -> bool {
    forall|i: int, j: int|
        0 <= i < j < s.len() ==> #[trigger] s[i].header.hash != #[trigger] s[j].header.hash
}

/// No block of `a` shares a hash with a block of `b`.
pub open spec fn disjoint_hashes(a: Seq<BlockView>, b: Seq<BlockView>) -> bool {
    forall|i: int, j: int|
        0 <= i < a.len() && 0 <= j < b.len() ==> #[trigger] a[i].header.hash
            != #[trigger] b[j].header.hash
}

/// Held and canonical blocks agree: canonical hashes are distinct, held
/// blocks have distinct hashes that are not canonical, and a pending block
/// extends the canonical tip.
pub open spec fn tree_consistent(m: ChainModel) -> bool {
    &&& distinct_hashes(m.canon)
    &&& distinct_hashes(m.nodes)
    &&& disjoint_hashes(m.nodes, m.canon)
    &&& m.pending matches Some(b) ==> b.header.parent_hash == m.canon.last().header.hash
        && b.header.number == m.canon.len()
}

/// The whole model is consistent: the canonical chain is well formed, and
/// held and canonical blocks agree.
pub open spec fn chain_wf(m: ChainModel) -> bool {
    canon_wf(m.canon, m.last_finalized, m.safe_finalized) && tree_consistent(m)
}

/// Every block kept by `without` is a block of `nodes` outside `p`, and
/// distinct hashes stay distinct.
proof fn lemma_without(nodes: Seq<BlockView>, p: Seq<int>, k: int)
    requires
        0 <= k <= nodes.len(),
        distinct_hashes(nodes),
    ensures
        distinct_hashes(without(nodes, p, k)),
        forall|j: int|
            0 <= j < without(nodes, p, k).len() ==> exists|i: int|
                0 <= i < k && !p.contains(i) && #[trigger] without(nodes, p, k)[j] == nodes[i],
    decreases k,
{
    if k > 0 {
        lemma_without(nodes, p, k - 1);
        let w = without(nodes, p, k - 1);
        if !p.contains(k - 1) {
            let w2 = w.push(nodes[k - 1]);
            assert forall|j: int| 0 <= j < w2.len() implies exists|i: int|
                0 <= i < k && !p.contains(i) && #[trigger] w2[j] == nodes[i] by {
                if j == w.len() {
                    assert(w2[j] == nodes[k - 1]);
                } else {
                    assert(w2[j] == w[j]);
                }
            }
            assert forall|a: int, b: int| 0 <= a < b < w2.len() implies #[trigger] w2[a].header.hash
                != #[trigger] w2[b].header.hash by {
                assert(w2[a] == w[a] || a == w.len());
                if b == w.len() {
                    let i = choose|i: int| 0 <= i < k - 1 && !p.contains(i) && w[a] == nodes[i];
                    assert(nodes[i].header.hash != nodes[k - 1].header.hash);
                } else {
                    assert(w2[b] == w[b]);
                }
            }
        }
    }
}

/// Every block kept by `pruned` is a block of `nodes`, and distinct hashes
/// stay distinct.
proof fn lemma_pruned(canon: Seq<BlockView>, nodes: Seq<BlockView>, n: int, k: int)
    requires
        0 <= k <= nodes.len(),
        distinct_hashes(nodes),
    ensures
        distinct_hashes(pruned(canon, nodes, n, k)),
        forall|j: int|
            0 <= j < pruned(canon, nodes, n, k).len() ==> exists|i: int|
                0 <= i < k && #[trigger] pruned(canon, nodes, n, k)[j] == nodes[i],
    decreases k,
{
    if k > 0 {
        lemma_pruned(canon, nodes, n, k - 1);
        let w = pruned(canon, nodes, n, k - 1);
        if pruned(canon, nodes, n, k) != w {
            let w2 = w.push(nodes[k - 1]);
            assert(pruned(canon, nodes, n, k) == w2);
            assert forall|j: int| 0 <= j < w2.len() implies exists|i: int|
                0 <= i < k && #[trigger] w2[j] == nodes[i] by {
                if j == w.len() {
                    assert(w2[j] == nodes[k - 1]);
                } else {
                    assert(w2[j] == w[j]);
                }
            }
            assert forall|a: int, b: int| 0 <= a < b < w2.len() implies #[trigger] w2[a].header.hash
                != #[trigger] w2[b].header.hash by {
                assert(w2[a] == w[a] || a == w.len());
                if b == w.len() {
                    let i = choose|i: int| 0 <= i < k - 1 && w[a] == nodes[i];
                    assert(nodes[i].header.hash != nodes[k - 1].header.hash);
                } else {
                    assert(w2[b] == w[b]);
                }
            }
        }
    }
}

/// Inserting a block keeps the model consistent.
pub proof fn lemma_insert_wf(m: ChainModel, b: BlockView)
    requires
        chain_wf(m),
    ensures
        chain_wf(insert_spec(m, b).0),
{
    lemma_index_of_hash(m.canon, b.header.hash);
    lemma_index_of_hash(m.nodes, b.header.hash);
    let m1 = insert_spec(m, b).0;
    if m1 != m {
        let n1 = m.nodes.push(b);
        assert(m1.nodes == n1);
        assert forall|i: int, j: int| 0 <= i < j < n1.len() implies #[trigger] n1[i].header.hash
            != #[trigger] n1[j].header.hash by {
            assert(n1[i] == m.nodes[i]);
            if j < m.nodes.len() {
                assert(n1[j] == m.nodes[j]);
            }
        }
        assert forall|i: int, j: int| 0 <= i < n1.len() && 0 <= j < m.canon.len() implies #[trigger] n1[i].header.hash
            != #[trigger] m.canon[j].header.hash by {
            if i < m.nodes.len() {
                assert(n1[i] == m.nodes[i]);
            }
        }
    }
}

/// Setting the pending block keeps the model consistent.
pub proof fn lemma_set_pending_wf(m: ChainModel, b: BlockView)
    requires
        chain_wf(m),
    ensures
        chain_wf(set_pending_spec(m, b).0),
{
}

/// Unwinding keeps the model consistent.
pub proof fn lemma_unwind_wf(m: ChainModel, to: u64)
    requires
        chain_wf(m),
    ensures
        chain_wf(unwind_spec(m, to).0),
{
    let m1 = unwind_spec(m, to).0;
    if m1 != m {
        let t = to as int;
        let c1 = m.canon.take(t + 1);
        let left = m.canon.skip(t + 1);
        let n1 = m.nodes + left;
        assert(m1.canon == c1 && m1.nodes == n1);
        assert forall|i: int, j: int| 0 <= i < j < n1.len() implies #[trigger] n1[i].header.hash
            != #[trigger] n1[j].header.hash by {
            if j < m.nodes.len() {
                assert(n1[i] == m.nodes[i] && n1[j] == m.nodes[j]);
            } else if i < m.nodes.len() {
                assert(n1[i] == m.nodes[i] && n1[j] == m.canon[j - m.nodes.len() + t + 1]);
            } else {
                assert(n1[i] == m.canon[i - m.nodes.len() + t + 1]);
                assert(n1[j] == m.canon[j - m.nodes.len() + t + 1]);
            }
        }
        assert forall|i: int, j: int| 0 <= i < n1.len() && 0 <= j < c1.len() implies #[trigger] n1[i].header.hash
            != #[trigger] c1[j].header.hash by {
            assert(c1[j] == m.canon[j]);
            if i < m.nodes.len() {
                assert(n1[i] == m.nodes[i]);
            } else {
                assert(n1[i] == m.canon[i - m.nodes.len() + t + 1]);
            }
        }
        assert forall|i: int| 0 <= i < c1.len() implies #[trigger] c1[i].header.number == i by {
            assert(c1[i] == m.canon[i]);
        }
        assert forall|i: int| 0 < i < c1.len() implies #[trigger] c1[i].header.parent_hash
            == c1[i - 1].header.hash by {
            assert(c1[i] == m.canon[i]);
            assert(c1[i - 1] == m.canon[i - 1]);
        }
        assert forall|i: int, j: int| 0 <= i < j < c1.len() implies #[trigger] c1[i].header.hash
            != #[trigger] c1[j].header.hash by {
            assert(c1[i] == m.canon[i] && c1[j] == m.canon[j]);
        }
    }
}

/// Finalizing keeps the model consistent.
pub proof fn lemma_finalize_wf(m: ChainModel, n: u64)
    requires
        chain_wf(m),
    ensures
        chain_wf(finalize_spec(m, n).0),
{
    let m1 = finalize_spec(m, n).0;
    if m1 != m {
        lemma_pruned(m.canon, m.nodes, n as int, m.nodes.len() as int);
        let n1 = pruned(m.canon, m.nodes, n as int, m.nodes.len() as int);
        assert(m1.nodes == n1);
        assert forall|i: int, j: int| 0 <= i < n1.len() && 0 <= j < m.canon.len() implies #[trigger] n1[i].header.hash
            != #[trigger] m.canon[j].header.hash by {
            let k = choose|k: int| 0 <= k < m.nodes.len() && n1[i] == m.nodes[k];
            assert(m.nodes[k].header.hash != m.canon[j].header.hash);
        }
    }
}

/// Promoting a block keeps held and canonical blocks in agreement.
pub proof fn lemma_make_canonical_consistent(m: ChainModel, hash: B256)
    requires
        chain_wf(m),
    ensures
        tree_consistent(make_canonical_spec(m, hash).0),
{
    let m1 = make_canonical_spec(m, hash).0;
    if m1 != m {
        lemma_index_of_hash(m.nodes, hash);
        let t = index_of_hash(m.nodes, hash).unwrap();
        let th = m.nodes[t].header;
        lemma_branch_below(m.canon, m.nodes, th.parent_hash, th.number as int);
        let (f, p0) = branch_below(m.canon, m.nodes, th.parent_hash, th.number as int).unwrap();
        let p = p0.push(t);
        let joined = picked(m.nodes, p);
        let left = m.canon.skip(f + 1);
        let c1 = m.canon.take(f + 1);
        let c = c1 + joined;
        let w = without(m.nodes, p, m.nodes.len() as int);
        let n1 = w + left;
        assert(m1.canon == c && m1.nodes == n1);
        assert forall|k: int| 0 <= k < p.len() implies 0 <= #[trigger] p[k] < m.nodes.len()
            && m.nodes[p[k]].header.number == f + 1 + k by {
            if k < p0.len() {
                assert(p[k] == p0[k]);
            }
        }
        lemma_without(m.nodes, p, m.nodes.len() as int);
        assert forall|i: int, j: int| 0 <= i < j < c.len() implies #[trigger] c[i].header.hash
            != #[trigger] c[j].header.hash by {
            if j <= f {
                assert(c[i] == m.canon[i] && c[j] == m.canon[j]);
            } else if i <= f {
                assert(c[i] == m.canon[i] && c[j] == m.nodes[p[j - f - 1]]);
            } else {
                assert(c[i] == m.nodes[p[i - f - 1]] && c[j] == m.nodes[p[j - f - 1]]);
                assert(p[i - f - 1] != p[j - f - 1]);
                if p[i - f - 1] < p[j - f - 1] {
                    assert(m.nodes[p[i - f - 1]].header.hash != m.nodes[p[j - f - 1]].header.hash);
                } else {
                    assert(m.nodes[p[j - f - 1]].header.hash != m.nodes[p[i - f - 1]].header.hash);
                }
            }
        }
        assert forall|i: int, j: int| 0 <= i < j < n1.len() implies #[trigger] n1[i].header.hash
            != #[trigger] n1[j].header.hash by {
            if j < w.len() {
                assert(n1[i] == w[i] && n1[j] == w[j]);
            } else if i < w.len() {
                assert(n1[i] == w[i] && n1[j] == m.canon[j - w.len() + f + 1]);
                let a = choose|a: int| 0 <= a < m.nodes.len() && !p.contains(a) && w[i] == m.nodes[a];
                assert(m.nodes[a].header.hash != m.canon[j - w.len() + f + 1].header.hash);
            } else {
                assert(n1[i] == m.canon[i - w.len() + f + 1]);
                assert(n1[j] == m.canon[j - w.len() + f + 1]);
            }
        }
        assert forall|i: int, j: int| 0 <= i < n1.len() && 0 <= j < c.len() implies #[trigger] n1[i].header.hash
            != #[trigger] c[j].header.hash by {
            if i < w.len() {
                assert(n1[i] == w[i]);
                let a = choose|a: int| 0 <= a < m.nodes.len() && !p.contains(a) && w[i] == m.nodes[a];
                if j <= f {
                    assert(c[j] == m.canon[j]);
                    assert(m.nodes[a].header.hash != m.canon[j].header.hash);
                } else {
                    assert(c[j] == m.nodes[p[j - f - 1]]);
                    assert(a != p[j - f - 1]);
                    if a < p[j - f - 1] {
                        assert(m.nodes[a].header.hash != m.nodes[p[j - f - 1]].header.hash);
                    } else {
                        assert(m.nodes[p[j - f - 1]].header.hash != m.nodes[a].header.hash);
                    }
                }
            } else {
                assert(n1[i] == m.canon[i - w.len() + f + 1]);
                if j <= f {
                    assert(c[j] == m.canon[j]);
                    assert(m.canon[j].header.hash != m.canon[i - w.len() + f + 1].header.hash);
                } else {
                    assert(c[j] == m.nodes[p[j - f - 1]]);
                    assert(m.nodes[p[j - f - 1]].header.hash != m.canon[i - w.len() + f
                        + 1].header.hash);
                }
            }
        }
    }
}

} // verus!
