//! Directory sizes: a directory's size is the sum of the sizes of its
//! children, so of all the files below it. Scanning establishes this,
//! sorting and removing a subtree keep it.
use vstd::prelude::*;
use crate::edit::{
    children_sorted, detached, is_compaction, lemma_compaction_wf, lemma_detached_forest,
    lemma_relabel, lemma_sorted_wf, lemma_without, relabel, removal, sorted_by_size, sort_witness,
    without,
};
use crate::model::{ancestry, in_bounds, is_forest, wf, NodeId, NodeView, TreeView};
use crate::resolve::{law_ancestry, lemma_parent_in_tree};
use crate::subtree::{lemma_preorder, preorder};

verus! {

/// The sum of the sizes of `kids`.
pub open spec fn size_sum(nodes: Seq<NodeView>, kids: Seq<NodeId>) -> int
    decreases kids.len(),
{
    if kids.len() == 0 {
        0
    } else {
        size_sum(nodes, kids.drop_last()) + nodes[kids.last() as int].size
    }
}

/// Every directory's size is the sum of its children's sizes, and only
/// directories have children: a directory weighs what the files below it
/// weigh.
pub open spec fn sizes_add_up(t: TreeView) -> bool {
    forall|i: int|
        0 <= i < t.nodes.len() ==> if (#[trigger] t.nodes[i]).is_dir {
            t.nodes[i].size == size_sum(t.nodes, t.nodes[i].children)
        } else {
            t.nodes[i].children.len() == 0
        }
}

/// The sum over two lists one after the other.
pub proof fn lemma_sum_append(nodes: Seq<NodeView>, a: Seq<NodeId>, b: Seq<NodeId>)
    ensures
        size_sum(nodes, a + b) == size_sum(nodes, a) + size_sum(nodes, b),
    decreases b.len(),
{
    if b.len() == 0 {
        assert(a + b =~= a);
    } else {
        lemma_sum_append(nodes, a, b.drop_last());
        assert((a + b).drop_last() =~= a + b.drop_last());
    }
}

/// Sums over a list only depend on the sizes of its members.
proof fn lemma_sum_same_sizes(n1: Seq<NodeView>, n2: Seq<NodeView>, kids: Seq<NodeId>)
    requires
        forall|k: int| 0 <= k < kids.len() ==> n1[#[trigger] kids[k] as int].size == n2[kids[k] as int].size,
    ensures
        size_sum(n1, kids) == size_sum(n2, kids),
    decreases kids.len(),
{
    if kids.len() > 0 {
        lemma_sum_same_sizes(n1, n2, kids.drop_last());
        assert(n1[kids[kids.len() - 1] as int].size == n2[kids[kids.len() - 1] as int].size);
    }
}

/// Each member weighs at most the sum, which is not negative.
proof fn lemma_sum_member(nodes: Seq<NodeView>, kids: Seq<NodeId>, k: int)
    requires
        0 <= k < kids.len(),
    ensures
        0 <= nodes[kids[k] as int].size <= size_sum(nodes, kids),
    decreases kids.len(),
{
    lemma_sum_nonneg(nodes, kids.drop_last());
    if k < kids.len() - 1 {
        lemma_sum_member(nodes, kids.drop_last(), k);
    }
}

proof fn lemma_sum_nonneg(nodes: Seq<NodeView>, kids: Seq<NodeId>)
    ensures
        size_sum(nodes, kids) >= 0,
    decreases kids.len(),
{
    if kids.len() > 0 {
        lemma_sum_nonneg(nodes, kids.drop_last());
    }
}

/// Dropping a member of a repeat-free list drops its size from the sum.
proof fn lemma_sum_without(nodes: Seq<NodeView>, kids: Seq<NodeId>, x: NodeId)
    requires
        kids.no_duplicates(),
    ensures
        size_sum(nodes, without(kids, x)) == size_sum(nodes, kids) - (if kids.contains(x) {
            nodes[x as int].size as int
        } else {
            0
        }),
    decreases kids.len(),
{
    if kids.len() > 0 {
        let f = kids.drop_last();
        assert(f.no_duplicates());
        lemma_sum_without(nodes, f, x);
        if kids.last() == x {
            assert(!f.contains(x)) by {
                if f.contains(x) {
                    let j = choose|j: int| 0 <= j < f.len() && f[j] == x;
                    assert(kids[j] == kids[kids.len() - 1]);
                }
            }
        } else {
            assert(without(kids, x) == without(f, x).push(kids.last()));
            assert(without(f, x).push(kids.last()).drop_last() =~= without(f, x));
            assert(kids.contains(x) == f.contains(x)) by {
                if kids.contains(x) {
                    let j = choose|j: int| 0 <= j < kids.len() && kids[j] == x;
                    assert(f[j] == x);
                }
                if f.contains(x) {
                    let j = choose|j: int| 0 <= j < f.len() && f[j] == x;
                    assert(kids[j] == x);
                }
            }
        }
    }
}

/// Two repeat-free lists with the same members have the same sum.
proof fn lemma_sum_rearranged(nodes: Seq<NodeView>, a: Seq<NodeId>, b: Seq<NodeId>)
    requires
        a.no_duplicates(),
        b.no_duplicates(),
        a.len() == b.len(),
        forall|x: NodeId| a.contains(x) ==> b.contains(x),
    ensures
        size_sum(nodes, a) == size_sum(nodes, b),
    decreases a.len(),
{
    if a.len() > 0 {
        let x = a.last();
        let f = a.drop_last();
        assert(a.contains(x)) by {
            assert(a[a.len() - 1] == x);
        }
        let j = choose|j: int| 0 <= j < b.len() && b[j] == x;
        let g = b.remove(j);
        assert(b =~= b.take(j) + seq![x] + b.skip(j + 1));
        assert(g =~= b.take(j) + b.skip(j + 1));
        lemma_sum_append(nodes, b.take(j) + seq![x], b.skip(j + 1));
        lemma_sum_append(nodes, b.take(j), seq![x]);
        lemma_sum_append(nodes, b.take(j), b.skip(j + 1));
        assert(seq![x].drop_last() =~= Seq::<NodeId>::empty());
        assert(size_sum(nodes, Seq::<NodeId>::empty()) == 0);
        assert(size_sum(nodes, seq![x]) == nodes[x as int].size);
        assert(size_sum(nodes, b) == size_sum(nodes, g) + nodes[x as int].size);
        assert(f.no_duplicates());
        assert(g.no_duplicates()) by {
            assert forall|u: int, v: int| 0 <= u < v < g.len() implies g[u] != g[v] by {
                let bu = if u < j { u } else { u + 1 };
                let bv = if v < j { v } else { v + 1 };
                assert(g[u] == b[bu] && g[v] == b[bv]);
            }
        }
        assert forall|y: NodeId| f.contains(y) implies g.contains(y) by {
            let i = choose|i: int| 0 <= i < f.len() && f[i] == y;
            assert(a[i] == y);
            assert(y != x) by {
                assert(a[i] != a[a.len() - 1]);
            }
            assert(b.contains(y));
            let k = choose|k: int| 0 <= k < b.len() && b[k] == y;
            assert(k != j);
            if k < j {
                assert(g[k] == y);
            } else {
                assert(g[k - 1] == y);
            }
        }
        lemma_sum_rearranged(nodes, f, g);
    }
}

/// Renumbering a list keeps its sum when the new numbers carry the old
/// sizes.
proof fn lemma_sum_relabeled(nb: Seq<NodeView>, na: Seq<NodeView>, order: Seq<NodeId>, kids: Seq<NodeId>)
    requires
        forall|k: int| 0 <= k < kids.len() ==> nb[relabel(order, #[trigger] kids[k]) as int].size == na[kids[k] as int].size,
    ensures
        size_sum(nb, kids.map_values(|c: NodeId| relabel(order, c))) == size_sum(na, kids),
    decreases kids.len(),
{
    if kids.len() > 0 {
        let f = kids.drop_last();
        lemma_sum_relabeled(nb, na, order, f);
        assert(kids.map_values(|c: NodeId| relabel(order, c)).drop_last() =~= f.map_values(
            |c: NodeId| relabel(order, c),
        ));
        assert(nb[relabel(order, kids[kids.len() - 1]) as int].size == na[kids[kids.len() - 1] as int].size);
    }
}

/// Sorting child lists keeps directory sizes adding up.
pub proof fn law_sorted_sizes(a: TreeView, b: TreeView)
    requires
        wf(a),
        children_sorted(a, b),
        sizes_add_up(a),
    ensures
        sizes_add_up(b),
{
    lemma_sorted_wf(a, b);
    assert forall|i: int| 0 <= i < b.nodes.len() implies if (#[trigger] b.nodes[i]).is_dir {
        b.nodes[i].size == size_sum(b.nodes, b.nodes[i].children)
    } else {
        b.nodes[i].children.len() == 0
    } by {
        let (xs, ys) = (a.nodes[i].children, b.nodes[i].children);
        assert(a.nodes[i] == a.nodes[i]);
        assert(sorted_by_size(a.nodes, xs, ys));
        let p = choose|p: Seq<int>| sort_witness(a.nodes, xs, ys, p);
        assert forall|k: int| 0 <= k < ys.len() implies b.nodes[#[trigger] ys[k] as int].size == a.nodes[ys[k] as int].size by {
            assert((b.nodes[i].children[k] as int) < b.nodes.len());
            assert(a.nodes[ys[k] as int] == a.nodes[ys[k] as int]);
        }
        lemma_sum_same_sizes(b.nodes, a.nodes, ys);
        assert forall|x: NodeId| ys.contains(x) implies xs.contains(x) by {
            let k = choose|k: int| 0 <= k < ys.len() && ys[k] == x;
            assert(xs[p[k]] == x);
        }
        assert(xs.no_duplicates());
        assert(ys.no_duplicates());
        lemma_sum_rearranged(a.nodes, ys, xs);
    }
}

/// Along the ancestors of `p` every node weighs at least what `p` weighs.
proof fn lemma_up_heavier(t: TreeView, p: int, k: int)
    requires
        wf(t),
        sizes_add_up(t),
        0 <= p < t.nodes.len(),
        0 <= k < ancestry(t.nodes, p).len(),
    ensures
        t.nodes[ancestry(t.nodes, p)[k] as int].size >= t.nodes[p].size,
    decreases ancestry(t.nodes, p).len() - k,
{
    let up = ancestry(t.nodes, p);
    law_ancestry(t, p);
    if k < up.len() - 1 {
        lemma_up_heavier(t, p, k + 1);
        let x = up[k] as int;
        let y = up[k + 1];
        assert(t.nodes[y as int].parent == Some(up[k]));
        assert(y != t.root) by {
            assert(t.nodes[t.root as int].parent is None);
        }
        assert(t.nodes[x].children.contains(y));
        let j = choose|j: int| 0 <= j < t.nodes[x].children.len() && t.nodes[x].children[j] == y;
        assert(t.nodes[x] == t.nodes[x]);
        assert(t.nodes[x].is_dir);
        lemma_sum_member(t.nodes, t.nodes[x].children, j);
    }
}

/// In a list without repeats that holds `y`, lowering `y` by `s` and
/// keeping every other size lowers the sum by `s`.
proof fn lemma_sum_one_lower(n1: Seq<NodeView>, n2: Seq<NodeView>, kids: Seq<NodeId>, y: NodeId, s: int)
    requires
        kids.no_duplicates(),
        kids.contains(y),
        n1[y as int].size == n2[y as int].size - s,
        forall|k: int| 0 <= k < kids.len() && kids[k] != y ==> n1[#[trigger] kids[k] as int].size == n2[kids[k] as int].size,
    ensures
        size_sum(n1, kids) == size_sum(n2, kids) - s,
    decreases kids.len(),
{
    let f = kids.drop_last();
    assert(f.no_duplicates());
    if kids.last() == y {
        assert forall|k: int| 0 <= k < f.len() implies n1[#[trigger] f[k] as int].size == n2[f[k] as int].size by {
            assert(kids[k] != kids[kids.len() - 1]);
            assert(kids[k] == f[k]);
        }
        lemma_sum_same_sizes(n1, n2, f);
    } else {
        let j = choose|j: int| 0 <= j < kids.len() && kids[j] == y;
        assert(j < kids.len() - 1);
        assert(f[j] == y);
        assert forall|k: int| 0 <= k < f.len() && f[k] != y implies n1[#[trigger] f[k] as int].size == n2[f[k] as int].size by {
            assert(kids[k] == f[k]);
        }
        lemma_sum_one_lower(n1, n2, f, y, s);
        assert(n1[kids[kids.len() - 1] as int].size == n2[kids[kids.len() - 1] as int].size);
    }
}

/// Detaching a non-root node keeps directory sizes adding up.
proof fn lemma_detached_sizes(t: TreeView, id: int)
    requires
        wf(t),
        sizes_add_up(t),
        0 <= id < t.nodes.len(),
        t.nodes[id].parent is Some,
    ensures
        sizes_add_up(detached(t, id)),
{
    let d = detached(t, id);
    let p = t.nodes[id].parent.unwrap() as int;
    let s = t.nodes[id].size;
    lemma_parent_in_tree(t, id);
    law_ancestry(t, p);
    let up = ancestry(t.nodes, p);
    assert(up.last() == p as NodeId);
    assert(t.nodes[p].children.contains(id as NodeId));
    let pk = t.nodes[p].children;
    let ji = choose|j: int| 0 <= j < pk.len() && pk[j] == id as NodeId;
    assert(t.nodes[p] == t.nodes[p]);
    assert(t.nodes[p].is_dir);
    lemma_sum_member(t.nodes, pk, ji);
    assert(up.no_duplicates()) by {
        crate::edit::lemma_ancestry_distinct(t.nodes, p);
    }
    // every node on the way up weighs at least what is removed
    assert forall|k: int| 0 <= k < up.len() implies t.nodes[#[trigger] up[k] as int].size >= s by {
        lemma_up_heavier(t, p, k);
    }
    // a child of a node on the way up is on it only as the next step
    assert forall|x: int, c: NodeId|
        #![trigger t.nodes[x].children.contains(c), up.contains(c)]
        0 <= x < t.nodes.len() && t.nodes[x].children.contains(c) && up.contains(c) implies (
        up.contains(x as NodeId) && x != p) by {
        let m = choose|m: int| 0 <= m < up.len() && up[m] == c;
        let j = choose|j: int| 0 <= j < t.nodes[x].children.len() && t.nodes[x].children[j] == c;
        assert(t.nodes[t.nodes[x].children[j] as int].parent == Some(x as NodeId));
        if m == 0 {
            assert(t.nodes[t.root as int].parent is None);
        } else {
            assert(t.nodes[up[m] as int].parent == Some(up[m - 1]));
            assert(up[m - 1] == x as NodeId);
            assert(x != p) by {
                if x == p {
                    assert(up[m - 1] == up[up.len() - 1]);
                }
            }
        }
    }
    assert(!up.contains(id as NodeId)) by {
        if up.contains(id as NodeId) {
            assert(pk.contains(id as NodeId));
        }
    }
    assert forall|i: int| 0 <= i < d.nodes.len() implies if (#[trigger] d.nodes[i]).is_dir {
        d.nodes[i].size == size_sum(d.nodes, d.nodes[i].children)
    } else {
        d.nodes[i].children.len() == 0
    } by {
        assert(t.nodes[i] == t.nodes[i]);
        let kids = t.nodes[i].children;
        assert(kids.no_duplicates());
        if i == p {
            lemma_without(kids, id as NodeId);
            let w = without(kids, id as NodeId);
            assert forall|k: int| 0 <= k < w.len() implies d.nodes[#[trigger] w[k] as int].size == t.nodes[w[k] as int].size by {
                assert(w.contains(w[k]));
                assert(kids.contains(w[k]));
                let j = choose|j: int| 0 <= j < kids.len() && kids[j] == w[k];
                assert((kids[j] as int) < t.nodes.len());
            }
            lemma_sum_same_sizes(d.nodes, t.nodes, w);
            lemma_sum_without(t.nodes, kids, id as NodeId);
            assert(up.contains(p as NodeId)) by {
                assert(up[up.len() - 1] == p as NodeId);
            }
        } else if up.contains(i as NodeId) {
            let m = choose|m: int| 0 <= m < up.len() && up[m] == i as NodeId;
            assert(m < up.len() - 1) by {
                if m == up.len() - 1 {
                    assert(up[m] == up[up.len() - 1]);
                }
            }
            let y = up[m + 1];
            assert(t.nodes[y as int].parent == Some(up[m]));
            assert(y != t.root) by {
                assert(t.nodes[t.root as int].parent is None);
            }
            assert(kids.contains(y));
            assert(up.contains(y)) by {
                assert(up[m + 1] == y);
            }
            assert forall|k: int| 0 <= k < kids.len() && kids[k] != y implies d.nodes[#[trigger] kids[k] as int].size
                == t.nodes[kids[k] as int].size by {
                let c = kids[k];
                assert((kids[k] as int) < t.nodes.len());
                if up.contains(c) {
                    let mc = choose|mc: int| 0 <= mc < up.len() && up[mc] == c;
                    assert(t.nodes[c as int].parent == Some(i as NodeId)) by {
                        assert(t.nodes[t.nodes[i].children[k] as int].parent == Some(i as NodeId));
                    }
                    if mc == 0 {
                        assert(t.nodes[t.root as int].parent is None);
                    } else {
                        assert(t.nodes[up[mc] as int].parent == Some(up[mc - 1]));
                        assert(up[mc - 1] == up[m]);
                        assert(mc - 1 == m);
                    }
                }
            }
            assert((y as int) < t.nodes.len());
            lemma_sum_one_lower(d.nodes, t.nodes, kids, y, s as int);
        } else {
            assert forall|k: int| 0 <= k < kids.len() implies d.nodes[#[trigger] kids[k] as int].size == t.nodes[kids[k]
                as int].size by {
                assert((kids[k] as int) < t.nodes.len());
                if up.contains(kids[k]) {
                    assert(t.nodes[i].children.contains(kids[k]));
                }
            }
            lemma_sum_same_sizes(d.nodes, t.nodes, kids);
        }
    }
}

/// Compacting keeps directory sizes adding up.
proof fn lemma_compaction_sizes(a: TreeView, b: TreeView)
    requires
        is_forest(a),
        is_compaction(a, b),
        sizes_add_up(a),
    ensures
        sizes_add_up(b),
{
    let o = preorder(a.nodes, a.root as int);
    lemma_preorder(a);
    assert forall|k: int| 0 <= k < b.nodes.len() implies if (#[trigger] b.nodes[k]).is_dir {
        b.nodes[k].size == size_sum(b.nodes, b.nodes[k].children)
    } else {
        b.nodes[k].children.len() == 0
    } by {
        let x = o[k] as int;
        assert(a.nodes[x] == a.nodes[x]);
        let kids = a.nodes[x].children;
        assert forall|m: int| 0 <= m < kids.len() implies b.nodes[relabel(o, #[trigger] kids[m]) as int].size
            == a.nodes[kids[m] as int].size by {
            assert(a.nodes[o[k] as int].children.contains(kids[m]));
            assert(o.contains(kids[m]));
            let j = choose|j: int| 0 <= j < o.len() && o[j] == kids[m];
            lemma_relabel(o, j);
        }
        lemma_sum_relabeled(b.nodes, a.nodes, o, kids);
    }
}

/// Removing a subtree keeps directory sizes adding up: the directories
/// above it shrink by exactly its size.
pub proof fn law_removal_sizes(t: TreeView, id: int, b: TreeView)
    requires
        wf(t),
        sizes_add_up(t),
        0 <= id < t.nodes.len(),
        removal(t, id, b),
    ensures
        sizes_add_up(b),
{
    if t.nodes[id].parent is Some {
        let d = detached(t, id);
        lemma_detached_sizes(t, id);
        lemma_detached_forest(t, id);
        let c = choose|c: TreeView| is_compaction(d, c) && #[trigger] children_sorted(c, b);
        lemma_compaction_sizes(d, c);
        lemma_compaction_wf(d, c);
        law_sorted_sizes(c, b);
    }
}

} // verus!
