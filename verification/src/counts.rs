//! The counters of a tree against its nodes: removing a subtree keeps the
//! file and folder counters equal to the numbers of file and folder nodes,
//! and keeps files without children.
use vstd::prelude::*;
use crate::edit::{
    children_sorted, detached, is_compaction, law_removal_total, lemma_detached_forest, lemma_sub_bound,
    lemma_without, removal,
};
use crate::model::{
    ancestry, chain_ok, depth, is_forest, lemma_chain_ok_bounds, lemma_chain_prefix, lemma_chain_shape,
    lemma_depth_unique, leafy, reaches_top, wf, NodeId, NodeView, Tree, TreeView,
};
use crate::resolve::law_ancestry;
use crate::scan::{count_where, counts_as};
use crate::subtree::{
    below, below_list, below_of, count_kind, fuel_of, lemma_below_closed, lemma_below_list,
    lemma_below_list_prefix, lemma_below_of, lemma_child, lemma_distinct_ids_bound, lemma_preorder, preorder,
};

verus! {

/// The file counter counts the file nodes and the directory counter the
/// directory nodes other than the root.
pub open spec fn file_dir_counters(t: TreeView) -> bool {
    &&& t.file_count == count_where(t.nodes, 0, t.nodes.len() as int, 0)
    &&& t.dir_count + 1 == count_where(t.nodes, 0, t.nodes.len() as int, 1)
}

/// `0, 1, …, n - 1` as node numbers.
pub open spec fn ids(n: int) -> Seq<NodeId> {
    Seq::new(n as nat, |i: int| i as NodeId)
}

/// How many of the nodes `s` are of the given kind (see `counts_as`).
pub open spec fn count_of(nodes: Seq<NodeView>, s: Seq<NodeId>, kind: int) -> nat
    decreases s.len(),
{
    if s.len() == 0 {
        0
    } else {
        count_of(nodes, s.drop_last(), kind) + (if counts_as(nodes[s.last() as int], kind) { 1nat } else { 0nat })
    }
}

proof fn lemma_count_of_kind(nodes: Seq<NodeView>, s: Seq<NodeId>, dir: bool)
    ensures
        count_of(nodes, s, if dir { 1int } else { 0int }) == count_kind(nodes, s, dir),
    decreases s.len(),
{
    if s.len() > 0 {
        lemma_count_of_kind(nodes, s.drop_last(), dir);
    }
}

proof fn lemma_count_of_append(nodes: Seq<NodeView>, a: Seq<NodeId>, b: Seq<NodeId>, kind: int)
    ensures
        count_of(nodes, a + b, kind) == count_of(nodes, a, kind) + count_of(nodes, b, kind),
    decreases b.len(),
{
    if b.len() > 0 {
        lemma_count_of_append(nodes, a, b.drop_last(), kind);
        assert((a + b).drop_last() =~= a + b.drop_last());
    } else {
        assert(a + b =~= a);
    }
}

proof fn lemma_count_ids(nodes: Seq<NodeView>, n: int, kind: int)
    requires
        0 <= n <= nodes.len(),
        nodes.len() <= u32::MAX + 1,
    ensures
        count_where(nodes, 0, n, kind) == count_of(nodes, ids(n), kind),
    decreases n,
{
    if n > 0 {
        lemma_count_ids(nodes, n - 1, kind);
        assert(ids(n).drop_last() =~= ids(n - 1));
        assert(ids(n).last() as int == n - 1);
    }
}

/// Two repeat-free lists with the same members count alike.
proof fn lemma_count_rearranged(nodes: Seq<NodeView>, a: Seq<NodeId>, b: Seq<NodeId>, kind: int)
    requires
        a.no_duplicates(),
        b.no_duplicates(),
        a.len() == b.len(),
        forall|x: NodeId| a.contains(x) ==> b.contains(x),
    ensures
        count_of(nodes, a, kind) == count_of(nodes, b, kind),
    decreases a.len(),
{
    if a.len() > 0 {
        let x = a.last();
        let f = a.drop_last();
        assert(a.contains(x)) by {
            assert(a[a.len() - 1] == x);
        }
        let j = choose|j: int| 0 <= j < b.len() && b[j] == x;
        let g = b.remove(j);
        assert(b =~= b.take(j) + seq![x] + b.skip(j + 1));
        assert(g =~= b.take(j) + b.skip(j + 1));
        lemma_count_of_append(nodes, b.take(j) + seq![x], b.skip(j + 1), kind);
        lemma_count_of_append(nodes, b.take(j), seq![x], kind);
        lemma_count_of_append(nodes, b.take(j), b.skip(j + 1), kind);
        assert(seq![x].drop_last() =~= Seq::<NodeId>::empty());
        assert(count_of(nodes, Seq::<NodeId>::empty(), kind) == 0);
        assert(f.no_duplicates());
        assert(g.no_duplicates()) by {
            assert forall|u: int, v: int| 0 <= u < v < g.len() implies g[u] != g[v] by {
                let bu = if u < j { u } else { u + 1 };
                let bv = if v < j { v } else { v + 1 };
                assert(g[u] == b[bu] && g[v] == b[bv]);
            }
        }
        assert forall|y: NodeId| f.contains(y) implies g.contains(y) by {
            let i = choose|i: int| 0 <= i < f.len() && f[i] == y;
            assert(a[i] == y);
            assert(y != x) by {
                assert(a[i] != a[a.len() - 1]);
            }
            assert(b.contains(y));
            let k = choose|k: int| 0 <= k < b.len() && b[k] == y;
            assert(k != j);
            if k < j {
                assert(g[k] == y);
            } else {
                assert(g[k - 1] == y);
            }
        }
        lemma_count_rearranged(nodes, f, g, kind);
    }
}

/// In a tree where only directories have children, descending into
/// directories only reaches the same nodes as descending everywhere.
pub(crate) proof fn lemma_below_leafy(t: TreeView, kids: Seq<NodeId>, fuel: nat)
    requires
        is_forest(t),
        leafy(t),
        forall|k: int| 0 <= k < kids.len() ==> (#[trigger] kids[k] as int) < t.nodes.len(),
    ensures
        below_list(t.nodes, kids, false, fuel) == below_list(t.nodes, kids, true, fuel),
    decreases fuel, kids.len(),
{
    if kids.len() > 0 {
        let f = kids.drop_last();
        let c = kids.last();
        assert forall|k: int| 0 <= k < f.len() implies (#[trigger] f[k] as int) < t.nodes.len() by {
            assert(f[k] == kids[k]);
        }
        lemma_below_leafy(t, f, fuel);
        assert((c as int) < t.nodes.len()) by {
            assert(kids[kids.len() - 1] == c);
        }
        if fuel > 0 {
            let ck = t.nodes[c as int].children;
            assert forall|k: int| 0 <= k < ck.len() implies (#[trigger] ck[k] as int) < t.nodes.len() by {
                assert((t.nodes[c as int].children[k] as int) < t.nodes.len());
            }
            lemma_below_leafy(t, ck, (fuel - 1) as nat);
            assert(below(t.nodes, c as int, true, fuel) == below_list(t.nodes, ck, true, (fuel - 1) as nat));
            assert(below(t.nodes, c as int, false, fuel) == below_list(t.nodes, ck, false, (fuel - 1) as nat));
            if !t.nodes[c as int].is_dir {
                assert(t.nodes[c as int] == t.nodes[c as int]);
                assert(ck.len() == 0);
                assert(below_list(t.nodes, ck, true, (fuel - 1) as nat) =~= Seq::<NodeId>::empty());
                assert(below(t.nodes, c as int, true, fuel) =~= Seq::<NodeId>::empty());
            }
        } else {
            assert(below(t.nodes, c as int, true, fuel) =~= Seq::<NodeId>::empty());
            assert(below(t.nodes, c as int, false, fuel) =~= Seq::<NodeId>::empty());
        }
        let tail_f = if t.nodes[c as int].is_dir { below(t.nodes, c as int, false, fuel) } else { Seq::<NodeId>::empty() };
        let tail_t = below(t.nodes, c as int, true, fuel);
        assert(tail_f == tail_t);
        assert(below_list(t.nodes, kids, false, fuel) == below_list(t.nodes, f, false, fuel) + seq![c] + tail_f);
        assert(below_list(t.nodes, kids, true, fuel) == below_list(t.nodes, f, true, fuel) + seq![c] + tail_t);
    }
}

/// A node lists its non-root chain successor as a child.
proof fn lemma_chain_link(t: TreeView, x: int, m: int)
    requires
        wf(t),
        0 <= x < t.nodes.len(),
        0 < m < ancestry(t.nodes, x).len(),
    ensures
        t.nodes[ancestry(t.nodes, x)[m - 1] as int].children.contains(ancestry(t.nodes, x)[m]),
        (ancestry(t.nodes, x)[m - 1] as int) < t.nodes.len(),
{
    law_ancestry(t, x);
    let anc = ancestry(t.nodes, x);
    let y = anc[m];
    assert(t.nodes[y as int].parent == Some(anc[m - 1]));
    assert(y != t.root) by {
        assert(t.nodes[t.root as int].parent is None);
    }
}

/// Where a node lies on another's chain: the position is its depth.
proof fn lemma_on_chain(t: TreeView, x: int, id: int)
    requires
        wf(t),
        0 <= x < t.nodes.len(),
        0 <= id < t.nodes.len(),
        ancestry(t.nodes, x).contains(id as NodeId),
    ensures
        depth(t.nodes, id) <= depth(t.nodes, x),
        ancestry(t.nodes, x)[depth(t.nodes, id) as int] == id as NodeId,
{
    let anc = ancestry(t.nodes, x);
    assert(chain_ok(t.nodes, x));
    assert(chain_ok(t.nodes, id));
    lemma_chain_ok_bounds(t.nodes, x);
    lemma_chain_ok_bounds(t.nodes, id);
    lemma_chain_shape(t.nodes, x, depth(t.nodes, x));
    let k = choose|k: int| 0 <= k < anc.len() && anc[k] == id as NodeId;
    lemma_chain_prefix(t.nodes, x, depth(t.nodes, x), k as nat);
    assert(reaches_top(t.nodes, id, k as nat));
    lemma_depth_unique(t.nodes, id, k as nat, depth(t.nodes, id));
}

/// A set closed under children that holds the `m`-th node of a chain holds
/// the node the chain ends in.
proof fn lemma_chain_down(t: TreeView, x: int, s: Seq<NodeId>, m: int)
    requires
        wf(t),
        0 <= x < t.nodes.len(),
        0 <= m < ancestry(t.nodes, x).len(),
        s.contains(ancestry(t.nodes, x)[m]),
        forall|j: int, c: NodeId|
            0 <= j < s.len() && t.nodes[#[trigger] s[j] as int].children.contains(c) ==> #[trigger] s.contains(c),
    ensures
        s.contains(ancestry(t.nodes, x).last()),
    decreases ancestry(t.nodes, x).len() - m,
{
    let anc = ancestry(t.nodes, x);
    if m < anc.len() - 1 {
        lemma_chain_link(t, x, m + 1);
        let j = choose|j: int| 0 <= j < s.len() && s[j] == anc[m];
        assert(t.nodes[s[j] as int].children.contains(anc[m + 1]));
        lemma_chain_down(t, x, s, m + 1);
    }
}

/// Every node strictly below `id` is reached by descending from `id`.
proof fn lemma_descendant_below(t: TreeView, id: int, x: int)
    requires
        wf(t),
        leafy(t),
        0 <= x < t.nodes.len(),
        0 <= id < t.nodes.len(),
        x != id,
        ancestry(t.nodes, x).contains(id as NodeId),
    ensures
        below_of(t.nodes, id, false).contains(x as NodeId),
{
    let nodes = t.nodes;
    let anc = ancestry(nodes, x);
    lemma_on_chain(t, x, id);
    law_ancestry(t, x);
    let di = depth(nodes, id) as int;
    assert(chain_ok(nodes, x));
    lemma_chain_ok_bounds(nodes, x);
    lemma_chain_shape(nodes, x, depth(nodes, x));
    assert(di < anc.len() - 1) by {
        if di == anc.len() - 1 {
            assert(anc[di] == anc.last());
        }
    }
    assert(chain_ok(nodes, id));
    lemma_chain_ok_bounds(nodes, id);
    lemma_below_of(t, id, true);
    lemma_below_of(t, id, false);
    let fuel = (fuel_of(nodes, id) - 1) as nat;
    let kc = nodes[id].children;
    assert forall|k: int| 0 <= k < kc.len() implies nodes[id].children.contains(#[trigger] kc[k]) by {}
    assert(kc.no_duplicates());
    lemma_below_closed(t, id, kc, fuel);
    assert forall|k: int| 0 <= k < kc.len() implies (#[trigger] kc[k] as int) < nodes.len() by {
        assert((nodes[id].children[k] as int) < nodes.len());
    }
    lemma_below_leafy(t, kc, fuel);
    let s = below_list(nodes, kc, true, fuel);
    assert(below_of(nodes, id, false) == s);
    // walk down the chain from just below `id` to `x`
    let m = di + 1;
    lemma_chain_link(t, x, m);
    assert(kc.contains(anc[m]));
    assert(s.contains(anc[m]));
    lemma_chain_down(t, x, s, m);
    assert(anc[anc.len() - 1] == x as NodeId);
}

/// What is still reached after `id` is detached lies outside the subtree
/// of `id`.
pub(crate) proof fn lemma_reached_outside(t: TreeView, id: int, x: NodeId)
    requires
        wf(t),
        0 <= id < t.nodes.len(),
        t.nodes[id].parent is Some,
        preorder(detached(t, id).nodes, t.root as int).contains(x),
    ensures
        (x as int) < t.nodes.len(),
        !ancestry(t.nodes, x as int).contains(id as NodeId),
    decreases depth(t.nodes, x as int),
{
    let d = detached(t, id);
    let o = preorder(d.nodes, d.root as int);
    lemma_detached_forest(t, id);
    lemma_preorder(d);
    let j = choose|j: int| 0 <= j < o.len() && o[j] == x;
    assert((o[j] as int) < t.nodes.len());
    assert(chain_ok(t.nodes, x as int));
    lemma_chain_ok_bounds(t.nodes, x as int);
    if j == 0 {
        assert(x == t.root);
        lemma_chain_shape(t.nodes, x as int, depth(t.nodes, x as int));
        assert(t.nodes[t.root as int].parent is None);
        assert(depth(t.nodes, x as int) == 0);
        assert(ancestry(t.nodes, x as int) =~= seq![x]);
        assert(x != id as NodeId);
    } else {
        let q = d.nodes[x as int].parent.unwrap();
        assert(d.nodes[o[j] as int].parent matches Some(q2) && o.contains(q2) && d.nodes[q2 as int].children.contains(o[j]));
        assert(t.nodes[x as int].parent == Some(q));
        crate::model::lemma_parent_depth(t.nodes, x as int);
        lemma_reached_outside(t, id, q);
        let p = t.nodes[id].parent.unwrap();
        if x == id as NodeId {
            assert(q == p);
            lemma_without(t.nodes[p as int].children, id as NodeId);
            assert(!d.nodes[p as int].children.contains(id as NodeId));
        }
        assert(!ancestry(t.nodes, x as int).contains(id as NodeId)) by {
            if ancestry(t.nodes, x as int).contains(id as NodeId) {
                let k = choose|k: int| 0 <= k < ancestry(t.nodes, x as int).len() && ancestry(t.nodes, x as int)[k] == id as NodeId;
                let aq = ancestry(t.nodes, q as int);
                assert(ancestry(t.nodes, x as int) == aq.push(x));
                if k < aq.len() {
                    assert(aq[k] == id as NodeId);
                }
            }
        }
    }
}

/// Whatever lies outside the subtree of `id` is still reached after `id`
/// is detached.
pub(crate) proof fn lemma_outside_reached(t: TreeView, id: int, x: int)
    requires
        wf(t),
        0 <= id < t.nodes.len(),
        t.nodes[id].parent is Some,
        0 <= x < t.nodes.len(),
        !ancestry(t.nodes, x).contains(id as NodeId),
    ensures
        preorder(detached(t, id).nodes, t.root as int).contains(x as NodeId),
    decreases depth(t.nodes, x),
{
    let d = detached(t, id);
    let o = preorder(d.nodes, d.root as int);
    lemma_detached_forest(t, id);
    lemma_preorder(d);
    assert(chain_ok(t.nodes, x));
    lemma_chain_ok_bounds(t.nodes, x);
    if x == t.root as int {
        assert(o[0] == t.root);
    } else {
        let q = t.nodes[x].parent.unwrap();
        crate::model::lemma_parent_depth(t.nodes, x);
        let aq = ancestry(t.nodes, q as int);
        assert(ancestry(t.nodes, x) == aq.push(x as NodeId));
        assert(!aq.contains(id as NodeId)) by {
            if aq.contains(id as NodeId) {
                let k = choose|k: int| 0 <= k < aq.len() && aq[k] == id as NodeId;
                assert(ancestry(t.nodes, x)[k] == id as NodeId);
            }
        }
        lemma_chain_ok_bounds(t.nodes, q as int);
        lemma_outside_reached(t, id, q as int);
        assert(t.nodes[q as int].children.contains(x as NodeId));
        assert(x != id) by {
            assert(ancestry(t.nodes, x)[aq.len() as int] == x as NodeId);
        }
        let p = t.nodes[id].parent.unwrap();
        if q == p {
            lemma_without(t.nodes[p as int].children, id as NodeId);
        }
        assert(d.nodes[q as int].children.contains(x as NodeId));
        let j = choose|j: int| 0 <= j < o.len() && o[j] == q;
        assert(d.nodes[o[j] as int].children.contains(x as NodeId));
    }
}


/// The nodes of a tree split three ways around a non-root node `id`: those
/// still reached once `id` is detached, `id` itself, and the nodes below it.
proof fn lemma_split(t: TreeView, id: int)
    requires
        wf(t),
        leafy(t),
        0 <= id < t.nodes.len(),
        t.nodes[id].parent is Some,
    ensures
        ({
            let r = preorder(detached(t, id).nodes, t.root as int) + seq![id as NodeId] + below_of(t.nodes, id, false);
            &&& r.no_duplicates()
            &&& forall|j: int| 0 <= j < r.len() ==> (#[trigger] r[j] as int) < t.nodes.len()
            &&& forall|x: NodeId| ids(t.nodes.len() as int).contains(x) ==> #[trigger] r.contains(x)
        }),
{
    let n = t.nodes.len() as int;
    let d = detached(t, id);
    let o = preorder(d.nodes, t.root as int);
    let bl = below_of(t.nodes, id, false);
    let r = o + seq![id as NodeId] + bl;
    lemma_detached_forest(t, id);
    lemma_preorder(d);
    lemma_below_of(t, id, false);
    assert(chain_ok(t.nodes, id));
    lemma_chain_ok_bounds(t.nodes, id);
    lemma_chain_shape(t.nodes, id, depth(t.nodes, id));
    let di = depth(t.nodes, id) as int;
    // which part each position of r falls in
    assert forall|j: int| 0 <= j < o.len() implies !ancestry(t.nodes, #[trigger] o[j] as int).contains(id as NodeId) by {
        assert(o.contains(o[j]));
        lemma_reached_outside(t, id, o[j]);
    }
    assert forall|j: int| 0 <= j < bl.len() implies ancestry(t.nodes, #[trigger] bl[j] as int).contains(id as NodeId)
        && bl[j] != id as NodeId by {
        let y = bl[j] as int;
        assert(chain_ok(t.nodes, y));
        lemma_chain_ok_bounds(t.nodes, y);
        lemma_chain_shape(t.nodes, y, depth(t.nodes, y));
        assert(ancestry(t.nodes, y)[di] == id as NodeId);
    }
    assert(ancestry(t.nodes, id).contains(id as NodeId)) by {
        assert(ancestry(t.nodes, id)[di] == id as NodeId);
    }
    let lo = o.len() as int;
    assert forall|j: int| 0 <= j < r.len() implies (#[trigger] r[j] as int) < n by {
        if j < lo {
            assert(r[j] == o[j]);
        } else if j > lo {
            assert(r[j] == bl[j - lo - 1]);
        }
    }
    assert forall|a: int, c: int| 0 <= a < c < r.len() implies r[a] != r[c] by {
        if c < lo {
            assert(r[a] == o[a] && r[c] == o[c]);
        } else if c == lo {
            assert(r[a] == o[a]);
        } else if a > lo {
            assert(r[a] == bl[a - lo - 1] && r[c] == bl[c - lo - 1]);
        } else if a == lo {
            assert(r[c] == bl[c - lo - 1]);
        } else {
            assert(r[a] == o[a] && r[c] == bl[c - lo - 1]);
        }
    }
    assert forall|x: NodeId| ids(n).contains(x) implies #[trigger] r.contains(x) by {
        let i = choose|i: int| 0 <= i < n && ids(n)[i] == x;
        assert(x as int == i);
        if ancestry(t.nodes, i).contains(id as NodeId) {
            if i == id {
                assert(r[lo] == x);
            } else {
                lemma_descendant_below(t, id, i);
                let k = choose|k: int| 0 <= k < bl.len() && bl[k] == x;
                assert(r[lo + 1 + k] == x);
            }
        } else {
            lemma_outside_reached(t, id, i);
            let k = choose|k: int| 0 <= k < o.len() && o[k] == x;
            assert(r[k] == x);
        }
    }
}

/// Counting kinds over the first `m` nodes of a renumbered arena is
/// counting over the first `m` of the order it was renumbered by.
proof fn lemma_count_renumbered(tn: Seq<NodeView>, o: Seq<NodeId>, bn: Seq<NodeView>, m: int, kind: int)
    requires
        0 <= m <= o.len(),
        o.len() == bn.len(),
        forall|k: int| 0 <= k < o.len() ==> counts_as(#[trigger] bn[k], kind) == counts_as(tn[o[k] as int], kind),
    ensures
        count_where(bn, 0, m, kind) == count_of(tn, o.take(m), kind),
    decreases m,
{
    if m > 0 {
        lemma_count_renumbered(tn, o, bn, m - 1, kind);
        assert(o.take(m).drop_last() =~= o.take(m - 1));
        assert(o.take(m).last() == o[m - 1]);
        assert(counts_as(bn[m - 1], kind) == counts_as(tn[o[m - 1] as int], kind));
    }
}

/// Counting over all nodes is counting over the three parts of
/// `lemma_split`.
proof fn lemma_count_parts(t: TreeView, id: int, kind: int)
    requires
        wf(t),
        leafy(t),
        0 <= id < t.nodes.len(),
        t.nodes[id].parent is Some,
    ensures
        count_where(t.nodes, 0, t.nodes.len() as int, kind)
            == count_of(t.nodes, preorder(detached(t, id).nodes, t.root as int), kind)
            + count_of(t.nodes, seq![id as NodeId], kind) + count_of(t.nodes, below_of(t.nodes, id, false), kind),
{
    let n = t.nodes.len() as int;
    let o = preorder(detached(t, id).nodes, t.root as int);
    let bl = below_of(t.nodes, id, false);
    let sid = seq![id as NodeId];
    let r = o + sid + bl;
    lemma_split(t, id);
    let all = ids(n);
    assert(all.no_duplicates());
    assert forall|j: int| 0 <= j < all.len() implies r.contains(#[trigger] all[j]) by {
        assert(all.contains(all[j]));
    }
    assert forall|j: int| 0 <= j < r.len() implies all.contains(#[trigger] r[j]) by {
        assert(all[r[j] as int] == r[j]);
    }
    lemma_sub_bound(all, r);
    lemma_sub_bound(r, all);
    lemma_count_rearranged(t.nodes, all, r, kind);
    lemma_count_of_append(t.nodes, o + sid, bl, kind);
    lemma_count_of_append(t.nodes, o, sid, kind);
    lemma_count_ids(t.nodes, n, kind);
}

/// After a removal the nodes are those still reached once `id` is
/// detached, each keeping its kind.
proof fn lemma_count_after(t: TreeView, id: int, b: TreeView, kind: int)
    requires
        0 <= kind <= 2,
        wf(t),
        0 <= id < t.nodes.len(),
        t.nodes[id].parent is Some,
        removal(t, id, b),
    ensures
        count_where(b.nodes, 0, b.nodes.len() as int, kind)
            == count_of(t.nodes, preorder(detached(t, id).nodes, t.root as int), kind),
{
    let d = detached(t, id);
    let o = preorder(d.nodes, t.root as int);
    let c = choose|c: TreeView| is_compaction(d, c) && #[trigger] children_sorted(c, b);
    lemma_detached_forest(t, id);
    lemma_preorder(d);
    assert forall|k: int| 0 <= k < o.len() implies counts_as(#[trigger] b.nodes[k], kind) == counts_as(t.nodes[o[k] as int], kind) by {
        assert(c.nodes[k].is_dir == d.nodes[o[k] as int].is_dir);
        assert(c.nodes[k].error == d.nodes[o[k] as int].error);
        assert(c.nodes[k] == c.nodes[k]);
    }
    assert(o.take(o.len() as int) =~= o);
    lemma_count_renumbered(t.nodes, o, b.nodes, o.len() as int, kind);
}

/// The root of a tree where only folders have children, with a node other
/// than the root, is a folder, still reached after any node is detached.
proof fn lemma_root_folder(t: TreeView, id: int)
    requires
        wf(t),
        leafy(t),
        0 <= id < t.nodes.len(),
        t.nodes[id].parent is Some,
    ensures
        count_of(t.nodes, preorder(detached(t, id).nodes, t.root as int), 1) >= 1,
{
    let d = detached(t, id);
    let o = preorder(d.nodes, t.root as int);
    lemma_detached_forest(t, id);
    lemma_preorder(d);
    law_ancestry(t, id);
    assert(ancestry(t.nodes, id).len() >= 2) by {
        if ancestry(t.nodes, id).len() == 1 {
            assert(t.nodes[t.root as int].parent is None);
        }
    }
    lemma_chain_link(t, id, 1);
    assert(t.nodes[t.root as int].is_dir);
    assert(o[0] == t.root);
    assert(o =~= seq![t.root] + o.skip(1));
    lemma_count_of_append(t.nodes, seq![t.root], o.skip(1), 1);
    assert(seq![t.root].drop_last() =~= Seq::<NodeId>::empty());
}

/// `count_of` on the one node `id`.
proof fn lemma_count_one(nodes: Seq<NodeView>, id: int, kind: int)
    requires
        0 <= id <= u32::MAX,
    ensures
        count_of(nodes, seq![id as NodeId], kind) == if counts_as(nodes[id], kind) { 1nat } else { 0nat },
{
    let sid = seq![id as NodeId];
    assert(sid.drop_last() =~= Seq::<NodeId>::empty());
    assert(sid.last() as int == id);
    assert(count_of(nodes, sid.drop_last(), kind) == 0);
}

/// Removing a node other than the root keeps the file and folder counters
/// equal to the numbers of file nodes and of folder nodes other than the
/// root, in a tree where only folders have children.
pub proof fn law_removal_counts(t: TreeView, id: int, b: TreeView)
    requires
        wf(t),
        leafy(t),
        file_dir_counters(t),
        0 <= id < t.nodes.len(),
        t.nodes[id].parent is Some,
        removal(t, id, b),
    ensures
        file_dir_counters(b),
{
    let bl = below_of(t.nodes, id, false);
    law_removal_total(t, id, b);
    lemma_count_parts(t, id, 0);
    lemma_count_parts(t, id, 1);
    lemma_count_after(t, id, b, 0);
    lemma_count_after(t, id, b, 1);
    lemma_root_folder(t, id);
    lemma_count_one(t.nodes, id, 0);
    lemma_count_one(t.nodes, id, 1);
    lemma_count_of_kind(t.nodes, bl, false);
    lemma_count_of_kind(t.nodes, bl, true);
}

/// Removing a node other than the root keeps the error counter equal to the
/// number of unreadable folders, in a tree where only folders have children.
pub proof fn law_removal_errors(t: TreeView, id: int, b: TreeView)
    requires
        wf(t),
        leafy(t),
        t.error_count == count_where(t.nodes, 0, t.nodes.len() as int, 2),
        0 <= id < t.nodes.len(),
        t.nodes[id].parent is Some,
        removal(t, id, b),
    ensures
        b.error_count == count_where(b.nodes, 0, b.nodes.len() as int, 2),
{
    let bl = below_of(t.nodes, id, false);
    law_removal_total(t, id, b);
    lemma_count_parts(t, id, 2);
    lemma_count_after(t, id, b, 2);
    lemma_count_one(t.nodes, id, 2);
}

/// Removing a node other than the root drops exactly it and the nodes below
/// it from the arena, in a tree where only folders have children.
pub proof fn law_removal_node_count(t: TreeView, id: int, b: TreeView)
    requires
        wf(t),
        leafy(t),
        0 <= id < t.nodes.len(),
        t.nodes[id].parent is Some,
        removal(t, id, b),
    ensures
        b.nodes.len() + 1 + below_of(t.nodes, id, false).len() == t.nodes.len(),
{
    let n = t.nodes.len() as int;
    let d = detached(t, id);
    let o = preorder(d.nodes, t.root as int);
    let r = o + seq![id as NodeId] + below_of(t.nodes, id, false);
    let c = choose|c: TreeView| is_compaction(d, c) && #[trigger] children_sorted(c, b);
    lemma_split(t, id);
    let all = ids(n);
    assert(all.no_duplicates());
    assert forall|j: int| 0 <= j < all.len() implies r.contains(#[trigger] all[j]) by {
        assert(all.contains(all[j]));
    }
    assert forall|j: int| 0 <= j < r.len() implies all.contains(#[trigger] r[j]) by {
        assert(all[r[j] as int] == r[j]);
    }
    lemma_sub_bound(all, r);
    lemma_sub_bound(r, all);
}

/// Removing a node keeps a tree one where only folders have children.
pub proof fn law_removal_leafy(t: TreeView, id: int, b: TreeView)
    requires
        wf(t),
        leafy(t),
        0 <= id < t.nodes.len(),
        removal(t, id, b),
    ensures
        leafy(b),
{
    if t.nodes[id].parent is Some {
        let d = detached(t, id);
        let o = preorder(d.nodes, t.root as int);
        let c = choose|c: TreeView| is_compaction(d, c) && #[trigger] children_sorted(c, b);
        lemma_detached_forest(t, id);
        lemma_preorder(d);
        assert forall|k: int| 0 <= k < b.nodes.len() && !(#[trigger] b.nodes[k]).is_dir implies b.nodes[k].children.len() == 0 by {
            let x = o[k] as int;
            assert(c.nodes[k] == c.nodes[k]);
            assert(c.nodes[k].children == d.nodes[x].children.map_values(|m: NodeId| crate::edit::relabel(o, m)));
            assert(!t.nodes[x].is_dir);
            assert(t.nodes[x].children.len() == 0);
            assert(d.nodes[x].children.len() == 0) by {
                assert(t.nodes[x].children =~= Seq::<NodeId>::empty());
            }
        }
    }
}

/// A list counts no more of a kind than it has members.
proof fn lemma_count_of_len(nodes: Seq<NodeView>, s: Seq<NodeId>, kind: int)
    ensures
        count_of(nodes, s, kind) <= s.len(),
    decreases s.len(),
{
    if s.len() > 0 {
        lemma_count_of_len(nodes, s.drop_last(), kind);
    }
}

impl Tree {
    fn count_errors_list(&self, kids: &Vec<NodeId>, Ghost(i): Ghost<int>, Ghost(fuel): Ghost<nat>) -> (r: u64)
        requires
            is_forest(self@),
            0 <= i < self@.nodes.len(),
            kids@ == self@.nodes[i].children,
            fuel + 1 == fuel_of(self@.nodes, i),
        ensures
            r == count_of(self@.nodes, below_list(self@.nodes, kids@, false, fuel), 2),
        decreases fuel, 0nat,
    {
        let ghost nodes = self@.nodes;
        let mut errs: u64 = 0;
        let mut k: usize = 0;
        proof {
            lemma_below_list(self@, i, kids@, false, fuel);
            lemma_distinct_ids_bound(below_list(nodes, kids@, false, fuel), nodes.len() as int);
        }
        while k < kids.len()
            invariant
                nodes == self@.nodes,
                is_forest(self@),
                0 <= i < nodes.len(),
                kids@ == nodes[i].children,
                fuel + 1 == fuel_of(nodes, i),
                k <= kids@.len(),
                below_list(nodes, kids@, false, fuel).len() <= nodes.len(),
                nodes.len() == self.nodes@.len(),
                errs == count_of(nodes, below_list(nodes, kids@.take(k as int), false, fuel), 2),
            decreases kids@.len() - k,
        {
            let c = kids[k];
            let ghost pre = below_list(nodes, kids@.take(k as int), false, fuel);
            let ghost now = below_list(nodes, kids@.take(k + 1 as int), false, fuel);
            assert(kids@.take(k + 1 as int).drop_last() =~= kids@.take(k as int));
            assert(kids@.take(k + 1 as int).last() == c);
            assert(nodes[i].children.contains(c)) by {
                assert(nodes[i].children[k as int] == c);
            }
            proof {
                lemma_child(self@, i, c);
                assert(kids@ =~= kids@.take(k + 1 as int) + kids@.skip(k + 1 as int));
                lemma_below_list_prefix(nodes, kids@.take(k + 1 as int), kids@.skip(k + 1 as int), false, fuel);
                lemma_count_of_len(nodes, now, 2);
                assert(now.len() <= nodes.len());
                lemma_count_of_append(nodes, pre, seq![c], 2);
                assert(seq![c].drop_last() =~= Seq::<NodeId>::empty());
                assert(count_of(nodes, Seq::<NodeId>::empty(), 2) == 0);
            }
            let cnode = &self.nodes[c as usize];
            let own: u64 = if cnode.error { 1 } else { 0 };
            if cnode.is_dir {
                let sub = self.count_errors_list(&cnode.children, Ghost(c as int), Ghost((fuel - 1) as nat));
                let ghost bl = below_list(nodes, nodes[c as int].children, false, (fuel - 1) as nat);
                proof {
                    assert(fuel >= 1);
                    assert(below(nodes, c as int, false, fuel) == bl);
                    assert(now =~= pre + seq![c] + below(nodes, c as int, false, fuel));
                    lemma_count_of_append(nodes, pre + seq![c], bl, 2);
                }
                errs = errs + own + sub;
            } else {
                proof {
                    assert(now =~= pre + seq![c]);
                }
                errs = errs + own;
            }
            k += 1;
        }
        assert(kids@.take(kids@.len() as int) =~= kids@);
        errs
    }

    /// The unreadable folders strictly below node `id`.
    pub(crate) fn count_errors(&self, id: NodeId) -> (r: u64)
        requires
            is_forest(self@),
            (id as int) < self@.nodes.len(),
        ensures
            r == count_of(self@.nodes, below_of(self@.nodes, id as int, false), 2),
            r <= self@.nodes.len(),
    {
        proof {
            lemma_below_of(self@, id as int, false);
            lemma_distinct_ids_bound(below_of(self@.nodes, id as int, false), self@.nodes.len() as int);
            lemma_count_of_len(self@.nodes, below_of(self@.nodes, id as int, false), 2);
        }
        self.count_errors_list(&self.nodes[id as usize].children, Ghost(id as int), Ghost((fuel_of(self@.nodes, id as int) - 1) as nat))
    }
}

} // verus!
