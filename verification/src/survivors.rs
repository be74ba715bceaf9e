//! What a compaction and a removal keep of each node that stays: its
//! fields and its full path.
use vstd::prelude::*;
use crate::counts::{lemma_outside_reached, lemma_reached_outside};
use crate::edit::{
    children_sorted, detached, is_compaction, lemma_compaction_wf, lemma_detached_forest, lemma_relabel,
    lemma_same_parents_all, relabel, removal, sat_sub,
};
use crate::model::{
    ancestry, chain_ok, depth, is_forest, lemma_chain_ok_bounds, lemma_chain_shape, lemma_parent_depth, lookup, node_path, resolve,
    wf, NodeId, TreeView,
};
use crate::paths::{path_components, push_component};
use crate::resolve::{distinct_siblings, law_find_path, plain_name, plain_names};
use crate::text::eq_ignore_ascii_case;
use crate::subtree::{lemma_preorder, preorder};

verus! {

/// A node's path is its parent's path with its own name pushed on.
proof fn lemma_node_path_step(t: TreeView, x: int)
    requires
        chain_ok(t.nodes, x),
        x <= u32::MAX,
        t.nodes[x].parent is Some,
    ensures
        node_path(t, x) == push_component(node_path(t, t.nodes[x].parent.unwrap() as int), t.nodes[x].name),
{
    let q = t.nodes[x].parent.unwrap() as int;
    lemma_parent_depth(t.nodes, x);
    lemma_chain_ok_bounds(t.nodes, q);
    lemma_chain_shape(t.nodes, q, depth(t.nodes, q));
    let aq = ancestry(t.nodes, q);
    assert(ancestry(t.nodes, x).drop_first() =~= aq.drop_first().push(x as NodeId));
    let nx = crate::model::names_of(t.nodes, ancestry(t.nodes, x).drop_first());
    assert(nx.drop_last() =~= crate::model::names_of(t.nodes, aq.drop_first()));
    assert(nx.last() == t.nodes[x].name);
}

/// The path of a root is its name.
proof fn lemma_node_path_root(t: TreeView, x: int)
    requires
        chain_ok(t.nodes, x),
        x <= u32::MAX,
        t.nodes[x].parent is None,
    ensures
        ancestry(t.nodes, x) == seq![x as NodeId],
{
    lemma_chain_ok_bounds(t.nodes, x);
    lemma_chain_shape(t.nodes, x, depth(t.nodes, x));
}

/// Trees with the same parents and names have the same paths.
proof fn lemma_same_paths(a: TreeView, b: TreeView, x: int)
    requires
        a.nodes.len() == b.nodes.len(),
        a.root == b.root,
        forall|j: int| 0 <= j < a.nodes.len() ==> (#[trigger] a.nodes[j]).parent == b.nodes[j].parent
            && a.nodes[j].name == b.nodes[j].name,
        chain_ok(a.nodes, x),
        x <= u32::MAX,
        (a.root as int) < a.nodes.len(),
    ensures
        node_path(a, x) == node_path(b, x),
{
    lemma_same_parents_all(a.nodes, b.nodes);
    assert(chain_ok(b.nodes, x) && ancestry(a.nodes, x) == ancestry(b.nodes, x));
    let anc = ancestry(a.nodes, x).drop_first();
    lemma_chain_ok_bounds(a.nodes, x);
    lemma_chain_shape(a.nodes, x, depth(a.nodes, x));
    assert(crate::model::names_of(a.nodes, anc) =~= crate::model::names_of(b.nodes, anc)) by {
        assert forall|k: int| 0 <= k < anc.len() implies a.nodes[#[trigger] anc[k] as int].name == b.nodes[anc[k] as int].name by {
            assert(ancestry(a.nodes, x)[k + 1] == anc[k]);
        }
    }
    assert(a.nodes[a.root as int].name == b.nodes[b.root as int].name);
}

/// Compacting a forest keeps, for each node reached from the root (each
/// once, in preorder), its name, size, time, kind and error mark, and its
/// full path.
pub proof fn law_compaction_paths(a: TreeView, b: TreeView, x: NodeId)
    requires
        is_forest(a),
        is_compaction(a, b),
        preorder(a.nodes, a.root as int).contains(x),
    ensures
        ({
            let o = preorder(a.nodes, a.root as int);
            let k = relabel(o, x) as int;
            &&& o.no_duplicates()
            &&& 0 <= k < b.nodes.len()
            &&& o[k] == x
            &&& b.nodes[k].name == a.nodes[x as int].name
            &&& b.nodes[k].size == a.nodes[x as int].size
            &&& b.nodes[k].mtime == a.nodes[x as int].mtime
            &&& b.nodes[k].is_dir == a.nodes[x as int].is_dir
            &&& b.nodes[k].error == a.nodes[x as int].error
            &&& node_path(b, k) == node_path(a, x as int)
        }),
    decreases depth(a.nodes, x as int),
{
    let o = preorder(a.nodes, a.root as int);
    lemma_preorder(a);
    lemma_compaction_wf(a, b);
    let j = choose|j: int| 0 <= j < o.len() && o[j] == x;
    lemma_relabel(o, j);
    let k = relabel(o, x) as int;
    assert(chain_ok(a.nodes, x as int));
    lemma_chain_ok_bounds(a.nodes, x as int);
    assert(chain_ok(b.nodes, k));
    assert(b.nodes[k] == b.nodes[k]);
    lemma_relabel(o, 0);
    assert(b.root == 0 && o[0] == a.root);
    if a.nodes[x as int].parent is None {
        assert(x == a.root) by {
            if j > 0 {
                assert(a.nodes[o[j] as int].parent is Some);
            }
        }
        assert(k == 0);
        lemma_node_path_root(a, x as int);
        lemma_node_path_root(b, k);
        assert(ancestry(a.nodes, x as int).drop_first() =~= Seq::<NodeId>::empty());
        assert(ancestry(b.nodes, k).drop_first() =~= Seq::<NodeId>::empty());
    } else {
        let q = a.nodes[x as int].parent.unwrap();
        assert(j > 0) by {
            if j == 0 {
                assert(a.nodes[a.root as int].parent is None);
            }
        }
        assert(o.contains(q));
        lemma_parent_depth(a.nodes, x as int);
        law_compaction_paths(a, b, q);
        let kq = relabel(o, q) as int;
        assert(b.nodes[k].parent == Some(relabel(o, q)));
        lemma_node_path_step(a, x as int);
        lemma_node_path_step(b, k);
    }
}

/// Removing a node other than the root keeps exactly the nodes outside its
/// subtree, each once, renumbered by a preorder walk: each keeps its name,
/// time, kind and error mark and its full path, and its size, less the
/// removed size (saturating) where it was an ancestor of the removed node.
pub proof fn law_removal_paths(t: TreeView, id: int, b: TreeView)
    requires
        wf(t),
        0 <= id < t.nodes.len(),
        t.nodes[id].parent is Some,
        removal(t, id, b),
    ensures
        ({
            let o = preorder(detached(t, id).nodes, t.root as int);
            let up = ancestry(t.nodes, t.nodes[id].parent.unwrap() as int);
            &&& b.nodes.len() == o.len()
            &&& o.no_duplicates()
            &&& forall|x: NodeId|
                #[trigger] o.contains(x) <==> ((x as int) < t.nodes.len() && !ancestry(t.nodes, x as int).contains(id as NodeId))
            &&& forall|k: int|
                0 <= k < o.len() ==> {
                    let (y, x) = (#[trigger] b.nodes[k], t.nodes[o[k] as int]);
                    &&& node_path(b, k) == node_path(t, o[k] as int)
                    &&& y.name == x.name
                    &&& y.mtime == x.mtime
                    &&& y.is_dir == x.is_dir
                    &&& y.error == x.error
                    &&& y.size == if up.contains(o[k]) { sat_sub(x.size, t.nodes[id].size) } else { x.size }
                }
        }),
{
    let d = detached(t, id);
    let o = preorder(d.nodes, t.root as int);
    let c = choose|c: TreeView| is_compaction(d, c) && #[trigger] children_sorted(c, b);
    lemma_detached_forest(t, id);
    lemma_preorder(d);
    assert forall|x: NodeId|
        #[trigger] o.contains(x) <==> ((x as int) < t.nodes.len() && !ancestry(t.nodes, x as int).contains(id as NodeId)) by {
        if o.contains(x) {
            lemma_reached_outside(t, id, x);
        }
        if (x as int) < t.nodes.len() && !ancestry(t.nodes, x as int).contains(id as NodeId) {
            lemma_outside_reached(t, id, x as int);
        }
    }
    assert forall|k: int| 0 <= k < o.len() implies {
        let (y, x) = (#[trigger] b.nodes[k], t.nodes[o[k] as int]);
        &&& node_path(b, k) == node_path(t, o[k] as int)
        &&& y.name == x.name
        &&& y.mtime == x.mtime
        &&& y.is_dir == x.is_dir
        &&& y.error == x.error
        &&& y.size == if ancestry(t.nodes, t.nodes[id].parent.unwrap() as int).contains(o[k]) {
            sat_sub(x.size, t.nodes[id].size)
        } else {
            x.size
        }
    } by {
        let x = o[k];
        assert(o.contains(x));
        law_compaction_paths(d, c, x);
        lemma_relabel(o, k);
        assert(c.nodes[k] == c.nodes[k]);
        lemma_compaction_wf(d, c);
        // sorting keeps parents and names
        assert(chain_ok(c.nodes, k));
        lemma_same_paths(c, b, k);
        // detaching keeps parents and names
        assert(chain_ok(t.nodes, x as int));
        lemma_same_paths(d, t, x as int);
    }
}

/// A child of node `i` of the tree after a removal stands for a child of
/// the node it came from, with the same name.
proof fn lemma_removal_child(t: TreeView, id: int, b: TreeView, i: int, a: int)
    requires
        wf(t),
        0 <= id < t.nodes.len(),
        t.nodes[id].parent is Some,
        removal(t, id, b),
        0 <= i < b.nodes.len(),
        0 <= a < b.nodes[i].children.len(),
    ensures
        ({
            let o = preorder(detached(t, id).nodes, t.root as int);
            let x = b.nodes[i].children[a];
            &&& (x as int) < b.nodes.len()
            &&& t.nodes[o[i] as int].children.contains(o[x as int])
            &&& b.nodes[x as int].name == t.nodes[o[x as int] as int].name
        }),
{
    let d = detached(t, id);
    let o = preorder(d.nodes, t.root as int);
    let c = choose|c: TreeView| is_compaction(d, c) && #[trigger] children_sorted(c, b);
    lemma_detached_forest(t, id);
    lemma_preorder(d);
    lemma_compaction_wf(d, c);
    crate::edit::lemma_sorted_wf(c, b);
    law_removal_paths(t, id, b);
    let x = b.nodes[i].children[a];
    assert(c.nodes[i] == c.nodes[i]);
    let ck = c.nodes[i].children;
    let bk = b.nodes[i].children;
    assert(crate::edit::sorted_by_size(c.nodes, ck, bk));
    let p = choose|p: Seq<int>| crate::edit::sort_witness(c.nodes, ck, bk, p);
    let l = p[a];
    assert(bk[a] == ck[l]);
    let u = d.nodes[o[i] as int].children[l];
    assert(ck[l] == relabel(o, u));
    assert(d.nodes[o[i] as int].children.contains(u));
    assert(o.contains(u));
    let j = choose|j: int| 0 <= j < o.len() && o[j] == u;
    lemma_relabel(o, j);
    assert(x == relabel(o, u));
    assert(o[x as int] == u);
    if t.nodes[id].parent == Some(o[i]) {
        crate::edit::lemma_without(t.nodes[o[i] as int].children, id as NodeId);
    }
    assert(t.nodes[o[i] as int].children.contains(u));
}

/// Removing a node keeps names plain and siblings distinct ignoring ASCII
/// case.
proof fn lemma_removal_names(t: TreeView, id: int, b: TreeView)
    requires
        wf(t),
        plain_names(t),
        distinct_siblings(t),
        0 <= id < t.nodes.len(),
        t.nodes[id].parent is Some,
        removal(t, id, b),
    ensures
        plain_names(b),
        distinct_siblings(b),
{
    let d = detached(t, id);
    let o = preorder(d.nodes, t.root as int);
    let c = choose|c: TreeView| is_compaction(d, c) && #[trigger] children_sorted(c, b);
    lemma_detached_forest(t, id);
    lemma_preorder(d);
    lemma_compaction_wf(d, c);
    crate::edit::lemma_sorted_wf(c, b);
    law_removal_paths(t, id, b);
    assert forall|k: int| 0 <= k < b.nodes.len() && k != b.root implies plain_name(#[trigger] b.nodes[k].name) by {
        assert(b.nodes[k] == b.nodes[k]);
        assert(o[k] != t.root) by {
            assert(o[0] == t.root);
        }
    }
    assert forall|i: int, a: int, e: int|
        0 <= i < b.nodes.len() && 0 <= a < e < b.nodes[i].children.len() implies !eq_ignore_ascii_case(
            b.nodes[#[trigger] b.nodes[i].children[a] as int].name,
            b.nodes[#[trigger] b.nodes[i].children[e] as int].name,
        ) by {
        let x = b.nodes[i].children[a];
        let y = b.nodes[i].children[e];
        lemma_removal_child(t, id, b, i, a);
        lemma_removal_child(t, id, b, i, e);
        assert(x != y) by {
            assert(b.nodes[i].children.no_duplicates());
        }
        let ks = t.nodes[o[i] as int].children;
        let u = o[x as int];
        let v = o[y as int];
        assert(u != v);
        let pu = choose|q: int| 0 <= q < ks.len() && ks[q] == u;
        let pv = choose|q: int| 0 <= q < ks.len() && ks[q] == v;
        assert(0 <= o[i] < t.nodes.len());
        if pu < pv {
            assert(!eq_ignore_ascii_case(t.nodes[t.nodes[o[i] as int].children[pu] as int].name, t.nodes[t.nodes[o[i] as int].children[pv] as int].name));
        } else {
            assert(!eq_ignore_ascii_case(t.nodes[t.nodes[o[i] as int].children[pv] as int].name, t.nodes[t.nodes[o[i] as int].children[pu] as int].name));
            if eq_ignore_ascii_case(t.nodes[u as int].name, t.nodes[v as int].name) {
                assert(eq_ignore_ascii_case(t.nodes[v as int].name, t.nodes[u as int].name));
            }
        }
    }
}

/// After a removal, the full path of any node outside the removed subtree
/// still finds a node, the one that has that path now, when names are plain
/// and siblings distinct ignoring ASCII case.
pub proof fn law_removal_lookup(t: TreeView, id: int, b: TreeView, x: int)
    requires
        wf(t),
        plain_names(t),
        distinct_siblings(t),
        0 <= id < t.nodes.len(),
        t.nodes[id].parent is Some,
        removal(t, id, b),
        0 <= x < t.nodes.len(),
        !ancestry(t.nodes, x).contains(id as NodeId),
    ensures
        ({
            let k = resolve(b, path_components(node_path(t, x)));
            &&& (k as int) < b.nodes.len()
            &&& node_path(b, k as int) == node_path(t, x)
            &&& lookup(b, path_components(node_path(t, x))) == Some(k)
        }),
{
    let d = detached(t, id);
    let o = preorder(d.nodes, t.root as int);
    let c = choose|c: TreeView| is_compaction(d, c) && #[trigger] children_sorted(c, b);
    lemma_detached_forest(t, id);
    lemma_preorder(d);
    lemma_compaction_wf(d, c);
    crate::edit::lemma_sorted_wf(c, b);
    law_removal_paths(t, id, b);
    lemma_removal_names(t, id, b);
    assert(o.contains(x as NodeId));
    let k = choose|k: int| 0 <= k < o.len() && o[k] == x as NodeId;
    assert(b.nodes[k] == b.nodes[k]);
    law_find_path(b, k);
    assert(crate::model::is_forest(b));
    assert((k as NodeId) as int == k);
}

} // verus!
