//! Tree edits: sorting children by size, compacting the arena and removing
//! a subtree.
use vstd::prelude::*;
use crate::counts::{count_of, file_dir_counters, law_removal_counts, law_removal_errors, law_removal_leafy};
use crate::scan::{count_where, counters_match};
use crate::sizes::{law_removal_sizes, law_sorted_sizes, sizes_add_up};
use crate::model::{
    ancestry, chain, chain_ok, depth, is_forest, lemma_chain_ok_bounds, lemma_chain_prefix,
    lemma_chain_shape, lemma_depth, lemma_depth_unique, lemma_parent_depth, leafy, reaches_top, wf, Node,
    NodeId, NodeView, Tree, TreeView,
};
use crate::subtree::{
    below, below_list, below_of, count_kind, fuel_of, lemma_child, lemma_preorder, preorder,
};

verus! {

/// Lexicographic order on pairs.
pub open spec fn pair_le(a: (u64, u64), b: (u64, u64)) -> bool {
    a.0 < b.0 || (a.0 == b.0 && a.1 <= b.1)
}

/// `slice::sort` on pairs of integers: the result is a rearrangement of the
/// input in ascending (lexicographic) order.
#[verifier::external_body]
fn sort_pairs(v: &mut Vec<(u64, u64)>)
    ensures
        final(v)@.to_multiset() == old(v)@.to_multiset(),
        forall|a: int, b: int|
            0 <= a < b < final(v)@.len() ==> pair_le(#[trigger] final(v)@[a], #[trigger] final(v)@[b]),
{
    v.sort();
}

/// `p` shows that `r` is `kids` rearranged by descending size, ties kept
/// in their order in `kids`: `r[k]` is `kids[p[k]]`.
pub open spec fn sort_witness(nodes: Seq<NodeView>, kids: Seq<NodeId>, r: Seq<NodeId>, p: Seq<int>) -> bool {
    &&& p.len() == r.len()
    &&& forall|k: int| 0 <= k < r.len() ==> 0 <= #[trigger] p[k] < kids.len() && r[k] == kids[p[k]]
    &&& forall|a: int, b: int|
        0 <= a < b < r.len() ==> nodes[#[trigger] r[a] as int].size > nodes[#[trigger] r[b] as int].size
            || (nodes[r[a] as int].size == nodes[r[b] as int].size && p[a] < p[b])
}

/// `r` is the stable sort of `kids` by descending size of the nodes.
pub open spec fn sorted_by_size(nodes: Seq<NodeView>, kids: Seq<NodeId>, r: Seq<NodeId>) -> bool {
    &&& r.len() == kids.len()
    &&& forall|x: NodeId| #[trigger] kids.contains(x) ==> r.contains(x)
    &&& exists|p: Seq<int>| sort_witness(nodes, kids, r, p)
}

/// `b` is `a` with every child list stably sorted by descending size.
pub open spec fn children_sorted(a: TreeView, b: TreeView) -> bool {
    &&& b.nodes.len() == a.nodes.len()
    &&& b.root == a.root
    &&& b.file_count == a.file_count
    &&& b.dir_count == a.dir_count
    &&& b.error_count == a.error_count
    &&& forall|i: int|
        0 <= i < a.nodes.len() ==> {
            let (x, y) = (#[trigger] a.nodes[i], b.nodes[i]);
            &&& y.name == x.name
            &&& y.parent == x.parent
            &&& y.size == x.size
            &&& y.mtime == x.mtime
            &&& y.is_dir == x.is_dir
            &&& y.error == x.error
            &&& sorted_by_size(a.nodes, x.children, y.children)
        }
}

/// Every child reference points into the arena.
pub open spec fn children_in_bounds(t: TreeView) -> bool {
    forall|i: int, k: int|
        0 <= i < t.nodes.len() && 0 <= k < t.nodes[i].children.len() ==> (
        #[trigger] t.nodes[i].children[k] as int) < t.nodes.len()
}

/// New number of node `x`: its position in `order`.
pub open spec fn relabel(order: Seq<NodeId>, x: NodeId) -> NodeId {
    order.index_of(x) as NodeId
}

/// `b` is `a` rebuilt from the nodes reachable from the root, renumbered in
/// depth-first preorder (root first, children in order); parent and child
/// references follow the renumbering.
pub open spec fn is_compaction(a: TreeView, b: TreeView) -> bool {
    let order = preorder(a.nodes, a.root as int);
    &&& b.nodes.len() == order.len()
    &&& b.root == 0
    &&& b.file_count == a.file_count
    &&& b.dir_count == a.dir_count
    &&& b.error_count == a.error_count
    &&& forall|k: int|
        0 <= k < order.len() ==> {
            let (x, y) = (a.nodes[order[k] as int], #[trigger] b.nodes[k]);
            &&& y.name == x.name
            &&& y.size == x.size
            &&& y.mtime == x.mtime
            &&& y.is_dir == x.is_dir
            &&& y.error == x.error
            &&& y.parent == match x.parent {
                Some(p) => Some(relabel(order, p)),
                None => None,
            }
            &&& y.children == x.children.map_values(|c: NodeId| relabel(order, c))
        }
}

/// Renumbering maps the `j`-th of the order to `j`.
pub proof fn lemma_relabel(order: Seq<NodeId>, j: int)
    requires
        order.no_duplicates(),
        0 <= j < order.len(),
        order.len() <= u32::MAX + 1,
    ensures
        relabel(order, order[j]) as int == j,
{
    assert(order[j] == order[j]);
    let i = order.index_of(order[j]);
    assert(0 <= i < order.len() && order[i] == order[j]);
}

/// A repeat-free sequence drawn from a repeat-free `o` is no longer than `o`.
pub proof fn lemma_sub_bound(s: Seq<NodeId>, o: Seq<NodeId>)
    requires
        s.no_duplicates(),
        o.no_duplicates(),
        forall|j: int| 0 <= j < s.len() ==> o.contains(#[trigger] s[j]),
    ensures
        s.len() <= o.len(),
{
    s.unique_seq_to_set();
    o.unique_seq_to_set();
    assert(s.to_set().subset_of(o.to_set())) by {
        assert forall|x: NodeId| s.to_set().contains(x) implies o.to_set().contains(x) by {
            assert(s.contains(x));
            let j = choose|j: int| 0 <= j < s.len() && s[j] == x;
            assert(o.contains(s[j]));
        }
    }
    vstd::set_lib::lemma_len_subset(s.to_set(), o.to_set());
}

/// Every ancestor of a node of the preorder is in the preorder, and the
/// compacted tree has the renumbered parent chain.
proof fn lemma_compaction_chain(a: TreeView, b: TreeView, x: NodeId)
    requires
        is_forest(a),
        is_compaction(a, b),
        preorder(a.nodes, a.root as int).contains(x),
    ensures
        forall|j: int|
            0 <= j < ancestry(a.nodes, x as int).len() ==> preorder(a.nodes, a.root as int).contains(
                #[trigger] ancestry(a.nodes, x as int)[j],
            ),
        reaches_top(b.nodes, relabel(preorder(a.nodes, a.root as int), x) as int, depth(a.nodes, x as int)),
    decreases depth(a.nodes, x as int),
{
    let o = preorder(a.nodes, a.root as int);
    lemma_preorder(a);
    let k = choose|k: int| 0 <= k < o.len() && o[k] == x;
    lemma_relabel(o, k);
    lemma_chain_ok_bounds(a.nodes, x as int);
    assert(chain_ok(a.nodes, x as int));
    let y = b.nodes[k];
    if k == 0 {
        assert(x == a.root);
        assert(a.nodes[x as int].parent is None);
        assert(depth(a.nodes, x as int) == 0);
        assert(ancestry(a.nodes, x as int) =~= seq![x]);
        assert(y.parent is None);
    } else {
        assert(a.nodes[o[k] as int].parent is Some);
        let q = a.nodes[x as int].parent.unwrap();
        assert(o.contains(q));
        lemma_parent_depth(a.nodes, x as int);
        lemma_compaction_chain(a, b, q);
        let kq = choose|kq: int| 0 <= kq < o.len() && o[kq] == q;
        lemma_relabel(o, kq);
        assert(y.parent == Some(relabel(o, q)));
        assert forall|j: int| 0 <= j < ancestry(a.nodes, x as int).len() implies o.contains(
            #[trigger] ancestry(a.nodes, x as int)[j],
        ) by {
            if j < ancestry(a.nodes, q as int).len() {
                assert(ancestry(a.nodes, x as int)[j] == ancestry(a.nodes, q as int)[j]);
            } else {
                lemma_chain_shape(a.nodes, x as int, depth(a.nodes, x as int));
            }
        }
    }
}

/// Compacting a forest gives a well-formed tree.
pub proof fn lemma_compaction_wf(a: TreeView, b: TreeView)
    requires
        is_forest(a),
        is_compaction(a, b),
    ensures
        wf(b),
{
    let o = preorder(a.nodes, a.root as int);
    let m = o.len();
    lemma_preorder(a);
    assert forall|k: int, l: int|
        0 <= k < m && 0 <= l < b.nodes[k].children.len() implies {
            let c = a.nodes[o[k] as int].children[l];
            &&& o.contains(c)
            &&& 0 <= relabel(o, c) < m
            &&& #[trigger] b.nodes[k].children[l] == relabel(o, c)
            &&& o[relabel(o, c) as int] == c
        } by {
        let c = a.nodes[o[k] as int].children[l];
        assert(a.nodes[o[k] as int].children.contains(c));
        assert(o.contains(c));
        let j = choose|j: int| 0 <= j < m && o[j] == c;
        lemma_relabel(o, j);
    }
    // bounds
    assert(in_bounds_b(b)) by {
        assert forall|i: int, k: int|
            0 <= i < b.nodes.len() && 0 <= k < b.nodes[i].children.len() implies (
            #[trigger] b.nodes[i].children[k] as int) < b.nodes.len() by {}
    }
    // child links point back
    assert forall|i: int, k: int|
        0 <= i < b.nodes.len() && 0 <= k < b.nodes[i].children.len() implies b.nodes[#[trigger] b.nodes[i].children[k] as int].parent
            == Some(i as NodeId) by {
        let c = a.nodes[o[i] as int].children[k];
        assert(a.nodes[o[i] as int].children.contains(c));
        lemma_child(a, o[i] as int, c);
        lemma_relabel(o, i);
        let j = relabel(o, c) as int;
        assert(o[j] == c);
    }
    // no repeated children
    assert forall|i: int| 0 <= i < b.nodes.len() implies (#[trigger] b.nodes[i].children).no_duplicates() by {
        let xs = a.nodes[o[i] as int].children;
        let ys = b.nodes[i].children;
        assert(xs.no_duplicates());
        assert forall|p: int, q: int| 0 <= p < ys.len() && 0 <= q < ys.len() && p != q implies ys[p] != ys[q] by {
            assert(ys[p] == relabel(o, xs[p]));
            assert(ys[q] == relabel(o, xs[q]));
            assert(o[relabel(o, xs[p]) as int] == xs[p]);
            assert(o[relabel(o, xs[q]) as int] == xs[q]);
        }
    }
    // chains end, and are short
    assert forall|i: int| 0 <= i < b.nodes.len() implies #[trigger] chain_ok(b.nodes, i) by {
        let x = o[i];
        assert(o.contains(x));
        lemma_relabel(o, i);
        lemma_compaction_chain(a, b, x);
        lemma_chain_ok_bounds(a.nodes, x as int);
        let d = depth(a.nodes, x as int);
        let anc = ancestry(a.nodes, x as int);
        lemma_chain_shape(a.nodes, x as int, d);
        assert(anc.no_duplicates()) by {
            assert forall|p: int, q: int| 0 <= p < anc.len() && 0 <= q < anc.len() && p != q implies anc[p] != anc[q] by {
                lemma_chain_prefix(a.nodes, x as int, d, p as nat);
                lemma_chain_prefix(a.nodes, x as int, d, q as nat);
                if anc[p] == anc[q] {
                    lemma_depth_unique(a.nodes, anc[p] as int, p as nat, q as nat);
                }
            }
        }
        lemma_sub_bound(anc, o);
        lemma_depth(b.nodes, i, d);
    }
    // every node but the root is listed by its parent
    assert forall|i: int| 0 <= i < b.nodes.len() && i != b.root implies match #[trigger] b.nodes[i].parent {
        Some(p) => b.nodes[p as int].children.contains(i as NodeId),
        None => false,
    } by {
        let x = o[i];
        assert(a.nodes[o[i] as int].parent is Some);
        let q = a.nodes[x as int].parent.unwrap();
        assert(o.contains(q) && a.nodes[q as int].children.contains(x));
        let kq = choose|kq: int| 0 <= kq < m && o[kq] == q;
        lemma_relabel(o, kq);
        lemma_relabel(o, i);
        let l = choose|l: int| 0 <= l < a.nodes[q as int].children.len() && a.nodes[q as int].children[l] == x;
        assert(b.nodes[kq].children[l] == relabel(o, x));
    }
}

spec fn in_bounds_b(t: TreeView) -> bool {
    crate::model::in_bounds(t)
}

impl Tree {
    /// Appends `i` and everything below it, in preorder.
    fn collect_preorder(&self, i: NodeId, out: &mut Vec<NodeId>, Ghost(fuel): Ghost<nat>)
        requires
            is_forest(self@),
            (i as int) < self@.nodes.len(),
            fuel == fuel_of(self@.nodes, i as int),
        ensures
            final(out)@ == old(out)@ + seq![i] + below(self@.nodes, i as int, true, fuel),
        decreases fuel,
    {
        let ghost nodes = self@.nodes;
        let ghost start = out@;
        proof {
            lemma_chain_ok_bounds(nodes, i as int);
            assert(chain_ok(nodes, i as int));
        }
        out.push(i);
        let kids = &self.nodes[i as usize].children;
        let mut k: usize = 0;
        while k < kids.len()
            invariant
                nodes == self@.nodes,
                is_forest(self@),
                (i as int) < nodes.len(),
                fuel == fuel_of(nodes, i as int),
                fuel >= 1,
                *kids == self.nodes@[i as int].children,
                k <= kids@.len(),
                out@ == start + seq![i] + below_list(nodes, kids@.take(k as int), true, (fuel - 1) as nat),
            decreases kids@.len() - k,
        {
            let c = kids[k];
            assert(nodes[i as int].children.contains(c)) by {
                assert(nodes[i as int].children[k as int] == c);
            }
            proof {
                lemma_child(self@, i as int, c);
            }
            self.collect_preorder(c, out, Ghost((fuel - 1) as nat));
            assert(kids@.take(k + 1 as int).drop_last() =~= kids@.take(k as int));
            assert(kids@.take(k + 1 as int).last() == c);
            assert(out@ =~= start + seq![i] + below_list(nodes, kids@.take(k + 1 as int), true, (fuel - 1) as nat));
            k += 1;
        }
        assert(kids@.take(kids@.len() as int) =~= kids@);
    }

    /// Rebuild the arena keeping only nodes reachable from the root.
    fn compact(&mut self)
        requires
            is_forest(old(self)@),
        ensures
            is_compaction(old(self)@, final(self)@),
            wf(final(self)@),
    {
        let ghost a = self@;
        let ghost nodes = a.nodes;
        let mut order: Vec<NodeId> = Vec::new();
        proof {
            lemma_chain_ok_bounds(nodes, a.root as int);
            assert(chain_ok(nodes, a.root as int));
        }
        self.collect_preorder(self.root, &mut order, Ghost(fuel_of(nodes, a.root as int)));
        proof {
            lemma_preorder(a);
            assert(order@ =~= preorder(nodes, a.root as int));
        }
        let ghost o = order@;
        let n = self.nodes.len();
        let mut pos: Vec<NodeId> = vec![0; n];
        let mut k: usize = 0;
        while k < order.len()
            invariant
                o == order@,
                o.no_duplicates(),
                o.len() <= nodes.len(),
                nodes.len() == n,
                nodes.len() <= u32::MAX + 1,
                forall|j: int| 0 <= j < o.len() ==> (#[trigger] o[j] as int) < n,
                pos@.len() == n,
                k <= o.len(),
                forall|j: int| 0 <= j < k ==> pos@[#[trigger] o[j] as int] as int == j,
            decreases o.len() - k,
        {
            let ghost before = pos@;
            pos.set(order[k] as usize, k as NodeId);
            assert forall|j: int| 0 <= j < k + 1 implies pos@[#[trigger] o[j] as int] as int == j by {
                if j < k {
                    assert(o[j] != o[k as int]);
                    assert(pos@[o[j] as int] == before[o[j] as int]);
                }
            }
            k += 1;
        }
        // pos gives the new number of every node in the order
        assert forall|j: int| 0 <= j < o.len() implies pos@[#[trigger] o[j] as int] == relabel(o, o[j]) by {
            lemma_relabel(o, j);
        }
        let mut fresh: Vec<Node> = Vec::new();
        let mut k: usize = 0;
        while k < order.len()
            invariant
                o == order@,
                o == preorder(nodes, a.root as int),
                is_forest(a),
                nodes == a.nodes,
                self@ == a,
                o.no_duplicates(),
                nodes.len() == n,
                pos@.len() == n,
                forall|j: int| 0 <= j < o.len() ==> (#[trigger] o[j] as int) < n,
                forall|j: int| 0 <= j < o.len() ==> pos@[#[trigger] o[j] as int] == relabel(o, o[j]),
                forall|j: int, c: NodeId|
                    0 <= j < o.len() && nodes[#[trigger] o[j] as int].children.contains(c) ==> #[trigger] o.contains(c),
                forall|j: int|
                    0 < j < o.len() ==> (nodes[#[trigger] o[j] as int].parent matches Some(q) && o.contains(q)),
                nodes[o[0] as int].parent is None,
                k <= o.len(),
                fresh@.len() == k,
                forall|j: int|
                    0 <= j < k ==> {
                        let (x, y) = (nodes[o[j] as int], #[trigger] fresh@[j]@);
                        &&& y.name == x.name
                        &&& y.size == x.size
                        &&& y.mtime == x.mtime
                        &&& y.is_dir == x.is_dir
                        &&& y.error == x.error
                        &&& y.parent == match x.parent {
                            Some(p) => Some(relabel(o, p)),
                            None => None,
                        }
                        &&& y.children == x.children.map_values(|c: NodeId| relabel(o, c))
                    },
            decreases o.len() - k,
        {
            let old_node = &self.nodes[order[k] as usize];
            let ghost x = nodes[o[k as int] as int];
            assert(old_node@ == x);
            let mut ch: Vec<NodeId> = Vec::new();
            let mut l: usize = 0;
            while l < old_node.children.len()
                invariant
                    old_node@ == x,
                    o.contains(o[k as int]),
                    0 <= k < o.len(),
                    pos@.len() == n,
                    forall|j: int| 0 <= j < o.len() ==> (#[trigger] o[j] as int) < n,
                    forall|j: int| 0 <= j < o.len() ==> pos@[#[trigger] o[j] as int] == relabel(o, o[j]),
                    forall|c: NodeId| #[trigger] x.children.contains(c) ==> o.contains(c),
                    l <= x.children.len(),
                    ch@ == x.children.take(l as int).map_values(|c: NodeId| relabel(o, c)),
                decreases x.children.len() - l,
            {
                let c = old_node.children[l];
                assert(x.children.contains(c)) by {
                    assert(x.children[l as int] == c);
                }
                let ghost jc = choose|jc: int| 0 <= jc < o.len() && o[jc] == c;
                assert(pos@[o[jc] as int] == relabel(o, o[jc]));
                ch.push(pos[c as usize]);
                assert(ch@ =~= x.children.take(l + 1 as int).map_values(|c: NodeId| relabel(o, c)));
                l += 1;
            }
            assert(x.children.take(x.children.len() as int) =~= x.children);
            let parent = match old_node.parent {
                Some(p) => {
                    assert(k > 0);
                    assert(o.contains(p));
                    let ghost jp = choose|jp: int| 0 <= jp < o.len() && o[jp] == p;
                    assert(pos@[o[jp] as int] == relabel(o, o[jp]));
                    Some(pos[p as usize])
                },
                None => None,
            };
            fresh.push(
                Node {
                    name: old_node.name.clone(),
                    parent: parent,
                    size: old_node.size,
                    mtime: old_node.mtime,
                    is_dir: old_node.is_dir,
                    children: ch,
                    error: old_node.error,
                },
            );
            k += 1;
        }
        self.nodes = fresh;
        self.root = 0;
        proof {
            assert(is_compaction(a, self@));
            lemma_compaction_wf(a, self@);
        }
    }
}

impl Tree {
    /// `kids` stably sorted by descending node size.
    pub(crate) fn sorted_kids(&self, kids: &Vec<NodeId>) -> (r: Vec<NodeId>)
        requires
            forall|k: int| 0 <= k < kids@.len() ==> (#[trigger] kids@[k] as int) < self@.nodes.len(),
        ensures
            sorted_by_size(self@.nodes, kids@, r@),
    {
        let ghost nodes = self@.nodes;
        let mut v: Vec<(u64, u64)> = Vec::new();
        let mut k: usize = 0;
        while k < kids.len()
            invariant
                nodes == self@.nodes,
                forall|j: int| 0 <= j < kids@.len() ==> (#[trigger] kids@[j] as int) < nodes.len(),
                k <= kids@.len(),
                v@.len() == k,
                forall|j: int|
                    0 <= j < k ==> #[trigger] v@[j] == (
                    (u64::MAX - nodes[kids@[j] as int].size) as u64,
                    j as u64,
                ),
            decreases kids@.len() - k,
        {
            let s = self.nodes[kids[k] as usize].size;
            v.push((u64::MAX - s, k as u64));
            k += 1;
        }
        let ghost before = v@;
        assert(before.no_duplicates()) by {
            assert forall|a: int, b: int| 0 <= a < before.len() && 0 <= b < before.len() && a != b implies before[a] != before[b] by {
                assert(before[a].1 == a as u64);
                assert(before[b].1 == b as u64);
            }
        }
        proof {
            before.lemma_multiset_has_no_duplicates();
        }
        sort_pairs(&mut v);
        let ghost after = v@;
        proof {
            broadcast use vstd::seq_lib::group_to_multiset_ensures;
            assert(after.len() == before.len()) by {
                assert(after.to_multiset().len() == before.to_multiset().len());
            }
            assert forall|x: (u64, u64)| after.to_multiset().contains(x) implies after.to_multiset().count(x) == 1 by {
                assert(before.to_multiset().count(x) == after.to_multiset().count(x));
            }
            after.lemma_multiset_has_no_duplicates_conv();
        }
        // each sorted pair came from the input
        assert forall|j: int| 0 <= j < after.len() implies {
            &&& (#[trigger] after[j]).1 < kids@.len()
            &&& after[j] == before[after[j].1 as int]
        } by {
            broadcast use vstd::seq_lib::group_to_multiset_ensures;
            assert(after.contains(after[j]));
            assert(after.to_multiset().count(after[j]) > 0);
            assert(before.to_multiset().count(after[j]) > 0);
            assert(before.contains(after[j]));
            let m = choose|m: int| 0 <= m < before.len() && before[m] == after[j];
            assert(before[m].1 == m as u64);
        }
        let mut r: Vec<NodeId> = Vec::new();
        let mut j: usize = 0;
        while j < v.len()
            invariant
                v@ == after,
                after.len() == kids@.len(),
                j <= after.len(),
                r@.len() == j,
                forall|a: int| 0 <= a < j ==> #[trigger] r@[a] == kids@[after[a].1 as int],
                forall|a: int| 0 <= a < after.len() ==> (#[trigger] after[a]).1 < kids@.len(),
            decreases after.len() - j,
        {
            r.push(kids[v[j].1 as usize]);
            j += 1;
        }
        let ghost p = after.map_values(|x: (u64, u64)| x.1 as int);
        assert(sort_witness(nodes, kids@, r@, p)) by {
            assert forall|a: int, b: int| 0 <= a < b < r@.len() implies nodes[#[trigger] r@[a] as int].size
                > nodes[#[trigger] r@[b] as int].size || (nodes[r@[a] as int].size == nodes[r@[b] as int].size
                && p[a] < p[b]) by {
                assert(pair_le(after[a], after[b]));
                assert(after[a] != after[b]);
                assert(after[a] == before[after[a].1 as int]);
                assert(after[b] == before[after[b].1 as int]);
            }
        }
        assert forall|x: NodeId| #[trigger] kids@.contains(x) implies r@.contains(x) by {
            broadcast use vstd::seq_lib::group_to_multiset_ensures;
            let m = choose|m: int| 0 <= m < kids@.len() && kids@[m] == x;
            assert(before.contains(before[m]));
            assert(before.to_multiset().count(before[m]) > 0);
            assert(after.contains(before[m]));
            let a = choose|a: int| 0 <= a < after.len() && after[a] == before[m];
            assert(r@[a] == x);
        }
        r
    }

    /// Sorts every child list by descending size, keeping the order of
    /// children of equal size.
    pub fn sort_children_by_size(&mut self)
        requires
            children_in_bounds(old(self)@),
        ensures
            children_sorted(old(self)@, final(self)@),
            wf(old(self)@) ==> wf(final(self)@),
            wf(old(self)@) && sizes_add_up(old(self)@) ==> sizes_add_up(final(self)@),
    {
        let ghost start = self@;
        let n = self.nodes.len();
        let mut i: usize = 0;
        while i < n
            invariant
                n == start.nodes.len(),
                children_in_bounds(start),
                self@.nodes.len() == n,
                self.root == start.root,
                self.file_count == start.file_count,
                self.dir_count == start.dir_count,
                self.error_count == start.error_count,
                i <= n,
                forall|j: int| 0 <= j < n ==> #[trigger] self@.nodes[j].size == start.nodes[j].size,
                forall|j: int| i <= j < n ==> #[trigger] self@.nodes[j] == start.nodes[j],
                forall|j: int|
                    0 <= j < i ==> {
                        let (x, y) = (#[trigger] start.nodes[j], self@.nodes[j]);
                        &&& y.name == x.name
                        &&& y.parent == x.parent
                        &&& y.size == x.size
                        &&& y.mtime == x.mtime
                        &&& y.is_dir == x.is_dir
                        &&& y.error == x.error
                        &&& sorted_by_size(start.nodes, x.children, y.children)
                    },
            decreases n - i,
        {
            let ghost before = self@;
            assert(self@.nodes[i as int] == start.nodes[i as int]);
            assert forall|k: int| 0 <= k < self.nodes@[i as int].children@.len() implies (
            #[trigger] self.nodes@[i as int].children@[k] as int) < self@.nodes.len() by {
                assert(start.nodes[i as int].children[k] == self.nodes@[i as int].children@[k]);
            }
            let sorted = self.sorted_kids(&self.nodes[i].children);
            proof {
                // sorting reads sizes, which equal the starting ones
                let kids = start.nodes[i as int].children;
                let w = choose|p: Seq<int>| sort_witness(self@.nodes, kids, sorted@, p);
                assert(sort_witness(start.nodes, kids, sorted@, w)) by {
                    assert forall|a: int, b: int| 0 <= a < b < sorted@.len() implies start.nodes[#[trigger] sorted@[a] as int].size
                        > start.nodes[#[trigger] sorted@[b] as int].size || (start.nodes[sorted@[a] as int].size == start.nodes[sorted@[b] as int].size
                        && w[a] < w[b]) by {
                        assert(self@.nodes[sorted@[a] as int].size > self@.nodes[sorted@[b] as int].size || (self@.nodes[sorted@[a] as int].size == self@.nodes[sorted@[b] as int].size && w[a] < w[b]));
                    }
                }
            }
            self.nodes[i].children = sorted;
            proof {
                assert forall|j: int| 0 <= j < n implies #[trigger] self@.nodes[j].size == start.nodes[j].size by {
                    if j != i {
                        assert(self@.nodes[j] == before.nodes[j]);
                    }
                }
                assert forall|j: int| i < j < n implies #[trigger] self@.nodes[j] == start.nodes[j] by {
                    assert(self@.nodes[j] == before.nodes[j]);
                }
                assert forall|j: int| 0 <= j < i + 1 implies {
                    let (x, y) = (#[trigger] start.nodes[j], self@.nodes[j]);
                    &&& y.name == x.name
                    &&& y.parent == x.parent
                    &&& y.size == x.size
                    &&& y.mtime == x.mtime
                    &&& y.is_dir == x.is_dir
                    &&& y.error == x.error
                    &&& sorted_by_size(start.nodes, x.children, y.children)
                } by {
                    if j < i {
                        assert(self@.nodes[j] == before.nodes[j]);
                    }
                }
            }
            i += 1;
        }
        proof {
            if wf(start) {
                lemma_sorted_wf(start, self@);
                if sizes_add_up(start) {
                    law_sorted_sizes(start, self@);
                }
            }
        }
    }
}

} // verus!

verus! {

/// `s` without any occurrence of `x`.
pub open spec fn without(s: Seq<NodeId>, x: NodeId) -> Seq<NodeId>
    decreases s.len(),
{
    if s.len() == 0 {
        Seq::empty()
    } else if s.last() == x {
        without(s.drop_last(), x)
    } else {
        without(s.drop_last(), x).push(s.last())
    }
}

/// `u64::saturating_sub`.
pub open spec fn sat_sub(a: u64, b: u64) -> u64 {
    if a >= b {
        (a - b) as u64
    } else {
        0
    }
}

/// The tree just after detaching `id` from its parent: the parent no longer
/// lists it, every ancestor (from the parent up) shrinks by its size, and
/// the file, directory and error counters drop by what the subtree held
/// (all saturating at zero).
pub open spec fn detached(t: TreeView, id: int) -> TreeView {
    let n = t.nodes[id];
    let p = n.parent.unwrap();
    let up = ancestry(t.nodes, p as int);
    let items = below_of(t.nodes, id, false);
    let files = count_kind(t.nodes, items, false);
    let dirs = count_kind(t.nodes, items, true);
    TreeView {
        nodes: Seq::new(
            t.nodes.len(),
            |j: int|
                {
                    let x = t.nodes[j];
                    NodeView {
                        name: x.name,
                        parent: x.parent,
                        size: if up.contains(j as NodeId) {
                            sat_sub(x.size, n.size)
                        } else {
                            x.size
                        },
                        mtime: x.mtime,
                        is_dir: x.is_dir,
                        children: if j == p as int {
                            without(x.children, id as NodeId)
                        } else {
                            x.children
                        },
                        error: x.error,
                    }
                },
        ),
        root: t.root,
        file_count: sat_sub(t.file_count, (files + if n.is_dir { 0nat } else { 1nat }) as u64),
        dir_count: sat_sub(t.dir_count, (dirs + if n.is_dir { 1nat } else { 0nat }) as u64),
        error_count: {
            let errs = count_of(t.nodes, items, 2) + if n.error { 1nat } else { 0nat };
            if t.error_count >= errs {
                (t.error_count - errs) as u32
            } else {
                0
            }
        },
    }
}

/// What `without` keeps.
pub proof fn lemma_without(s: Seq<NodeId>, x: NodeId)
    ensures
        forall|y: NodeId| #[trigger] without(s, x).contains(y) <==> (s.contains(y) && y != x),
        s.no_duplicates() ==> without(s, x).no_duplicates(),
    decreases s.len(),
{
    if s.len() > 0 {
        let f = s.drop_last();
        lemma_without(f, x);
        let w = without(f, x);
        let r = without(s, x);
        assert(s.last() == x ==> r == w);
        assert(s.last() != x ==> r == w.push(s.last()));
        assert forall|y: NodeId| #[trigger] r.contains(y) <==> (s.contains(y) && y != x) by {
            if s.contains(y) && y != x {
                let k = choose|k: int| 0 <= k < s.len() && s[k] == y;
                if k < s.len() - 1 {
                    assert(f[k] == y);
                    assert(f.contains(y));
                    assert(w.contains(y));
                    let j = choose|j: int| 0 <= j < w.len() && w[j] == y;
                    if s.last() != x {
                        assert(r[j] == y);
                    }
                } else {
                    assert(r[w.len() as int] == y);
                }
            }
            if r.contains(y) {
                let j = choose|j: int| 0 <= j < r.len() && r[j] == y;
                if s.last() != x && j == w.len() {
                    assert(s[s.len() - 1] == y);
                } else {
                    assert(w[j] == y);
                    assert(w.contains(y));
                    assert(f.contains(y));
                    let k = choose|k: int| 0 <= k < f.len() && f[k] == y;
                    assert(s[k] == y);
                }
            }
        }
        if s.no_duplicates() {
            assert(f.no_duplicates());
            if s.last() != x {
                assert(!f.contains(s.last())) by {
                    if f.contains(s.last()) {
                        let k = choose|k: int| 0 <= k < f.len() && f[k] == s.last();
                        assert(s[k] == s[s.len() - 1]);
                    }
                }
                assert(!w.contains(s.last()));
                assert(w.push(s.last()).no_duplicates()) by {
                    assert forall|a: int, b: int| 0 <= a < b < w.len() + 1 implies w.push(s.last())[a] != w.push(s.last())[b] by {
                        if b == w.len() {
                            assert(w.push(s.last())[a] == w[a]);
                        }
                    }
                }
            }
        }
    }
}

/// Two arenas with the same parents have the same parent chains.
pub proof fn lemma_same_parents(a: Seq<NodeView>, b: Seq<NodeView>, i: int, d: nat)
    requires
        a.len() == b.len(),
        forall|j: int| 0 <= j < a.len() ==> (#[trigger] a[j]).parent == b[j].parent,
        reaches_top(a, i, d),
    ensures
        reaches_top(b, i, d),
        chain(a, i, d) == chain(b, i, d),
    decreases d,
{
    if d > 0 {
        assert(a[i].parent == b[i].parent);
        lemma_same_parents(a, b, a[i].parent.unwrap() as int, (d - 1) as nat);
    }
}

/// Arenas with the same parent links have the same chains.
pub proof fn lemma_same_parents_all(a: Seq<NodeView>, b: Seq<NodeView>)
    requires
        a.len() == b.len(),
        forall|j: int| 0 <= j < a.len() ==> (#[trigger] a[j]).parent == b[j].parent,
    ensures
        forall|i: int| #[trigger] chain_ok(a, i) ==> chain_ok(b, i) && depth(a, i) == depth(b, i) && ancestry(a, i) == ancestry(b, i),
{
    assert forall|i: int| #[trigger] chain_ok(a, i) implies chain_ok(b, i) && depth(a, i) == depth(b, i) && ancestry(a, i) == ancestry(b, i) by {
        lemma_chain_ok_bounds(a, i);
        lemma_same_parents(a, b, i, depth(a, i));
        lemma_depth(b, i, depth(a, i));
    }
}

/// A node's ancestors are all different nodes.
pub proof fn lemma_ancestry_distinct(nodes: Seq<NodeView>, x: int)
    requires
        chain_ok(nodes, x),
        x <= u32::MAX,
    ensures
        ancestry(nodes, x).no_duplicates(),
{
    lemma_chain_ok_bounds(nodes, x);
    let d = depth(nodes, x);
    let anc = ancestry(nodes, x);
    lemma_chain_shape(nodes, x, d);
    assert forall|p: int, q: int| 0 <= p < anc.len() && 0 <= q < anc.len() && p != q implies anc[p] != anc[q] by {
        lemma_chain_prefix(nodes, x, d, p as nat);
        lemma_chain_prefix(nodes, x, d, q as nat);
        if anc[p] == anc[q] {
            lemma_depth_unique(nodes, anc[p] as int, p as nat, q as nat);
        }
    }
}

/// Sorting child lists keeps a tree well formed.
pub proof fn lemma_sorted_wf(a: TreeView, b: TreeView)
    requires
        wf(a),
        children_sorted(a, b),
    ensures
        wf(b),
{
    lemma_same_parents_all(a.nodes, b.nodes);
    assert forall|i: int| 0 <= i < a.nodes.len() implies {
        &&& forall|c: NodeId| #[trigger] b.nodes[i].children.contains(c) <==> a.nodes[i].children.contains(c)
        &&& b.nodes[i].children.no_duplicates()
    } by {
        let (xs, ys) = (a.nodes[i].children, b.nodes[i].children);
        assert(sorted_by_size(a.nodes, xs, ys));
        let p = choose|p: Seq<int>| sort_witness(a.nodes, xs, ys, p);
        assert forall|c: NodeId| #[trigger] ys.contains(c) implies xs.contains(c) by {
            let k = choose|k: int| 0 <= k < ys.len() && ys[k] == c;
            assert(xs[p[k]] == c);
        }
        assert forall|c: NodeId| #[trigger] xs.contains(c) implies ys.contains(c) by {}
        assert(xs.no_duplicates());
        assert forall|u: int, v: int| 0 <= u < v < ys.len() implies ys[u] != ys[v] by {
            if ys[u] == ys[v] {
                assert(xs[p[u]] == xs[p[v]]);
            }
        }
    }
    assert forall|i: int, k: int|
        0 <= i < b.nodes.len() && 0 <= k < b.nodes[i].children.len() implies (
        #[trigger] b.nodes[i].children[k] as int) < b.nodes.len() && b.nodes[b.nodes[i].children[k] as int].parent == Some(i as NodeId) by {
        let c = b.nodes[i].children[k];
        assert(b.nodes[i].children.contains(c));
        assert(a.nodes[i].children.contains(c));
        let l = choose|l: int| 0 <= l < a.nodes[i].children.len() && a.nodes[i].children[l] == c;
        assert(a.nodes[a.nodes[i].children[l] as int].parent == Some(i as NodeId));
    }
    assert forall|i: int| 0 <= i < b.nodes.len() implies #[trigger] chain_ok(b.nodes, i) by {
        assert(chain_ok(a.nodes, i));
    }
    assert forall|i: int| 0 <= i < b.nodes.len() && i != b.root implies match #[trigger] b.nodes[i].parent {
        Some(p) => b.nodes[p as int].children.contains(i as NodeId),
        None => false,
    } by {
        assert(a.nodes[i].parent == b.nodes[i].parent);
        assert(chain_ok(a.nodes, i));
        lemma_chain_ok_bounds(a.nodes, i);
        match a.nodes[i].parent {
            Some(p) => {
                lemma_parent_depth(a.nodes, i);
                lemma_chain_ok_bounds(a.nodes, p as int);
                assert(a.nodes[p as int].children.contains(i as NodeId));
                assert(b.nodes[p as int].children.contains(i as NodeId));
            },
            None => {},
        }
    }
}

/// Detaching a non-root node of a well-formed tree leaves a forest.
pub proof fn lemma_detached_forest(t: TreeView, id: int)
    requires
        wf(t),
        0 <= id < t.nodes.len(),
        t.nodes[id].parent is Some,
    ensures
        is_forest(detached(t, id)),
{
    let d = detached(t, id);
    let p = t.nodes[id].parent.unwrap();
    lemma_without(t.nodes[p as int].children, id as NodeId);
    assert forall|j: int| 0 <= j < t.nodes.len() implies (#[trigger] t.nodes[j]).parent == d.nodes[j].parent by {}
    lemma_same_parents_all(t.nodes, d.nodes);
    assert forall|i: int, k: int|
        0 <= i < d.nodes.len() && 0 <= k < d.nodes[i].children.len() implies (
        #[trigger] d.nodes[i].children[k] as int) < d.nodes.len() && d.nodes[d.nodes[i].children[k] as int].parent == Some(i as NodeId) by {
        let c = d.nodes[i].children[k];
        assert(d.nodes[i].children.contains(c));
        assert(t.nodes[i].children.contains(c));
        let l = choose|l: int| 0 <= l < t.nodes[i].children.len() && t.nodes[i].children[l] == c;
        assert(t.nodes[t.nodes[i].children[l] as int].parent == Some(i as NodeId));
    }
    assert forall|i: int| 0 <= i < d.nodes.len() implies (#[trigger] d.nodes[i].children).no_duplicates() by {
        assert(t.nodes[i].children.no_duplicates());
    }
    assert forall|i: int| 0 <= i < d.nodes.len() implies #[trigger] chain_ok(d.nodes, i) by {
        assert(chain_ok(t.nodes, i));
    }
}

/// `b` is what removing node `id` makes of `a`: the root stays as it is;
/// any other node is detached, the arena compacted and the child lists
/// sorted by size again.
pub open spec fn removal(a: TreeView, id: int, b: TreeView) -> bool {
    if a.nodes[id].parent is Some {
        exists|c: TreeView| is_compaction(detached(a, id), c) && #[trigger] children_sorted(c, b)
    } else {
        b == a
    }
}

/// Removing a node other than the root leaves a tree whose total size is
/// the old total less the removed node's size (saturating at zero), and
/// whose counters drop by the files, directories and unreadable
/// directories the node held, itself included.
pub proof fn law_removal_total(t: TreeView, id: int, b: TreeView)
    requires
        wf(t),
        0 <= id < t.nodes.len(),
        t.nodes[id].parent is Some,
        removal(t, id, b),
    ensures
        (b.root as int) < b.nodes.len(),
        b.nodes[b.root as int].size == sat_sub(t.nodes[t.root as int].size, t.nodes[id].size),
        b.file_count == detached(t, id).file_count,
        b.dir_count == detached(t, id).dir_count,
        b.error_count == detached(t, id).error_count,
{
    let d = detached(t, id);
    let c = choose|c: TreeView| is_compaction(d, c) && #[trigger] children_sorted(c, b);
    let p = t.nodes[id].parent.unwrap() as int;
    crate::resolve::lemma_parent_in_tree(t, id);
    crate::resolve::law_ancestry(t, p);
    let up = ancestry(t.nodes, p);
    assert(up[0] == t.root);
    assert(up.contains(t.root));
    let order = preorder(d.nodes, d.root as int);
    assert(order[0] == d.root);
    assert(c.nodes[0].size == d.nodes[order[0] as int].size);
}

impl Tree {
    /// Detach a subtree, fix ancestor sizes and counts, then compact the
    /// arena. Node ids are invalidated; callers must re-resolve by path.
    /// The root is never removed: then nothing changes and the result is
    /// false.
    pub fn remove_subtree(&mut self, id: NodeId) -> (removed: bool)
        requires
            wf(old(self)@),
            (id as int) < old(self)@.nodes.len(),
        ensures
            removed == (old(self)@.nodes[id as int].parent is Some),
            !removed ==> final(self)@ == old(self)@,
            removed ==> exists|c: TreeView|
                is_compaction(detached(old(self)@, id as int), c) && children_sorted(c, final(self)@),
            removal(old(self)@, id as int, final(self)@),
            wf(final(self)@),
            sizes_add_up(old(self)@) ==> sizes_add_up(final(self)@),
            leafy(old(self)@) ==> leafy(final(self)@),
            leafy(old(self)@) && file_dir_counters(old(self)@) ==> file_dir_counters(final(self)@),
            leafy(old(self)@) && old(self)@.error_count == count_where(old(self)@.nodes, 0, old(self)@.nodes.len() as int, 2)
                ==> final(self)@.error_count == count_where(final(self)@.nodes, 0, final(self)@.nodes.len() as int, 2),
            leafy(old(self)@) && counters_match(old(self)@) ==> counters_match(final(self)@),
    {
        let ghost t = self@;
        let ghost nodes = t.nodes;
        let parent = match self.nodes[id as usize].parent {
            Some(p) => p,
            None => {
                return false;
            },
        };
        let removed_size = self.nodes[id as usize].size;
        let (files, dirs) = self.count_items(id);
        let is_dir = self.nodes[id as usize].is_dir;
        let is_err = self.nodes[id as usize].error;
        let errs = self.count_errors(id);
        proof {
            crate::subtree::lemma_below_of(t, id as int, false);
            crate::subtree::lemma_distinct_ids_bound(below_of(nodes, id as int, false), nodes.len() as int);
            crate::subtree::lemma_count_kind_total(nodes, below_of(nodes, id as int, false));
            assert(chain_ok(nodes, id as int));
            lemma_parent_depth(nodes, id as int);
            lemma_ancestry_distinct(nodes, parent as int);
        }
        // the parent stops listing the node
        let mut kept: Vec<NodeId> = Vec::new();
        let mut k: usize = 0;
        let n_kids = self.nodes[parent as usize].children.len();
        while k < n_kids
            invariant
                self@ == t,
                nodes == t.nodes,
                (parent as int) < nodes.len(),
                n_kids == nodes[parent as int].children.len(),
                k <= n_kids,
                kept@ == without(nodes[parent as int].children.take(k as int), id),
            decreases n_kids - k,
        {
            let c = self.nodes[parent as usize].children[k];
            let ghost s = nodes[parent as int].children.take(k + 1 as int);
            assert(s.drop_last() =~= nodes[parent as int].children.take(k as int));
            assert(s.last() == c);
            if c != id {
                kept.push(c);
            }
            k += 1;
        }
        assert(nodes[parent as int].children.take(n_kids as int) =~= nodes[parent as int].children);
        self.nodes[parent as usize].children = kept;
        // every ancestor shrinks by the removed size
        let ghost up = ancestry(nodes, parent as int);
        let ghost mut done: Seq<NodeId> = Seq::empty();
        let mut cur = parent;
        loop
            invariant_except_break
                chain_ok(nodes, cur as int),
                up == ancestry(nodes, cur as int) + done,
            invariant
                up == ancestry(nodes, parent as int),
                up.no_duplicates(),
                is_forest(t),
                nodes == t.nodes,
                self@.nodes.len() == nodes.len(),
                self.root == t.root,
                self.file_count == t.file_count,
                self.dir_count == t.dir_count,
                self.error_count == t.error_count,
                (parent as int) < nodes.len(),
                forall|j: int| 0 <= j < nodes.len() ==> {
                    let (x, y) = (#[trigger] nodes[j], self@.nodes[j]);
                    &&& y.name == x.name
                    &&& y.parent == x.parent
                    &&& y.mtime == x.mtime
                    &&& y.is_dir == x.is_dir
                    &&& y.error == x.error
                    &&& y.children == if j == parent as int { without(x.children, id) } else { x.children }
                    &&& y.size == if done.contains(j as NodeId) { sat_sub(x.size, removed_size) } else { x.size }
                },
            ensures
                up == done,
            decreases depth(nodes, cur as int),
        {
            proof {
                lemma_chain_ok_bounds(nodes, cur as int);
                lemma_chain_shape(nodes, cur as int, depth(nodes, cur as int));
            }
            let ghost before = self@;
            assert(up[depth(nodes, cur as int) as int] == cur);
            assert(!done.contains(cur)) by {
                if done.contains(cur) {
                    let j = choose|j: int| 0 <= j < done.len() && done[j] == cur;
                    assert(up[ancestry(nodes, cur as int).len() + j] == cur);
                }
            }
            let s = self.nodes[cur as usize].size;
            self.nodes[cur as usize].size = s.saturating_sub(removed_size);
            proof {
                let prev = done;
                done = seq![cur] + done;
                assert forall|j: NodeId| #[trigger] done.contains(j) <==> (j == cur || prev.contains(j)) by {
                    if prev.contains(j) {
                        let q = choose|q: int| 0 <= q < prev.len() && prev[q] == j;
                        assert(done[q + 1] == j);
                    }
                    if done.contains(j) {
                        let q = choose|q: int| 0 <= q < done.len() && done[q] == j;
                        if q > 0 {
                            assert(prev[q - 1] == j);
                        }
                    }
                    if j == cur {
                        assert(done[0] == j);
                    }
                }
                assert forall|j: int| 0 <= j < nodes.len() implies {
                    let (x, y) = (#[trigger] nodes[j], self@.nodes[j]);
                    &&& y.name == x.name
                    &&& y.parent == x.parent
                    &&& y.mtime == x.mtime
                    &&& y.is_dir == x.is_dir
                    &&& y.error == x.error
                    &&& y.children == if j == parent as int { without(x.children, id) } else { x.children }
                    &&& y.size == if done.contains(j as NodeId) { sat_sub(x.size, removed_size) } else { x.size }
                } by {
                    if j != cur as int {
                        assert(self@.nodes[j] == before.nodes[j]);
                        assert(j as NodeId != cur);
                    }
                }
            }
            match self.nodes[cur as usize].parent {
                Some(p) => {
                    proof {
                        lemma_parent_depth(nodes, cur as int);
                        assert(up =~= ancestry(nodes, p as int) + done);
                    }
                    cur = p;
                },
                None => {
                    assert(ancestry(nodes, cur as int) =~= seq![cur]);
                    assert(up =~= done);
                    break;
                },
            }
        }
        let file_drop = files + if is_dir { 0 } else { 1 };
        let dir_drop = dirs + if is_dir { 1 } else { 0 };
        self.file_count = self.file_count.saturating_sub(file_drop);
        self.dir_count = self.dir_count.saturating_sub(dir_drop);
        let err_drop: u64 = errs + if is_err { 1 } else { 0 };
        if err_drop >= self.error_count as u64 {
            self.error_count = 0;
        } else {
            self.error_count = self.error_count - err_drop as u32;
        }
        proof {
            let d = detached(t, id as int);
            assert(self@.nodes =~= d.nodes);
            assert(self@ == d);
            lemma_detached_forest(t, id as int);
        }
        let ghost mid = self@;
        self.compact();
        let ghost c = self@;
        self.sort_children_by_size();
        proof {
            lemma_sorted_wf(c, self@);
            assert(is_compaction(detached(t, id as int), c) && children_sorted(c, self@));
            assert(removal(t, id as int, self@));
            if sizes_add_up(t) {
                law_removal_sizes(t, id as int, self@);
            }
            if leafy(t) {
                law_removal_leafy(t, id as int, self@);
                if file_dir_counters(t) {
                    law_removal_counts(t, id as int, self@);
                }
                if t.error_count == count_where(nodes, 0, nodes.len() as int, 2) {
                    law_removal_errors(t, id as int, self@);
                }
            }
        }
        true
    }
}

} // verus!
