//! Walking a tree downwards: the nodes below a node, item counts, and the
//! facts that make such walks finite and free of repeats.
use vstd::prelude::*;
use crate::model::{
    ancestry, chain, chain_ok, depth, is_forest, lemma_chain_ok_bounds, lemma_chain_prefix,
    lemma_chain_shape, lemma_parent_depth, Node, NodeId, NodeView, Tree, TreeView,
};

verus! {

/// The nodes below `i`, child by child, each followed by the nodes below it;
/// with `all` false only directories are descended into. `fuel` bounds the
/// descent (see `below_of`).
pub open spec fn below(nodes: Seq<NodeView>, i: int, all: bool, fuel: nat) -> Seq<NodeId>
    decreases fuel, 0nat, 0nat,
{
    if fuel == 0 {
        Seq::empty()
    } else {
        below_list(nodes, nodes[i].children, all, (fuel - 1) as nat)
    }
}

/// `below` for a list of siblings: each sibling, then what lies below it.
pub open spec fn below_list(nodes: Seq<NodeView>, kids: Seq<NodeId>, all: bool, fuel: nat) -> Seq<
    NodeId,
>
    decreases fuel, 1nat, kids.len(),
{
    if kids.len() == 0 {
        Seq::empty()
    } else {
        let c = kids.last();
        below_list(nodes, kids.drop_last(), all, fuel) + seq![c] + (if all
            || nodes[c as int].is_dir {
            below(nodes, c as int, all, fuel)
        } else {
            Seq::empty()
        })
    }
}

/// Enough fuel to reach every leaf below `i`: one step per level left.
pub open spec fn fuel_of(nodes: Seq<NodeView>, i: int) -> nat {
    (nodes.len() - depth(nodes, i)) as nat
}

/// Everything strictly below `i` (descending only into directories unless
/// `all`), in depth-first order.
pub open spec fn below_of(nodes: Seq<NodeView>, i: int, all: bool) -> Seq<NodeId> {
    below(nodes, i, all, fuel_of(nodes, i))
}

/// `i` followed by everything below it: the depth-first preorder.
pub open spec fn preorder(nodes: Seq<NodeView>, i: int) -> Seq<NodeId> {
    seq![i as NodeId] + below_of(nodes, i, true)
}

/// How many of `s` are directories (`dir`) or files (`!dir`).
pub open spec fn count_kind(nodes: Seq<NodeView>, s: Seq<NodeId>, dir: bool) -> nat
    decreases s.len(),
{
    if s.len() == 0 {
        0
    } else {
        count_kind(nodes, s.drop_last(), dir) + (if nodes[s.last() as int].is_dir == dir {
            1nat
        } else {
            0nat
        })
    }
}

/// Counting over two lists one after the other.
pub proof fn lemma_count_kind_append(nodes: Seq<NodeView>, a: Seq<NodeId>, b: Seq<NodeId>, dir: bool)
    ensures
        count_kind(nodes, a + b, dir) == count_kind(nodes, a, dir) + count_kind(nodes, b, dir),
    decreases b.len(),
{
    if b.len() > 0 {
        lemma_count_kind_append(nodes, a, b.drop_last(), dir);
        assert((a + b).drop_last() =~= a + b.drop_last());
    } else {
        assert(a + b =~= a);
    }
}

/// Files and directories together are all of a list.
pub proof fn lemma_count_kind_total(nodes: Seq<NodeView>, s: Seq<NodeId>)
    ensures
        count_kind(nodes, s, true) + count_kind(nodes, s, false) == s.len(),
    decreases s.len(),
{
    if s.len() > 0 {
        lemma_count_kind_total(nodes, s.drop_last());
    }
}

/// Facts about one child `c` of a forest node `i`.
pub proof fn lemma_child(t: TreeView, i: int, c: NodeId)
    requires
        is_forest(t),
        0 <= i < t.nodes.len(),
        t.nodes[i].children.contains(c),
    ensures
        (c as int) < t.nodes.len(),
        t.nodes[c as int].parent == Some(i as NodeId),
        depth(t.nodes, c as int) == depth(t.nodes, i) + 1,
        ancestry(t.nodes, c as int) == ancestry(t.nodes, i).push(c),
        fuel_of(t.nodes, i) == fuel_of(t.nodes, c as int) + 1,
        fuel_of(t.nodes, c as int) >= 1,
{
    let k = choose|k: int| 0 <= k < t.nodes[i].children.len() && t.nodes[i].children[k] == c;
    assert(t.nodes[i].children[k] == c);
    assert(chain_ok(t.nodes, c as int));
    lemma_parent_depth(t.nodes, c as int);
    lemma_chain_ok_bounds(t.nodes, c as int);
    lemma_chain_ok_bounds(t.nodes, i);
}

/// The nodes reached through `kids`, children of `i`, are in bounds, lie
/// below `i` (hanging under one of `kids`), and none is reached twice.
pub proof fn lemma_below_list(t: TreeView, i: int, kids: Seq<NodeId>, all: bool, fuel: nat)
    requires
        is_forest(t),
        0 <= i < t.nodes.len(),
        fuel + 1 == fuel_of(t.nodes, i),
        forall|k: int| 0 <= k < kids.len() ==> t.nodes[i].children.contains(#[trigger] kids[k]),
        kids.no_duplicates(),
    ensures
        ({
            let s = below_list(t.nodes, kids, all, fuel);
            &&& s.no_duplicates()
            &&& forall|j: int|
                0 <= j < s.len() ==> {
                    &&& (#[trigger] s[j] as int) < t.nodes.len()
                    &&& depth(t.nodes, s[j] as int) > depth(t.nodes, i)
                    &&& ancestry(t.nodes, s[j] as int)[depth(t.nodes, i) as int] == i as NodeId
                    &&& kids.contains(ancestry(t.nodes, s[j] as int)[depth(t.nodes, i) + 1 as int])
                }
        }),
    decreases fuel, kids.len(),
{
    let nodes = t.nodes;
    let di = depth(nodes, i);
    if kids.len() > 0 {
        let front = kids.drop_last();
        let c = kids.last();
        assert forall|k: int| 0 <= k < front.len() implies nodes[i].children.contains(
            #[trigger] front[k],
        ) by {
            assert(front[k] == kids[k]);
        }
        lemma_below_list(t, i, front, all, fuel);
        assert(nodes[i].children.contains(kids[kids.len() - 1]));
        lemma_child(t, i, c);
        lemma_chain_ok_bounds(nodes, i);
        lemma_chain_shape(nodes, i, di);
        let s1 = below_list(nodes, front, all, fuel);
        let sub = if all || nodes[c as int].is_dir {
            below(nodes, c as int, all, fuel)
        } else {
            Seq::empty()
        };
        let seg = seq![c] + sub;
        let s = below_list(nodes, kids, all, fuel);
        assert(s =~= s1 + seg);
        let dc = depth(nodes, c as int);
        // the chain of c ends in i then c
        assert(ancestry(nodes, c as int)[di as int] == i as NodeId);
        assert(ancestry(nodes, c as int)[dc as int] == c);
        if all || nodes[c as int].is_dir {
            // descend: below(c) = below_list(children(c))
            assert(fuel >= 1);
            let kc = nodes[c as int].children;
            assert(kc.no_duplicates());
            assert forall|k: int| 0 <= k < kc.len() implies nodes[c as int].children.contains(
                #[trigger] kc[k],
            ) by {}
            lemma_below_list(t, c as int, kc, all, (fuel - 1) as nat);
            assert(sub == below_list(nodes, kc, all, (fuel - 1) as nat));
            assert forall|j: int| 0 <= j < sub.len() implies {
                &&& ancestry(nodes, #[trigger] sub[j] as int)[di as int] == i as NodeId
                &&& ancestry(nodes, sub[j] as int)[di + 1 as int] == c
            } by {
                let x = sub[j] as int;
                lemma_chain_ok_bounds(nodes, x);
                lemma_chain_prefix(nodes, x, depth(nodes, x), dc);
                lemma_chain_shape(nodes, x, depth(nodes, x));
                assert(ancestry(nodes, x).take(dc + 1 as int) == ancestry(nodes, c as int));
                assert(ancestry(nodes, x)[di as int] == ancestry(nodes, x).take(dc + 1 as int)[di as int]);
                assert(ancestry(nodes, x)[dc as int] == ancestry(nodes, x).take(dc + 1 as int)[dc as int]);
            }
        }
        // everything in seg hangs under c
        assert forall|j: int| 0 <= j < seg.len() implies {
            &&& (#[trigger] seg[j] as int) < nodes.len()
            &&& depth(nodes, seg[j] as int) > di
            &&& ancestry(nodes, seg[j] as int)[di as int] == i as NodeId
            &&& ancestry(nodes, seg[j] as int)[di + 1 as int] == c
        } by {
            if j > 0 {
                assert(seg[j] == sub[j - 1]);
            }
        }
        assert(seg.no_duplicates()) by {
            assert forall|a: int, b: int| 0 <= a < b < seg.len() implies seg[a] != seg[b] by {
                if a == 0 {
                    assert(seg[b] == sub[b - 1]);
                    assert(depth(nodes, sub[b - 1] as int) > dc);
                }
            }
        }
        assert forall|a: int, b: int| 0 <= a < s1.len() && 0 <= b < seg.len() implies s1[a]
            != seg[b] by {
            assert(seg[b] == seg[b]);
            assert(s1[a] == s1[a]);
            if s1[a] == seg[b] {
                assert(front.contains(c));
                let k = choose|k: int| 0 <= k < front.len() && front[k] == c;
                assert(kids[k] == kids[kids.len() - 1]);
            }
        }
        assert(s.no_duplicates()) by {
            assert forall|a: int, b: int| 0 <= a < b < s.len() implies s[a] != s[b] by {
                if b < s1.len() {
                    assert(s[a] == s1[a] && s[b] == s1[b]);
                } else if a >= s1.len() {
                    assert(s[a] == seg[a - s1.len()] && s[b] == seg[b - s1.len()]);
                } else {
                    assert(s[a] == s1[a] && s[b] == seg[b - s1.len()]);
                }
            }
        }
        assert forall|j: int| 0 <= j < s.len() implies {
            &&& (#[trigger] s[j] as int) < nodes.len()
            &&& depth(nodes, s[j] as int) > di
            &&& ancestry(nodes, s[j] as int)[di as int] == i as NodeId
            &&& kids.contains(ancestry(nodes, s[j] as int)[di + 1 as int])
        } by {
            if j < s1.len() {
                assert(s[j] == s1[j]);
                let y = ancestry(nodes, s1[j] as int)[di + 1 as int];
                assert(front.contains(y));
                let k = choose|k: int| 0 <= k < front.len() && front[k] == y;
                assert(kids[k] == y);
            } else {
                assert(s[j] == seg[j - s1.len()]);
                assert(kids[kids.len() - 1] == c);
            }
        }
    }
}

/// The nodes below `i` are in bounds, below `i`, and none repeats.
pub proof fn lemma_below_of(t: TreeView, i: int, all: bool)
    requires
        is_forest(t),
        0 <= i < t.nodes.len(),
    ensures
        ({
            let s = below_of(t.nodes, i, all);
            &&& s.no_duplicates()
            &&& fuel_of(t.nodes, i) >= 1
            &&& s == below_list(t.nodes, t.nodes[i].children, all, (fuel_of(t.nodes, i) - 1) as nat)
            &&& forall|j: int|
                0 <= j < s.len() ==> {
                    &&& (#[trigger] s[j] as int) < t.nodes.len()
                    &&& depth(t.nodes, s[j] as int) > depth(t.nodes, i)
                    &&& ancestry(t.nodes, s[j] as int)[depth(t.nodes, i) as int] == i as NodeId
                }
        }),
{
    lemma_chain_ok_bounds(t.nodes, i);
    assert(chain_ok(t.nodes, i));
    let kc = t.nodes[i].children;
    assert forall|k: int| 0 <= k < kc.len() implies t.nodes[i].children.contains(#[trigger] kc[k]) by {}
    lemma_below_list(t, i, kc, all, (fuel_of(t.nodes, i) - 1) as nat);
}

/// The full walk below `kids` contains every kid, contains the children of
/// everything it contains, and each of its nodes is a kid or a child of a
/// node it contains.
pub proof fn lemma_below_closed(t: TreeView, i: int, kids: Seq<NodeId>, fuel: nat)
    requires
        is_forest(t),
        0 <= i < t.nodes.len(),
        fuel + 1 == fuel_of(t.nodes, i),
        forall|k: int| 0 <= k < kids.len() ==> t.nodes[i].children.contains(#[trigger] kids[k]),
        kids.no_duplicates(),
    ensures
        ({
            let s = below_list(t.nodes, kids, true, fuel);
            &&& forall|x: NodeId| #[trigger] kids.contains(x) ==> s.contains(x)
            &&& forall|j: int, c: NodeId|
                0 <= j < s.len() && t.nodes[#[trigger] s[j] as int].children.contains(c) ==> #[trigger] s.contains(c)
            &&& forall|j: int|
                0 <= j < s.len() ==> kids.contains(#[trigger] s[j]) || (t.nodes[s[j] as int].parent matches Some(q) && s.contains(q)
                    && t.nodes[q as int].children.contains(s[j]))
        }),
    decreases fuel, kids.len(),
{
    let nodes = t.nodes;
    if kids.len() > 0 {
        let front = kids.drop_last();
        let c = kids.last();
        assert forall|k: int| 0 <= k < front.len() implies nodes[i].children.contains(
            #[trigger] front[k],
        ) by {
            assert(front[k] == kids[k]);
        }
        lemma_below_closed(t, i, front, fuel);
        assert(nodes[i].children.contains(kids[kids.len() - 1]));
        lemma_child(t, i, c);
        let s1 = below_list(nodes, front, true, fuel);
        let kc = nodes[c as int].children;
        assert(fuel >= 1);
        assert forall|k: int| 0 <= k < kc.len() implies nodes[c as int].children.contains(#[trigger] kc[k]) by {}
        lemma_below_closed(t, c as int, kc, (fuel - 1) as nat);
        let s2 = below_list(nodes, kc, true, (fuel - 1) as nat);
        assert(below(nodes, c as int, true, fuel) == s2);
        let s = below_list(nodes, kids, true, fuel);
        assert(s =~= s1 + seq![c] + s2);
        assert forall|x: NodeId| #[trigger] s1.contains(x) implies s.contains(x) by {
            let j = choose|j: int| 0 <= j < s1.len() && s1[j] == x;
            assert(s[j] == x);
        }
        assert forall|x: NodeId| #[trigger] s2.contains(x) implies s.contains(x) by {
            let j = choose|j: int| 0 <= j < s2.len() && s2[j] == x;
            assert(s[s1.len() + 1 + j] == x);
        }
        assert(s[s1.len() as int] == c);
        assert forall|x: NodeId| #[trigger] kids.contains(x) implies s.contains(x) by {
            if x != c {
                let k = choose|k: int| 0 <= k < kids.len() && kids[k] == x;
                assert(front[k] == x);
                assert(front.contains(x));
            }
        }
        assert forall|j: int, d: NodeId|
            0 <= j < s.len() && nodes[#[trigger] s[j] as int].children.contains(d) implies #[trigger] s.contains(d) by {
            if j < s1.len() {
                assert(s1[j] == s[j]);
                assert(s1.contains(d));
            } else if j == s1.len() {
                assert(kc.contains(d));
                assert(s2.contains(d));
            } else {
                assert(s2[j - s1.len() - 1] == s[j]);
                assert(s2.contains(d));
            }
        }
        assert forall|j: int|
            0 <= j < s.len() implies kids.contains(#[trigger] s[j]) || (nodes[s[j] as int].parent matches Some(q) && s.contains(q)
                && nodes[q as int].children.contains(s[j])) by {
            if j < s1.len() {
                assert(s1[j] == s[j]);
                if front.contains(s[j]) {
                    let k = choose|k: int| 0 <= k < front.len() && front[k] == s[j];
                    assert(kids[k] == s[j]);
                } else {
                    let q = nodes[s[j] as int].parent.unwrap();
                    assert(s1.contains(q));
                }
            } else if j == s1.len() {
                assert(kids[kids.len() - 1] == s[j]);
            } else {
                let y = s2[j - s1.len() - 1];
                assert(y == s[j]);
                if kc.contains(y) {
                    let k = choose|k: int| 0 <= k < kc.len() && kc[k] == y;
                    assert(nodes[kc[k] as int].parent == Some(c));
                } else {
                    let q = nodes[y as int].parent.unwrap();
                    assert(s2.contains(q));
                }
            }
        }
    }
}

/// Facts about the preorder of a forest's root.
pub proof fn lemma_preorder(t: TreeView)
    requires
        is_forest(t),
    ensures
        ({
            let o = preorder(t.nodes, t.root as int);
            &&& o.no_duplicates()
            &&& o[0] == t.root
            &&& o.len() <= t.nodes.len()
            &&& forall|j: int| 0 <= j < o.len() ==> (#[trigger] o[j] as int) < t.nodes.len()
            &&& forall|j: int, c: NodeId|
                0 <= j < o.len() && t.nodes[#[trigger] o[j] as int].children.contains(c) ==> #[trigger] o.contains(c)
            &&& forall|j: int|
                0 < j < o.len() ==> (t.nodes[#[trigger] o[j] as int].parent matches Some(q) && o.contains(q)
                    && t.nodes[q as int].children.contains(o[j]))
        }),
{
    let nodes = t.nodes;
    let r = t.root as int;
    lemma_below_of(t, r, true);
    let b = below_of(nodes, r, true);
    let kc = nodes[r].children;
    assert forall|k: int| 0 <= k < kc.len() implies nodes[r].children.contains(#[trigger] kc[k]) by {}
    lemma_below_closed(t, r, kc, (fuel_of(nodes, r) - 1) as nat);
    let o = preorder(nodes, r);
    assert(o =~= seq![t.root] + b);
    lemma_chain_ok_bounds(nodes, r);
    assert forall|x: NodeId| #[trigger] b.contains(x) implies o.contains(x) by {
        let j = choose|j: int| 0 <= j < b.len() && b[j] == x;
        assert(o[j + 1] == x);
    }
    assert(o.no_duplicates()) by {
        assert forall|a: int, c: int| 0 <= a < c < o.len() implies o[a] != o[c] by {
            if a == 0 {
                assert(o[c] == b[c - 1]);
                assert(depth(nodes, b[c - 1] as int) > depth(nodes, r));
            } else {
                assert(o[a] == b[a - 1] && o[c] == b[c - 1]);
            }
        }
    }
    assert forall|j: int| 0 <= j < o.len() implies (#[trigger] o[j] as int) < nodes.len() by {
        if j > 0 {
            assert(o[j] == b[j - 1]);
        }
    }
    lemma_distinct_ids_bound(o, nodes.len() as int);
    assert forall|j: int, c: NodeId|
        0 <= j < o.len() && nodes[#[trigger] o[j] as int].children.contains(c) implies #[trigger] o.contains(c) by {
        if j == 0 {
            assert(kc.contains(c));
            assert(b.contains(c));
        } else {
            assert(o[j] == b[j - 1]);
            assert(b.contains(c));
        }
    }
    assert forall|j: int|
        0 < j < o.len() implies (nodes[#[trigger] o[j] as int].parent matches Some(q) && o.contains(q)
            && nodes[q as int].children.contains(o[j])) by {
        let y = b[j - 1];
        assert(o[j] == y);
        if kc.contains(y) {
            let k = choose|k: int| 0 <= k < kc.len() && kc[k] == y;
            assert(nodes[kc[k] as int].parent == Some(t.root));
            assert(o[0] == t.root);
        } else {
            let q = nodes[y as int].parent.unwrap();
            assert(b.contains(q));
        }
    }
}

/// A repeat-free sequence of ids under `n` has at most `n` elements.
pub proof fn lemma_distinct_ids_bound(s: Seq<NodeId>, n: int)
    requires
        s.no_duplicates(),
        forall|j: int| 0 <= j < s.len() ==> (#[trigger] s[j] as int) < n,
        n >= 0,
    ensures
        s.len() <= n,
{
    let si = s.map_values(|x: NodeId| x as int);
    assert(si.no_duplicates()) by {
        assert forall|a: int, b: int| 0 <= a < si.len() && 0 <= b < si.len() && a != b implies si[a]
            != si[b] by {
            assert(s[a] != s[b]);
        }
    }
    si.unique_seq_to_set();
    vstd::set_lib::lemma_int_range(0, n);
    assert(si.to_set().subset_of(vstd::set_lib::set_int_range(0, n))) by {
        assert forall|x: int| si.to_set().contains(x) implies vstd::set_lib::set_int_range(
            0,
            n,
        ).contains(x) by {
            assert(si.contains(x));
            let j = choose|j: int| 0 <= j < si.len() && si[j] == x;
            assert(s[j] as int == x);
        }
    }
    vstd::set_lib::lemma_len_subset(si.to_set(), vstd::set_lib::set_int_range(0, n));
}

impl Tree {
    fn count_list(&self, kids: &Vec<NodeId>, Ghost(i): Ghost<int>, Ghost(fuel): Ghost<nat>) -> (r: (
        u64,
        u64,
    ))
        requires
            is_forest(self@),
            0 <= i < self@.nodes.len(),
            kids@ == self@.nodes[i].children,
            fuel + 1 == fuel_of(self@.nodes, i),
        ensures
            r.0 == count_kind(self@.nodes, below_list(self@.nodes, kids@, false, fuel), false),
            r.1 == count_kind(self@.nodes, below_list(self@.nodes, kids@, false, fuel), true),
        decreases fuel, 0nat,
    {
        let ghost nodes = self@.nodes;
        let mut files: u64 = 0;
        let mut dirs: u64 = 0;
        let mut k: usize = 0;
        proof {
            lemma_below_list(self@, i, kids@, false, fuel);
            lemma_distinct_ids_bound(below_list(nodes, kids@, false, fuel), nodes.len() as int);
        }
        while k < kids.len()
            invariant
                nodes == self@.nodes,
                is_forest(self@),
                0 <= i < nodes.len(),
                kids@ == nodes[i].children,
                fuel + 1 == fuel_of(nodes, i),
                k <= kids@.len(),
                below_list(nodes, kids@, false, fuel).len() <= nodes.len(),
                nodes.len() == self.nodes@.len(),
                files == count_kind(nodes, below_list(nodes, kids@.take(k as int), false, fuel), false),
                dirs == count_kind(nodes, below_list(nodes, kids@.take(k as int), false, fuel), true),
            decreases kids@.len() - k,
        {
            let c = kids[k];
            let ghost pre = below_list(nodes, kids@.take(k as int), false, fuel);
            let ghost now = below_list(nodes, kids@.take(k + 1 as int), false, fuel);
            assert(kids@.take(k + 1 as int).drop_last() =~= kids@.take(k as int));
            assert(kids@.take(k + 1 as int).last() == c);
            assert(nodes[i].children.contains(c)) by {
                assert(nodes[i].children[k as int] == c);
            }
            proof {
                lemma_child(self@, i, c);
                // the prefix of the full list bounds the counts
                assert(kids@ =~= kids@.take(k + 1 as int) + kids@.skip(k + 1 as int));
                lemma_below_list_prefix(nodes, kids@.take(k + 1 as int), kids@.skip(k + 1 as int), false, fuel);
                lemma_count_kind_total(nodes, now);
                assert(now.len() <= below_list(nodes, kids@, false, fuel).len());
                assert(now.len() <= nodes.len());
            }
            let cnode = &self.nodes[c as usize];
            if cnode.is_dir {
                let sub = self.count_list(&cnode.children, Ghost(c as int), Ghost((fuel - 1) as nat));
                let ghost bl = below_list(nodes, nodes[c as int].children, false, (fuel - 1) as nat);
                proof {
                    assert(fuel >= 1);
                    assert(below(nodes, c as int, false, fuel) == bl);
                    assert(now =~= pre + seq![c] + below(nodes, c as int, false, fuel));
                    assert(now == pre + seq![c] + bl);
                    lemma_count_kind_append(nodes, pre + seq![c], bl, false);
                    lemma_count_kind_append(nodes, pre + seq![c], bl, true);
                    lemma_count_kind_append(nodes, pre, seq![c], false);
                    lemma_count_kind_append(nodes, pre, seq![c], true);
                    assert(seq![c].drop_last() =~= Seq::<NodeId>::empty());
                    lemma_count_kind_total(nodes, pre + seq![c]);
                    lemma_count_kind_total(nodes, bl);
                    lemma_count_kind_total(nodes, pre);
                }
                files = files + sub.0;
                dirs = dirs + 1 + sub.1;
            } else {
                proof {
                    assert(now =~= pre + seq![c]);
                    lemma_count_kind_append(nodes, pre, seq![c], false);
                    lemma_count_kind_append(nodes, pre, seq![c], true);
                    assert(seq![c].drop_last() =~= Seq::<NodeId>::empty());
                    lemma_count_kind_total(nodes, pre);
                }
                files = files + 1;
            }
            k += 1;
        }
        assert(kids@.take(kids@.len() as int) =~= kids@);
        (files, dirs)
    }

    /// (files, dirs) contained in the subtree, excluding the node itself.
    pub fn count_items(&self, id: NodeId) -> (r: (u64, u64))
        requires
            is_forest(self@),
            (id as int) < self@.nodes.len(),
        ensures
            r.0 == count_kind(self@.nodes, below_of(self@.nodes, id as int, false), false),
            r.1 == count_kind(self@.nodes, below_of(self@.nodes, id as int, false), true),
    {
        proof {
            lemma_below_of(self@, id as int, false);
        }
        self.count_list(&self.nodes[id as usize].children, Ghost(id as int), Ghost((fuel_of(self@.nodes, id as int) - 1) as nat))
    }
}

/// `below_list` of a split list is the concatenation.
pub proof fn lemma_below_list_prefix(nodes: Seq<NodeView>, a: Seq<NodeId>, b: Seq<NodeId>, all: bool, fuel: nat)
    ensures
        below_list(nodes, a + b, all, fuel) == below_list(nodes, a, all, fuel) + below_list(nodes, b, all, fuel),
    decreases b.len(),
{
    if b.len() == 0 {
        assert(a + b =~= a);
        assert(below_list(nodes, a, all, fuel) + below_list(nodes, b, all, fuel) =~= below_list(nodes, a, all, fuel));
    } else {
        lemma_below_list_prefix(nodes, a, b.drop_last(), all, fuel);
        assert((a + b).drop_last() =~= a + b.drop_last());
        assert((a + b).last() == b.last());
        let c = b.last();
        let tail = seq![c] + (if all || nodes[c as int].is_dir { below(nodes, c as int, all, fuel) } else { Seq::empty() });
        assert(below_list(nodes, a + b, all, fuel) =~= below_list(nodes, a, all, fuel) + below_list(nodes, b.drop_last(), all, fuel) + tail);
    }
}

} // verus!
