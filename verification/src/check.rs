//! Checking a tree read back from disk before anything walks it.
use vstd::prelude::*;
use crate::model::{chain_ok, in_bounds, is_forest, reaches_top, wf, NodeId, NodeView, Tree, TreeView};

verus! {

/// Every parent chain of the listed nodes ends within `n` steps.
spec fn chains_end(nodes: Seq<NodeView>, upto: int) -> bool {
    forall|j: int| 0 <= j < upto ==> #[trigger] chain_ok(nodes, j)
}

impl Tree {
    /// Whether the parent chain of node `j` ends in fewer steps than there
    /// are nodes.
    fn chain_ends(&self, j: usize) -> (r: bool)
        requires
            j < self@.nodes.len(),
        ensures
            r == chain_ok(self@.nodes, j as int),
    {
        let ghost nodes = self@.nodes;
        let n = self.nodes.len();
        let mut cur = j;
        let mut steps: usize = 0;
        loop
            invariant
                nodes == self@.nodes,
                n == nodes.len(),
                cur < n,
                steps < n,
                forall|e: nat| #[trigger] reaches_top(nodes, cur as int, e) == reaches_top(nodes, j as int, (e + steps) as nat),
                forall|e: nat| e < steps ==> !#[trigger] reaches_top(nodes, j as int, e),
            decreases n - steps,
        {
            match self.nodes[cur].parent {
                None => {
                    assert(reaches_top(nodes, cur as int, 0));
                    assert(reaches_top(nodes, j as int, steps as nat));
                    return true;
                },
                Some(p) => {
                    assert(!reaches_top(nodes, cur as int, 0));
                    assert(!reaches_top(nodes, j as int, steps as nat));
                    if (p as usize) >= n {
                        assert forall|e: nat| !#[trigger] reaches_top(nodes, j as int, e) by {
                            if e > steps {
                                let f = (e - steps) as nat;
                                assert(reaches_top(nodes, cur as int, f) == reaches_top(nodes, j as int, (f + steps) as nat));
                                assert(!reaches_top(nodes, p as int, (f - 1) as nat));
                            }
                        }
                        return false;
                    }
                    if steps + 1 >= n {
                        assert forall|e: nat| e < nodes.len() implies !#[trigger] reaches_top(nodes, j as int, e) by {
                            assert(e <= steps);
                        }
                        return false;
                    }
                    let ghost old_cur = cur;
                    cur = p as usize;
                    steps = steps + 1;
                    assert forall|e: nat| #[trigger] reaches_top(nodes, cur as int, e) == reaches_top(nodes, j as int, (e + steps) as nat) by {
                        assert(reaches_top(nodes, old_cur as int, e + 1) == reaches_top(nodes, cur as int, e));
                        assert(reaches_top(nodes, old_cur as int, e + 1) == reaches_top(nodes, j as int, ((e + 1) + (steps - 1)) as nat));
                    }
                },
            }
        }
    }

    /// Whether the tree is well formed (see `wf`): the root and every child
    /// reference lie in the arena, children point back to their parent and
    /// are listed once, every node but the root is listed by its parent, and
    /// every parent chain ends.
    pub fn is_well_formed(&self) -> (r: bool)
        ensures
            r == wf(self@),
    {
        let ghost t = self@;
        let ghost nodes = t.nodes;
        let n = self.nodes.len();
        if (n as u64) > 0x1_0000_0000u64 {
            return false;
        }
        if (self.root as usize) >= n {
            return false;
        }
        if self.nodes[self.root as usize].parent.is_some() {
            return false;
        }
        let mut seen: Vec<bool> = Vec::new();
        let mut c: usize = 0;
        while c < n
            invariant
                c <= n,
                seen@.len() == c,
                forall|x: int| 0 <= x < c ==> !#[trigger] seen@[x],
            decreases n - c,
        {
            seen.push(false);
            c += 1;
        }
        // every child is in the arena, points back, and is listed once
        let mut i: usize = 0;
        while i < n
            invariant
                t == self@,
                nodes == self@.nodes,
                n == nodes.len(),
                n <= u32::MAX + 1,
                i <= n,
                seen@.len() == n,
                forall|a: int, k: int|
                    0 <= a < i && 0 <= k < nodes[a].children.len() ==> (#[trigger] nodes[a].children[k] as int)
                        < n && nodes[nodes[a].children[k] as int].parent == Some(a as NodeId) && seen@[nodes[a].children[k] as int],
                forall|a: int| 0 <= a < i ==> (#[trigger] nodes[a].children).no_duplicates(),
                forall|x: int|
                    0 <= x < n && #[trigger] seen@[x] ==> (nodes[x].parent matches Some(p) && (p as int) < i
                        && nodes[p as int].children.contains(x as NodeId)),
            decreases n - i,
        {
            let kids = &self.nodes[i].children;
            let mut k: usize = 0;
            while k < kids.len()
                invariant
                    t == self@,
                    nodes == self@.nodes,
                    n == nodes.len(),
                    n <= u32::MAX + 1,
                    i < n,
                    *kids == self.nodes@[i as int].children,
                    k <= kids@.len(),
                    seen@.len() == n,
                    forall|a: int, k2: int|
                        0 <= a < i && 0 <= k2 < nodes[a].children.len() ==> (#[trigger] nodes[a].children[k2] as int)
                            < n && nodes[nodes[a].children[k2] as int].parent == Some(a as NodeId) && seen@[nodes[a].children[k2] as int],
                    forall|k2: int|
                        0 <= k2 < k ==> (#[trigger] kids@[k2] as int) < n && nodes[kids@[k2] as int].parent == Some(i as NodeId)
                            && seen@[kids@[k2] as int],
                    forall|a: int| 0 <= a < i ==> (#[trigger] nodes[a].children).no_duplicates(),
                    forall|k1: int, k2: int| 0 <= k1 < k2 < k ==> #[trigger] kids@[k1] != #[trigger] kids@[k2],
                    forall|x: int|
                        0 <= x < n && #[trigger] seen@[x] ==> (nodes[x].parent matches Some(p) && ((p as int) < i
                            && nodes[p as int].children.contains(x as NodeId) || p == i as NodeId && kids@.take(k as int).contains(x as NodeId))),
                decreases kids@.len() - k,
            {
                let ch = kids[k];
                if (ch as usize) >= n {
                    assert(!in_bounds(t)) by {
                        assert(nodes[i as int].children[k as int] == ch);
                    }
                    return false;
                }
                if self.nodes[ch as usize].parent != Some(i as NodeId) {
                    assert(!is_forest(t)) by {
                        assert(nodes[i as int].children[k as int] == ch);
                    }
                    return false;
                }
                if seen[ch as usize] {
                    assert(!nodes[i as int].children.no_duplicates()) by {
                        let x = ch as int;
                        assert(nodes[x].parent matches Some(p) && ((p as int) < i && nodes[p as int].children.contains(x as NodeId)
                            || p == i as NodeId && kids@.take(k as int).contains(x as NodeId)));
                        if kids@.take(k as int).contains(x as NodeId) {
                            let k1 = choose|k1: int| 0 <= k1 < k && kids@.take(k as int)[k1] == x as NodeId;
                            assert(kids@[k1] == kids@[k as int]);
                        } else {
                            let p = nodes[x].parent.unwrap();
                            assert(p == i as NodeId);
                        }
                    }
                    return false;
                }
                let ghost before = seen@;
                seen.set(ch as usize, true);
                assert(kids@.take(k + 1 as int) =~= kids@.take(k as int).push(ch));
                assert forall|x: int|
                    0 <= x < n && #[trigger] seen@[x] implies (nodes[x].parent matches Some(p) && ((p as int) < i
                        && nodes[p as int].children.contains(x as NodeId) || p == i as NodeId && kids@.take(k + 1 as int).contains(x as NodeId))) by {
                    if x == ch as int {
                        assert(kids@.take(k + 1 as int)[k as int] == ch);
                    } else {
                        assert(before[x]);
                        if kids@.take(k as int).contains(x as NodeId) {
                            let k1 = choose|k1: int| 0 <= k1 < k && kids@.take(k as int)[k1] == x as NodeId;
                            assert(kids@.take(k + 1 as int)[k1] == x as NodeId);
                        }
                    }
                }
                assert forall|k1: int, k2: int| 0 <= k1 < k2 < k + 1 implies #[trigger] kids@[k1] != #[trigger] kids@[k2] by {
                    if k2 == k {
                        assert(seen@[kids@[k1] as int]);
                        assert(!before[ch as int]);
                        assert(before[kids@[k1] as int]);
                    }
                }
                k += 1;
            }
            assert(kids@.take(kids@.len() as int) =~= kids@);
            assert(kids@.no_duplicates());
            assert forall|x: int|
                0 <= x < n && #[trigger] seen@[x] implies (nodes[x].parent matches Some(p) && (p as int) < i + 1
                    && nodes[p as int].children.contains(x as NodeId)) by {
                if nodes[x].parent == Some(i as NodeId) && kids@.take(kids@.len() as int).contains(x as NodeId) {
                    assert(nodes[i as int].children.contains(x as NodeId));
                }
            }
            i += 1;
        }
        // every node but the root is listed by its parent
        let mut j: usize = 0;
        while j < n
            invariant
                t == self@,
                nodes == self@.nodes,
                n == nodes.len(),
                j <= n,
                seen@.len() == n,
                (self.root as int) < n,
                n <= u32::MAX + 1,
                nodes[self.root as int].parent is None,
                forall|x: int|
                    0 <= x < n && #[trigger] seen@[x] ==> (nodes[x].parent matches Some(p) && (p as int) < n
                        && nodes[p as int].children.contains(x as NodeId)),
                forall|x: int| 0 <= x < j && x != self.root ==> #[trigger] seen@[x],
                forall|a: int, k: int|
                    0 <= a < n && 0 <= k < nodes[a].children.len() ==> (#[trigger] nodes[a].children[k] as int)
                        < n && nodes[nodes[a].children[k] as int].parent == Some(a as NodeId) && seen@[nodes[a].children[k] as int],
                forall|a: int| 0 <= a < n ==> (#[trigger] nodes[a].children).no_duplicates(),
            decreases n - j,
        {
            if j != self.root as usize && !seen[j] {
                assert(!wf(t)) by {
                    if wf(t) {
                        let ji = j as int;
                        assert(0 <= ji < t.nodes.len() && ji != t.root);
                        assert(match t.nodes[ji].parent {
                            Some(p) => t.nodes[p as int].children.contains(ji as NodeId),
                            None => false,
                        });
                        assert(ji as NodeId == j as NodeId);
                        let p = nodes[j as int].parent.unwrap();
                        if (p as int) < n {
                            let k = choose|k: int| 0 <= k < nodes[p as int].children.len() && nodes[p as int].children[k] == j as NodeId;
                            assert(seen@[nodes[p as int].children[k] as int]);
                            assert(nodes[p as int].children[k] as int == ji);
                            assert(seen@[ji]);
                            assert(!seen@[j as int]);
                        } else {
                            assert(chain_ok(nodes, j as int));
                            let e = choose|e: nat| e < nodes.len() && #[trigger] reaches_top(nodes, j as int, e);
                            assert(reaches_top(nodes, j as int, e));
                            assert(!reaches_top(nodes, p as int, (e - 1) as nat));
                        }
                    }
                }
                return false;
            }
            j += 1;
        }
        // every parent chain ends
        let mut m: usize = 0;
        while m < n
            invariant
                t == self@,
                nodes == self@.nodes,
                n == nodes.len(),
                m <= n,
                chains_end(nodes, m as int),
                n <= u32::MAX + 1,
                (self.root as int) < n,
                nodes[self.root as int].parent is None,
                seen@.len() == n,
                forall|x: int| 0 <= x < n && x != self.root ==> #[trigger] seen@[x],
                forall|x: int|
                    0 <= x < n && #[trigger] seen@[x] ==> (nodes[x].parent matches Some(p) && (p as int) < n
                        && nodes[p as int].children.contains(x as NodeId)),
                forall|a: int, k: int|
                    0 <= a < n && 0 <= k < nodes[a].children.len() ==> (#[trigger] nodes[a].children[k] as int)
                        < n && nodes[nodes[a].children[k] as int].parent == Some(a as NodeId) && seen@[nodes[a].children[k] as int],
                forall|a: int| 0 <= a < n ==> (#[trigger] nodes[a].children).no_duplicates(),
            decreases n - m,
        {
            if !self.chain_ends(m) {
                return false;
            }
            m += 1;
        }
        assert(in_bounds(t));
        assert(is_forest(t));
        assert forall|x: int| 0 <= x < nodes.len() && x != t.root implies match #[trigger] nodes[x].parent {
            Some(p) => nodes[p as int].children.contains(x as NodeId),
            None => false,
        } by {
            assert(seen@[x]);
        }
        true
    }
}

} // verus!
