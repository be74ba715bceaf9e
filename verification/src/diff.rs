//! Comparing two scans of the same root.
use vstd::prelude::*;
use crate::model::{chain_ok, depth, in_bounds, is_forest, lemma_chain_ok_bounds, NodeId, NodeView, Tree, TreeView};
use crate::subtree::{below, below_list, below_of, count_kind, fuel_of, lemma_below_of, lemma_child, lemma_count_kind_total};
use crate::text::{chars_eq, chars_of};
use crate::sizes::{size_sum, sizes_add_up};

verus! {

#[derive(Debug, Clone, Copy, Default, PartialEq, Eq, Structural)]
pub struct DiffSummary {
    pub added: u64,
    pub removed: u64,
    pub changed: u64,
    pub delta_bytes: i64,
}

impl DiffSummary {
    /// Nothing was added, removed or changed.
    pub fn is_empty(&self) -> (r: bool)
        ensures
            r == (self.added == 0 && self.removed == 0 && self.changed == 0),
    {
        self.added == 0 && self.removed == 0 && self.changed == 0
    }
}

/// Exact counts of a comparison (before any wrap to 64 bits).
pub struct Diff {
    pub added: int,
    pub removed: int,
    pub changed: int,
    pub delta: int,
}

/// Nothing found.
pub open spec fn dz() -> Diff {
    Diff { added: 0, removed: 0, changed: 0, delta: 0 }
}

/// Two comparisons added up.
pub open spec fn dadd(a: Diff, b: Diff) -> Diff {
    Diff {
        added: a.added + b.added,
        removed: a.removed + b.removed,
        changed: a.changed + b.changed,
        delta: a.delta + b.delta,
    }
}

/// A node and everything below it (descending through directories).
pub open spec fn items(t: TreeView, id: int) -> int {
    below_of(t.nodes, id, false).len() + 1int
}

/// Index of the last of `kids` named exactly `name` (a name-keyed map
/// filled in order keeps the last one).
pub open spec fn last_named(nodes: Seq<NodeView>, kids: Seq<NodeId>, name: Seq<char>) -> Option<int>
    decreases kids.len(),
{
    if kids.len() == 0 {
        None
    } else if nodes[kids.last() as int].name == name {
        Some(kids.len() - 1)
    } else {
        last_named(nodes, kids.drop_last(), name)
    }
}

/// What one new child contributes: matched by name against the old
/// children, it is compared (directories recursively), or counted added.
pub open spec fn child_diff(old: TreeView, new: TreeView, okids: Seq<NodeId>, nc: NodeId, fuel: nat) -> Diff
    decreases fuel, 1nat, 0nat,
{
    let nn = new.nodes[nc as int];
    match last_named(old.nodes, okids, nn.name) {
        Some(j) => {
            let oc = okids[j];
            let on = old.nodes[oc as int];
            if nn.is_dir && on.is_dir {
                dir_diff(old, oc as int, new, nc as int, fuel)
            } else if nn.is_dir != on.is_dir {
                Diff {
                    added: items(new, nc as int),
                    removed: items(old, oc as int),
                    changed: 0,
                    delta: nn.size - on.size,
                }
            } else if nn.size != on.size || nn.mtime != on.mtime {
                Diff { added: 0, removed: 0, changed: 1, delta: nn.size - on.size }
            } else {
                dz()
            }
        },
        None => Diff { added: items(new, nc as int), removed: 0, changed: 0, delta: nn.size as int },
    }
}

/// Contributions of the new children `nkids`, in order.
pub open spec fn new_side(old: TreeView, new: TreeView, okids: Seq<NodeId>, nkids: Seq<NodeId>, fuel: nat) -> Diff
    decreases fuel, 2nat, nkids.len(),
{
    if nkids.len() == 0 {
        dz()
    } else {
        dadd(
            new_side(old, new, okids, nkids.drop_last(), fuel),
            child_diff(old, new, okids, nkids.last(), fuel),
        )
    }
}

/// Old child `i` was matched by some new child.
pub open spec fn is_seen(old: TreeView, new: TreeView, okids: Seq<NodeId>, nkids: Seq<NodeId>, i: int) -> bool {
    exists|k: int|
        0 <= k < nkids.len() && last_named(old.nodes, okids, new.nodes[#[trigger] nkids[k] as int].name) == Some(
            i,
        )
}

/// Old children (the first `upto`) that no new child matched count as
/// removed.
pub open spec fn old_side(old: TreeView, new: TreeView, okids: Seq<NodeId>, nkids: Seq<NodeId>, upto: int) -> Diff
    decreases upto,
{
    if upto <= 0 {
        dz()
    } else {
        let i = upto - 1;
        let oc = okids[i];
        dadd(
            old_side(old, new, okids, nkids, upto - 1),
            if is_seen(old, new, okids, nkids, i) {
                dz()
            } else {
                Diff { added: 0, removed: items(old, oc as int), changed: 0, delta: -(old.nodes[oc as int].size as int) }
            },
        )
    }
}

/// Comparison of directory `oid` of `old` with directory `nid` of `new`.
pub open spec fn dir_diff(old: TreeView, oid: int, new: TreeView, nid: int, fuel: nat) -> Diff
    decreases fuel, 0nat, 0nat,
{
    if fuel == 0 {
        dz()
    } else {
        let okids = old.nodes[oid].children;
        let nkids = new.nodes[nid].children;
        dadd(
            new_side(old, new, okids, nkids, (fuel - 1) as nat),
            old_side(old, new, okids, nkids, okids.len() as int),
        )
    }
}

/// Exact comparison of two trees of the same root; nothing when either is
/// empty.
pub open spec fn tree_diff(old: TreeView, new: TreeView) -> Diff {
    if old.nodes.len() == 0 || new.nodes.len() == 0 {
        dz()
    } else {
        dir_diff(old, old.root as int, new, new.root as int, fuel_of(old.nodes, old.root as int))
    }
}

/// `x` wrapped to 64 bits, as the release build's arithmetic does.
pub open spec fn m64(x: int) -> u64 {
    (x % 0x1_0000_0000_0000_0000) as u64
}

/// A 64-bit pattern read as a signed number.
pub open spec fn to_i64(x: u64) -> i64 {
    if x >= 0x8000_0000_0000_0000 {
        (x - 0x1_0000_0000_0000_0000) as i64
    } else {
        x as i64
    }
}

/// Running totals, each kept modulo 2^64.
struct Acc {
    added: u64,
    removed: u64,
    changed: u64,
    delta: u64,
}

spec fn acc_add(a: Acc, d: Diff) -> Acc {
    Acc {
        added: m64(a.added + d.added),
        removed: m64(a.removed + d.removed),
        changed: m64(a.changed + d.changed),
        delta: m64(a.delta + d.delta),
    }
}

proof fn lemma_m64(x: int, y: int)
    ensures
        m64(m64(x) + y) == m64(x + y),
{
    vstd::arithmetic::div_mod::lemma_add_mod_noop(x, y, 0x1_0000_0000_0000_0000);
    vstd::arithmetic::div_mod::lemma_mod_twice(x, 0x1_0000_0000_0000_0000);
    vstd::arithmetic::div_mod::lemma_add_mod_noop(x % 0x1_0000_0000_0000_0000, y, 0x1_0000_0000_0000_0000);
}

proof fn lemma_acc_add(a: Acc, d1: Diff, d2: Diff)
    ensures
        acc_add(acc_add(a, d1), d2) == acc_add(a, dadd(d1, d2)),
{
    lemma_m64(a.added + d1.added, d2.added);
    lemma_m64(a.removed + d1.removed, d2.removed);
    lemma_m64(a.changed + d1.changed, d2.changed);
    lemma_m64(a.delta + d1.delta, d2.delta);
    assert(a.added + d1.added + d2.added == a.added + (d1.added + d2.added));
}

proof fn lemma_m64_small(x: int)
    requires
        0 <= x < 0x1_0000_0000_0000_0000,
    ensures
        m64(x) == x,
{
    vstd::arithmetic::div_mod::lemma_small_mod(x as nat, 0x1_0000_0000_0000_0000);
}

proof fn lemma_acc_zero(a: Acc)
    ensures
        acc_add(a, dz()) == a,
{
    lemma_m64_small(a.added as int);
    lemma_m64_small(a.removed as int);
    lemma_m64_small(a.changed as int);
    lemma_m64_small(a.delta as int);
}

fn wrap_add(a: u64, b: u64) -> (r: u64)
    ensures
        r == m64(a + b),
{
    proof {
        if a + b < 0x1_0000_0000_0000_0000 {
            lemma_m64_small(a + b);
        } else {
            lemma_m64_small(a + b - 0x1_0000_0000_0000_0000);
            lemma_m64(a + b - 0x1_0000_0000_0000_0000, 0x1_0000_0000_0000_0000);
            vstd::arithmetic::div_mod::lemma_mod_self_0(0x1_0000_0000_0000_0000);
            lemma_m64(0x1_0000_0000_0000_0000, a + b - 0x1_0000_0000_0000_0000);
        }
    }
    a.wrapping_add(b)
}

fn wrap_sub(a: u64, b: u64) -> (r: u64)
    ensures
        r == m64(a - b),
{
    proof {
        if a - b >= 0 {
            lemma_m64_small(a - b);
        } else {
            lemma_m64_small(a - b + 0x1_0000_0000_0000_0000);
            vstd::arithmetic::div_mod::lemma_mod_self_0(0x1_0000_0000_0000_0000);
            lemma_m64(0x1_0000_0000_0000_0000, a - b);
            lemma_m64_small(0);
        }
    }
    a.wrapping_sub(b)
}

/// A node and everything below it (through directories).
fn subtree_items(tree: &Tree, id: NodeId) -> (r: u64)
    requires
        is_forest(tree@),
        (id as int) < tree@.nodes.len(),
    ensures
        r == items(tree@, id as int),
{
    let (f, d) = tree.count_items(id);
    proof {
        lemma_below_of(tree@, id as int, false);
        lemma_count_kind_total(tree@.nodes, below_of(tree@.nodes, id as int, false));
        crate::subtree::lemma_distinct_ids_bound(below_of(tree@.nodes, id as int, false), tree@.nodes.len() as int);
    }
    f + d + 1
}

fn last_named_exec(tree: &Tree, kids: &Vec<NodeId>, name: &[char]) -> (r: Option<usize>)
    requires
        forall|k: int| 0 <= k < kids@.len() ==> (#[trigger] kids@[k] as int) < tree@.nodes.len(),
    ensures
        r matches Some(j) ==> (j as int) < kids@.len() && last_named(tree@.nodes, kids@, name@) == Some(j as int),
        r is None ==> last_named(tree@.nodes, kids@, name@) is None,
{
    let mut k = kids.len();
    assert(kids@.take(k as int) =~= kids@);
    while k > 0
        invariant
            k <= kids@.len(),
            forall|j: int| 0 <= j < kids@.len() ==> (#[trigger] kids@[j] as int) < tree@.nodes.len(),
            last_named(tree@.nodes, kids@, name@) == last_named(tree@.nodes, kids@.take(k as int), name@),
        decreases k,
    {
        let c = kids[k - 1];
        let cname = chars_of(tree.nodes[c as usize].name.as_str());
        assert(kids@.take(k as int).last() == c);
        assert(kids@.take(k as int).drop_last() =~= kids@.take(k - 1));
        if chars_eq(cname.as_slice(), name) {
            return Some(k - 1);
        }
        k -= 1;
    }
    None
}

proof fn lemma_fuel_child(t: TreeView, i: int, c: NodeId, fuel: nat)
    requires
        is_forest(t),
        0 <= i < t.nodes.len(),
        t.nodes[i].children.contains(c),
        fuel == fuel_of(t.nodes, i),
    ensures
        (c as int) < t.nodes.len(),
        fuel >= 1,
        (fuel - 1) as nat == fuel_of(t.nodes, c as int),
{
    lemma_child(t, i, c);
}

fn diff_dir(old_tree: &Tree, oid: NodeId, new_tree: &Tree, nid: NodeId, acc: &mut Acc, Ghost(fuel): Ghost<nat>)
    requires
        is_forest(old_tree@),
        is_forest(new_tree@),
        (oid as int) < old_tree@.nodes.len(),
        (nid as int) < new_tree@.nodes.len(),
        fuel == fuel_of(old_tree@.nodes, oid as int),
    ensures
        *final(acc) == acc_add(*old(acc), dir_diff(old_tree@, oid as int, new_tree@, nid as int, fuel)),
    decreases fuel,
{
    let ghost o = old_tree@;
    let ghost n = new_tree@;
    let ghost start = *acc;
    proof {
        lemma_chain_ok_bounds(o.nodes, oid as int);
        assert(chain_ok(o.nodes, oid as int));
    }
    let okids = &old_tree.nodes[oid as usize].children;
    let nkids = &new_tree.nodes[nid as usize].children;
    let ghost ok = okids@;
    let ghost nk = nkids@;
    assert forall|k: int| 0 <= k < ok.len() implies (#[trigger] ok[k] as int) < o.nodes.len() by {
        assert(o.nodes[oid as int].children[k] == ok[k]);
    }
    let mut seen: Vec<bool> = vec![false; okids.len()];
    let mut k: usize = 0;
    proof {
        lemma_acc_zero(start);
    }
    while k < nkids.len()
        invariant
            o == old_tree@,
            n == new_tree@,
            is_forest(o),
            is_forest(n),
            (oid as int) < o.nodes.len(),
            (nid as int) < n.nodes.len(),
            fuel == fuel_of(o.nodes, oid as int),
            fuel >= 1,
            ok == okids@,
            ok == o.nodes[oid as int].children,
            nk == nkids@,
            nk == n.nodes[nid as int].children,
            forall|j: int| 0 <= j < ok.len() ==> (#[trigger] ok[j] as int) < o.nodes.len(),
            k <= nk.len(),
            seen@.len() == ok.len(),
            forall|i: int| 0 <= i < ok.len() ==> #[trigger] seen@[i] == is_seen(o, n, ok, nk.take(k as int), i),
            *acc == acc_add(start, new_side(o, n, ok, nk.take(k as int), (fuel - 1) as nat)),
        decreases nk.len() - k,
    {
        let nc = nkids[k];
        assert(n.nodes[nid as int].children.contains(nc)) by {
            assert(n.nodes[nid as int].children[k as int] == nc);
        }
        proof {
            crate::subtree::lemma_child(n, nid as int, nc);
        }
        let nn = &new_tree.nodes[nc as usize];
        let name = chars_of(nn.name.as_str());
        let ghost before = *acc;
        let ghost pre = nk.take(k as int);
        let ghost now = nk.take(k + 1 as int);
        assert(now.drop_last() =~= pre);
        assert(now.last() == nc);
        let ghost step = child_diff(o, n, ok, nc, (fuel - 1) as nat);
        let ghost seen_before = seen@;
        let ghost hit = last_named(o.nodes, ok, n.nodes[nc as int].name);
        assert(name@ == n.nodes[nc as int].name);
        assert(nn@ == n.nodes[nc as int]);
        match last_named_exec(old_tree, okids, name.as_slice()) {
            Some(j) => {
                seen.set(j, true);
                let oc = okids[j];
                assert(o.nodes[oid as int].children.contains(oc)) by {
                    assert(o.nodes[oid as int].children[j as int] == oc);
                }
                proof {
                    lemma_fuel_child(o, oid as int, oc, fuel);
                }
                let on = &old_tree.nodes[oc as usize];
                assert(on@ == o.nodes[oc as int]);
                assert(hit == Some(j as int));
                assert(seen@ == seen_before.update(j as int, true));
                if nn.is_dir && on.is_dir {
                    diff_dir(old_tree, oc, new_tree, nc, acc, Ghost((fuel - 1) as nat));
                    assert(step == dir_diff(o, oc as int, n, nc as int, (fuel - 1) as nat));
                } else if nn.is_dir != on.is_dir {
                    let ri = subtree_items(old_tree, oc);
                    let ai = subtree_items(new_tree, nc);
                    acc.removed = wrap_add(acc.removed, ri);
                    acc.added = wrap_add(acc.added, ai);
                    let d = wrap_add(acc.delta, nn.size);
                    acc.delta = wrap_sub(d, on.size);
                    proof {
                        lemma_m64(before.delta + nn.size, -(on.size as int));
                        lemma_m64_small(before.changed as int);
                    }
                } else if nn.size != on.size || nn.mtime != on.mtime {
                    acc.changed = wrap_add(acc.changed, 1);
                    let d = wrap_add(acc.delta, nn.size);
                    acc.delta = wrap_sub(d, on.size);
                    proof {
                        lemma_m64(before.delta + nn.size, -(on.size as int));
                        lemma_m64_small(before.added as int);
                        lemma_m64_small(before.removed as int);
                    }
                } else {
                    proof {
                        lemma_acc_zero(before);
                    }
                }
            },
            None => {
                assert(hit is None);
                let ai = subtree_items(new_tree, nc);
                acc.added = wrap_add(acc.added, ai);
                acc.delta = wrap_add(acc.delta, nn.size);
                proof {
                    lemma_m64_small(before.removed as int);
                    lemma_m64_small(before.changed as int);
                }
            },
        }
        proof {
            assert(*acc == acc_add(before, step));
            lemma_acc_add(start, new_side(o, n, ok, pre, (fuel - 1) as nat), step);
            assert forall|i: int| 0 <= i < ok.len() implies #[trigger] seen@[i] == is_seen(o, n, ok, now, i) by {
                if is_seen(o, n, ok, now, i) {
                    let q = choose|q: int| 0 <= q < now.len() && last_named(o.nodes, ok, n.nodes[#[trigger] now[q] as int].name) == Some(i);
                    if q < k {
                        assert(pre[q] == now[q]);
                        assert(is_seen(o, n, ok, pre, i));
                    }
                }
                if is_seen(o, n, ok, pre, i) {
                    let q = choose|q: int| 0 <= q < pre.len() && last_named(o.nodes, ok, n.nodes[#[trigger] pre[q] as int].name) == Some(i);
                    assert(now[q] == pre[q]);
                }
                if last_named(o.nodes, ok, name@) == Some(i) {
                    assert(now[k as int] == nc);
                }
            }
        }
        k += 1;
    }
    assert(nk.take(nk.len() as int) =~= nk);
    let ghost mid = *acc;
    let ghost ns = new_side(o, n, ok, nk, (fuel - 1) as nat);
    let mut i: usize = 0;
    proof {
        lemma_acc_zero(mid);
    }
    while i < okids.len()
        invariant
            o == old_tree@,
            n == new_tree@,
            is_forest(o),
            ok == okids@,
            (nid as int) < n.nodes.len(),
            nk == n.nodes[nid as int].children,
            forall|j: int| 0 <= j < ok.len() ==> (#[trigger] ok[j] as int) < o.nodes.len(),
            i <= ok.len(),
            seen@.len() == ok.len(),
            forall|j: int| 0 <= j < ok.len() ==> #[trigger] seen@[j] == is_seen(o, n, ok, nk, j),
            *acc == acc_add(mid, old_side(o, n, ok, nk, i as int)),
        decreases ok.len() - i,
    {
        let ghost before = *acc;
        let ghost step = if is_seen(o, n, ok, nk, i as int) {
            dz()
        } else {
            Diff { added: 0, removed: items(o, ok[i as int] as int), changed: 0, delta: -(o.nodes[ok[i as int] as int].size as int) }
        };
        if !seen[i] {
            let oc = okids[i];
            let ri = subtree_items(old_tree, oc);
            acc.removed = wrap_add(acc.removed, ri);
            acc.delta = wrap_sub(acc.delta, old_tree.nodes[oc as usize].size);
            proof {
                lemma_m64_small(before.added as int);
                lemma_m64_small(before.changed as int);
            }
        } else {
            proof {
                lemma_acc_zero(before);
            }
        }
        proof {
            assert(*acc == acc_add(before, step));
            lemma_acc_add(mid, old_side(o, n, ok, nk, i as int), step);
        }
        i += 1;
    }
    proof {
        lemma_acc_add(start, ns, old_side(o, n, ok, nk, ok.len() as int));
    }
}

/// Compare two trees of the same root. Counts files and directories that were
/// added, removed, or changed (size or mtime). The counts and the byte
/// delta wrap at 64 bits.
pub fn diff_summary(old_tree: &Tree, new_tree: &Tree) -> (s: DiffSummary)
    requires
        old_tree@.nodes.len() == 0 || new_tree@.nodes.len() == 0 || (is_forest(old_tree@) && is_forest(new_tree@)),
    ensures
        s.added == m64(tree_diff(old_tree@, new_tree@).added),
        s.removed == m64(tree_diff(old_tree@, new_tree@).removed),
        s.changed == m64(tree_diff(old_tree@, new_tree@).changed),
        s.delta_bytes == to_i64(m64(tree_diff(old_tree@, new_tree@).delta)),
{
    if old_tree.nodes.len() == 0 || new_tree.nodes.len() == 0 {
        proof {
            lemma_m64_small(0);
        }
        return DiffSummary { added: 0, removed: 0, changed: 0, delta_bytes: 0 };
    }
    let mut acc = Acc { added: 0, removed: 0, changed: 0, delta: 0 };
    proof {
        lemma_chain_ok_bounds(old_tree@.nodes, old_tree@.root as int);
        assert(chain_ok(old_tree@.nodes, old_tree@.root as int));
    }
    diff_dir(old_tree, old_tree.root, new_tree, new_tree.root, &mut acc, Ghost(fuel_of(old_tree@.nodes, old_tree@.root as int)));
    proof {
        lemma_m64_small(0);
        lemma_m64(0, tree_diff(old_tree@, new_tree@).added);
        lemma_m64(0, tree_diff(old_tree@, new_tree@).removed);
        lemma_m64(0, tree_diff(old_tree@, new_tree@).changed);
        lemma_m64(0, tree_diff(old_tree@, new_tree@).delta);
    }
    let delta_bytes: i64 = if acc.delta >= 0x8000_0000_0000_0000 {
        -((u64::MAX - acc.delta) as i64) - 1
    } else {
        acc.delta as i64
    };
    DiffSummary { added: acc.added, removed: acc.removed, changed: acc.changed, delta_bytes }
}

} // verus!

verus! {

/// No two children of a node carry the same name.
pub open spec fn unique_names(t: TreeView) -> bool {
    forall|i: int, a: int, b: int|
        0 <= i < t.nodes.len() && 0 <= a < b < t.nodes[i].children.len() ==> t.nodes[#[trigger] t.nodes[i].children[a] as int].name
            != t.nodes[#[trigger] t.nodes[i].children[b] as int].name
}

/// Among children with distinct names, a child's name finds that child.
proof fn lemma_last_named_own(nodes: Seq<NodeView>, kids: Seq<NodeId>, m: int)
    requires
        0 <= m < kids.len(),
        forall|a: int, b: int|
            0 <= a < b < kids.len() ==> nodes[#[trigger] kids[a] as int].name != nodes[#[trigger] kids[b] as int].name,
    ensures
        last_named(nodes, kids, nodes[kids[m] as int].name) == Some(m),
    decreases kids.len(),
{
    if m < kids.len() - 1 {
        assert(nodes[kids[m] as int].name != nodes[kids[kids.len() - 1] as int].name);
        let f = kids.drop_last();
        assert forall|a: int, b: int| 0 <= a < b < f.len() implies nodes[#[trigger] f[a] as int].name
            != nodes[#[trigger] f[b] as int].name by {
            assert(f[a] == kids[a] && f[b] == kids[b]);
        }
        lemma_last_named_own(nodes, f, m);
        assert(f[m] == kids[m]);
    }
}

proof fn lemma_new_side_same(t: TreeView, i: int, nkids: Seq<NodeId>, fuel: nat)
    requires
        unique_names(t),
        in_bounds(t),
        0 <= i < t.nodes.len(),
        nkids.len() <= t.nodes[i].children.len(),
        nkids == t.nodes[i].children.take(nkids.len() as int),
    ensures
        new_side(t, t, t.nodes[i].children, nkids, fuel) == dz(),
    decreases fuel, 1nat, nkids.len(),
{
    if nkids.len() > 0 {
        let kids = t.nodes[i].children;
        let m = nkids.len() - 1;
        let f = nkids.drop_last();
        assert(f =~= kids.take(m));
        lemma_new_side_same(t, i, f, fuel);
        let nc = nkids.last();
        assert(nc == kids[m]);
        assert((nc as int) < t.nodes.len());
        assert forall|a: int, b: int| 0 <= a < b < kids.len() implies t.nodes[#[trigger] kids[a] as int].name
            != t.nodes[#[trigger] kids[b] as int].name by {
            assert(t.nodes[i].children[a] == kids[a]);
        }
        lemma_last_named_own(t.nodes, kids, m);
        if t.nodes[nc as int].is_dir {
            lemma_dir_same(t, nc as int, fuel);
        }
        assert(child_diff(t, t, kids, nc, fuel) == dz());
        assert(new_side(t, t, kids, nkids, fuel) == dadd(new_side(t, t, kids, f, fuel), child_diff(t, t, kids, nc, fuel)));
    }
}

proof fn lemma_old_side_same(t: TreeView, i: int, upto: int)
    requires
        unique_names(t),
        in_bounds(t),
        0 <= i < t.nodes.len(),
        upto <= t.nodes[i].children.len(),
    ensures
        old_side(t, t, t.nodes[i].children, t.nodes[i].children, upto) == dz(),
    decreases upto,
{
    if upto > 0 {
        let kids = t.nodes[i].children;
        lemma_old_side_same(t, i, upto - 1);
        assert forall|a: int, b: int| 0 <= a < b < kids.len() implies t.nodes[#[trigger] kids[a] as int].name
            != t.nodes[#[trigger] kids[b] as int].name by {
            assert(t.nodes[i].children[a] == kids[a]);
        }
        lemma_last_named_own(t.nodes, kids, upto - 1);
        assert(is_seen(t, t, kids, kids, upto - 1));
    }
}

proof fn lemma_dir_same(t: TreeView, i: int, fuel: nat)
    requires
        unique_names(t),
        in_bounds(t),
        0 <= i < t.nodes.len(),
    ensures
        dir_diff(t, i, t, i, fuel) == dz(),
    decreases fuel, 0nat, 0nat,
{
    if fuel > 0 {
        let kids = t.nodes[i].children;
        assert(kids.take(kids.len() as int) =~= kids);
        lemma_new_side_same(t, i, kids, (fuel - 1) as nat);
        lemma_old_side_same(t, i, kids.len() as int);
    }
}

/// Comparing a tree with itself finds nothing added, removed or changed
/// and no change in bytes, when no two siblings share a name.
pub proof fn law_diff_self(t: TreeView)
    requires
        t.nodes.len() == 0 || in_bounds(t),
        unique_names(t),
    ensures
        tree_diff(t, t) == dz(),
{
    if t.nodes.len() > 0 {
        lemma_dir_same(t, t.root as int, fuel_of(t.nodes, t.root as int));
    }
}

} // verus!

verus! {

/// A name found by `last_named` is the name of the child it points at.
proof fn lemma_last_named_found(nodes: Seq<NodeView>, kids: Seq<NodeId>, name: Seq<char>)
    ensures
        last_named(nodes, kids, name) matches Some(j) ==> 0 <= j < kids.len() && nodes[kids[j] as int].name
            == name,
    decreases kids.len(),
{
    if kids.len() > 0 && nodes[kids.last() as int].name != name {
        lemma_last_named_found(nodes, kids.drop_last(), name);
        if let Some(j) = last_named(nodes, kids.drop_last(), name) {
            assert(kids.drop_last()[j] == kids[j]);
        }
    }
}

/// Sum of the sizes of those of the first `upto` of `kids` whose index
/// `sel` picks.
spec fn sel_sum(nodes: Seq<NodeView>, kids: Seq<NodeId>, sel: spec_fn(int) -> bool, upto: int) -> int
    decreases upto,
{
    if upto <= 0 {
        0
    } else {
        sel_sum(nodes, kids, sel, upto - 1) + (if sel(upto - 1) {
            nodes[kids[upto - 1] as int].size as int
        } else {
            0
        })
    }
}

spec fn seen_fn(old: TreeView, new: TreeView, okids: Seq<NodeId>, nkids: Seq<NodeId>) -> spec_fn(int) -> bool {
    |i: int| is_seen(old, new, okids, nkids, i)
}

spec fn unseen_fn(old: TreeView, new: TreeView, okids: Seq<NodeId>, nkids: Seq<NodeId>) -> spec_fn(int) -> bool {
    |i: int| !is_seen(old, new, okids, nkids, i)
}

/// What a new child's match weighs in the old tree (nothing if unmatched).
spec fn matched_size(old: TreeView, new: TreeView, okids: Seq<NodeId>, nc: NodeId) -> int {
    match last_named(old.nodes, okids, new.nodes[nc as int].name) {
        Some(j) => old.nodes[okids[j] as int].size as int,
        None => 0,
    }
}

spec fn matched_sum(old: TreeView, new: TreeView, okids: Seq<NodeId>, nkids: Seq<NodeId>) -> int
    decreases nkids.len(),
{
    if nkids.len() == 0 {
        0
    } else {
        matched_sum(old, new, okids, nkids.drop_last()) + matched_size(old, new, okids, nkids.last())
    }
}

proof fn lemma_sel_split(nodes: Seq<NodeView>, kids: Seq<NodeId>, sel: spec_fn(int) -> bool, neg: spec_fn(int) -> bool, upto: int)
    requires
        0 <= upto <= kids.len(),
        forall|i: int| 0 <= i < upto ==> #[trigger] neg(i) == !sel(i),
    ensures
        sel_sum(nodes, kids, sel, upto) + sel_sum(nodes, kids, neg, upto) == size_sum(nodes, kids.take(upto)),
    decreases upto,
{
    if upto > 0 {
        lemma_sel_split(nodes, kids, sel, neg, upto - 1);
        assert(kids.take(upto).drop_last() =~= kids.take(upto - 1));
        assert(kids.take(upto).last() == kids[upto - 1]);
    }
}

proof fn lemma_sel_flip(nodes: Seq<NodeView>, kids: Seq<NodeId>, a: spec_fn(int) -> bool, b: spec_fn(int) -> bool, i0: int, upto: int)
    requires
        0 <= upto,
        forall|i: int| 0 <= i < upto ==> #[trigger] a(i) == (b(i) || i == i0),
        0 <= i0 < upto ==> !b(i0),
    ensures
        sel_sum(nodes, kids, a, upto) == sel_sum(nodes, kids, b, upto) + (if 0 <= i0 < upto {
            nodes[kids[i0] as int].size as int
        } else {
            0
        }),
    decreases upto,
{
    if upto > 0 {
        lemma_sel_flip(nodes, kids, a, b, i0, upto - 1);
    }
}

/// The old children matched by the new ones weigh, together, what the
/// matches of the new ones weigh, when the new names are distinct.
proof fn lemma_matched_sum(old: TreeView, new: TreeView, okids: Seq<NodeId>, nkids: Seq<NodeId>)
    requires
        forall|a: int, b: int|
            0 <= a < b < nkids.len() ==> new.nodes[#[trigger] nkids[a] as int].name != new.nodes[#[trigger] nkids[b] as int].name,
    ensures
        matched_sum(old, new, okids, nkids) == sel_sum(old.nodes, okids, seen_fn(old, new, okids, nkids), okids.len() as int),
    decreases nkids.len(),
{
    let n = okids.len() as int;
    if nkids.len() == 0 {
        assert forall|i: int| 0 <= i < n implies !#[trigger] seen_fn(old, new, okids, nkids)(i) by {}
        lemma_sel_none(old.nodes, okids, seen_fn(old, new, okids, nkids), n);
    } else {
        let f = nkids.drop_last();
        let nc = nkids.last();
        assert forall|a: int, b: int| 0 <= a < b < f.len() implies new.nodes[#[trigger] f[a] as int].name != new.nodes[#[trigger] f[b] as int].name by {
            assert(f[a] == nkids[a] && f[b] == nkids[b]);
        }
        lemma_matched_sum(old, new, okids, f);
        let found = last_named(old.nodes, okids, new.nodes[nc as int].name);
        lemma_last_named_found(old.nodes, okids, new.nodes[nc as int].name);
        let i0 = match found {
            Some(j) => j,
            None => -1,
        };
        assert forall|i: int| 0 <= i < n implies #[trigger] seen_fn(old, new, okids, nkids)(i) == (seen_fn(old, new, okids, f)(i)
            || i == i0) by {
            if is_seen(old, new, okids, nkids, i) {
                let k = choose|k: int|
                    0 <= k < nkids.len() && last_named(old.nodes, okids, new.nodes[#[trigger] nkids[k] as int].name) == Some(i);
                if k < f.len() {
                    assert(f[k] == nkids[k]);
                    assert(is_seen(old, new, okids, f, i));
                } else {
                    assert(nkids[k] == nc);
                }
            }
            if is_seen(old, new, okids, f, i) {
                let k = choose|k: int|
                    0 <= k < f.len() && last_named(old.nodes, okids, new.nodes[#[trigger] f[k] as int].name) == Some(i);
                assert(nkids[k] == f[k]);
                assert(is_seen(old, new, okids, nkids, i));
            }
            if i == i0 {
                assert(nkids[nkids.len() - 1] == nc);
                assert(is_seen(old, new, okids, nkids, i));
            }
        }
        if 0 <= i0 {
            assert(!is_seen(old, new, okids, f, i0)) by {
                if is_seen(old, new, okids, f, i0) {
                    let k = choose|k: int|
                        0 <= k < f.len() && last_named(old.nodes, okids, new.nodes[#[trigger] f[k] as int].name) == Some(i0);
                    lemma_last_named_found(old.nodes, okids, new.nodes[f[k] as int].name);
                    assert(nkids[k] == f[k]);
                    assert(new.nodes[nkids[k] as int].name != new.nodes[nkids[nkids.len() - 1] as int].name);
                }
            }
        }
        lemma_sel_flip(old.nodes, okids, seen_fn(old, new, okids, nkids), seen_fn(old, new, okids, f), i0, n);
    }
}

proof fn lemma_sel_none(nodes: Seq<NodeView>, kids: Seq<NodeId>, sel: spec_fn(int) -> bool, upto: int)
    requires
        forall|i: int| 0 <= i < upto ==> !#[trigger] sel(i),
    ensures
        sel_sum(nodes, kids, sel, upto) == 0,
    decreases upto,
{
    if upto > 0 {
        lemma_sel_none(nodes, kids, sel, upto - 1);
    }
}

proof fn lemma_old_side_delta(old: TreeView, new: TreeView, okids: Seq<NodeId>, nkids: Seq<NodeId>, upto: int)
    requires
        0 <= upto,
    ensures
        old_side(old, new, okids, nkids, upto).delta == -sel_sum(old.nodes, okids, unseen_fn(old, new, okids, nkids), upto),
    decreases upto,
{
    if upto > 0 {
        lemma_old_side_delta(old, new, okids, nkids, upto - 1);
    }
}

proof fn lemma_new_side_delta(old: TreeView, new: TreeView, o: int, n: int, nkids: Seq<NodeId>, fuel: nat)
    requires
        is_forest(old),
        in_bounds(new),
        unique_names(new),
        sizes_add_up(old),
        sizes_add_up(new),
        0 <= o < old.nodes.len(),
        0 <= n < new.nodes.len(),
        fuel + 1 == fuel_of(old.nodes, o),
        nkids.len() <= new.nodes[n].children.len(),
        nkids == new.nodes[n].children.take(nkids.len() as int),
    ensures
        new_side(old, new, old.nodes[o].children, nkids, fuel).delta == size_sum(new.nodes, nkids) - matched_sum(
            old,
            new,
            old.nodes[o].children,
            nkids,
        ),
    decreases fuel, 1nat, nkids.len(),
{
    if nkids.len() > 0 {
        let okids = old.nodes[o].children;
        let f = nkids.drop_last();
        let m = nkids.len() - 1;
        assert(f =~= new.nodes[n].children.take(m));
        lemma_new_side_delta(old, new, o, n, f, fuel);
        let nc = nkids.last();
        assert(nc == new.nodes[n].children[m]);
        assert((nc as int) < new.nodes.len());
        let nn = new.nodes[nc as int];
        lemma_last_named_found(old.nodes, okids, nn.name);
        match last_named(old.nodes, okids, nn.name) {
            Some(j) => {
                let oc = okids[j];
                assert(old.nodes[o].children.contains(oc));
                lemma_fuel_child(old, o, oc, fuel + 1);
                let on = old.nodes[oc as int];
                if nn.is_dir && on.is_dir {
                    lemma_dir_delta(old, new, oc as int, nc as int, fuel);
                }
            },
            None => {},
        }
        assert(child_diff(old, new, okids, nc, fuel).delta == nn.size - matched_size(old, new, okids, nc));
    }
}

/// The net byte change of a directory comparison is the difference of the
/// directories' sizes.
proof fn lemma_dir_delta(old: TreeView, new: TreeView, o: int, n: int, fuel: nat)
    requires
        is_forest(old),
        in_bounds(new),
        unique_names(new),
        sizes_add_up(old),
        sizes_add_up(new),
        0 <= o < old.nodes.len(),
        0 <= n < new.nodes.len(),
        old.nodes[o].is_dir,
        new.nodes[n].is_dir,
        fuel == fuel_of(old.nodes, o),
    ensures
        dir_diff(old, o, new, n, fuel).delta == new.nodes[n].size - old.nodes[o].size,
    decreases fuel, 0nat, 0nat,
{
    lemma_chain_ok_bounds(old.nodes, o);
    assert(chain_ok(old.nodes, o));
    let okids = old.nodes[o].children;
    let nkids = new.nodes[n].children;
    assert(nkids.take(nkids.len() as int) =~= nkids);
    lemma_new_side_delta(old, new, o, n, nkids, (fuel - 1) as nat);
    assert forall|a: int, b: int| 0 <= a < b < nkids.len() implies new.nodes[#[trigger] nkids[a] as int].name
        != new.nodes[#[trigger] nkids[b] as int].name by {
        assert(new.nodes[n].children[a] == nkids[a]);
    }
    lemma_matched_sum(old, new, okids, nkids);
    lemma_old_side_delta(old, new, okids, nkids, okids.len() as int);
    assert forall|i: int| 0 <= i < okids.len() implies #[trigger] unseen_fn(old, new, okids, nkids)(i) == !seen_fn(old, new, okids, nkids)(i) by {}
    lemma_sel_split(old.nodes, okids, seen_fn(old, new, okids, nkids), unseen_fn(old, new, okids, nkids), okids.len() as int);
    assert(okids.take(okids.len() as int) =~= okids);
    assert(old.nodes[o] == old.nodes[o]);
    assert(new.nodes[n] == new.nodes[n]);
}

/// When directory sizes add up in both trees, both roots are directories
/// and no two children of a node of the new tree share a name, the net
/// byte change of a comparison is the new total less the old total.
pub proof fn law_diff_delta(old: TreeView, new: TreeView)
    requires
        is_forest(old),
        in_bounds(new),
        unique_names(new),
        sizes_add_up(old),
        sizes_add_up(new),
        old.nodes[old.root as int].is_dir,
        new.nodes[new.root as int].is_dir,
    ensures
        tree_diff(old, new).delta == new.nodes[new.root as int].size - old.nodes[old.root as int].size,
{
    lemma_dir_delta(old, new, old.root as int, new.root as int, fuel_of(old.nodes, old.root as int));
}

} // verus!

verus! {

/// A comparison seen from the other side: added and removed trade places
/// and the byte change flips sign.
pub open spec fn dswap(d: Diff) -> Diff {
    Diff { added: d.removed, removed: d.added, changed: d.changed, delta: -d.delta }
}

/// The values `f(i)` of the first `upto` indices that `sel` picks, added up.
spec fn dsum(f: spec_fn(int) -> Diff, sel: spec_fn(int) -> bool, upto: int) -> Diff
    decreases upto,
{
    if upto <= 0 {
        dz()
    } else {
        dadd(dsum(f, sel, upto - 1), if sel(upto - 1) { f(upto - 1) } else { dz() })
    }
}

proof fn lemma_dsum_split(f: spec_fn(int) -> Diff, all: spec_fn(int) -> bool, sel: spec_fn(int) -> bool, neg: spec_fn(int) -> bool, upto: int)
    requires
        forall|i: int| 0 <= i < upto ==> #[trigger] all(i) && neg(i) == !sel(i),
    ensures
        dsum(f, all, upto) == dadd(dsum(f, sel, upto), dsum(f, neg, upto)),
    decreases upto,
{
    if upto > 0 {
        lemma_dsum_split(f, all, sel, neg, upto - 1);
        assert(all(upto - 1));
    }
}

proof fn lemma_dsum_ext(f: spec_fn(int) -> Diff, g: spec_fn(int) -> Diff, s1: spec_fn(int) -> bool, s2: spec_fn(int) -> bool, upto: int)
    requires
        forall|i: int| 0 <= i < upto ==> #[trigger] s1(i) == s2(i) && (s1(i) ==> f(i) == g(i)),
    ensures
        dsum(f, s1, upto) == dsum(g, s2, upto),
    decreases upto,
{
    if upto > 0 {
        lemma_dsum_ext(f, g, s1, s2, upto - 1);
        assert(s1(upto - 1) == s2(upto - 1));
    }
}

proof fn lemma_dsum_swap(f: spec_fn(int) -> Diff, g: spec_fn(int) -> Diff, sel: spec_fn(int) -> bool, upto: int)
    requires
        forall|i: int| 0 <= i < upto && #[trigger] sel(i) ==> g(i) == dswap(f(i)),
    ensures
        dsum(g, sel, upto) == dswap(dsum(f, sel, upto)),
    decreases upto,
{
    if upto > 0 {
        lemma_dsum_swap(f, g, sel, upto - 1);
        if sel(upto - 1) {
            assert(g(upto - 1) == dswap(f(upto - 1)));
        }
    }
}

proof fn lemma_dsum_flip(f: spec_fn(int) -> Diff, a: spec_fn(int) -> bool, b: spec_fn(int) -> bool, i0: int, upto: int)
    requires
        0 <= upto,
        forall|i: int| 0 <= i < upto ==> #[trigger] a(i) == (b(i) || i == i0),
        0 <= i0 < upto ==> !b(i0),
    ensures
        dsum(f, a, upto) == dadd(dsum(f, b, upto), if 0 <= i0 < upto { f(i0) } else { dz() }),
    decreases upto,
{
    if upto > 0 {
        lemma_dsum_flip(f, a, b, i0, upto - 1);
        assert(a(upto - 1) == (b(upto - 1) || upto - 1 == i0));
    }
}

proof fn lemma_dsum_none(f: spec_fn(int) -> Diff, sel: spec_fn(int) -> bool, upto: int)
    requires
        forall|i: int| 0 <= i < upto ==> !#[trigger] sel(i),
    ensures
        dsum(f, sel, upto) == dz(),
    decreases upto,
{
    if upto > 0 {
        lemma_dsum_none(f, sel, upto - 1);
        assert(!sel(upto - 1));
    }
}

/// What an unmatched old child counts for.
spec fn gone(t: TreeView, c: NodeId) -> Diff {
    Diff { added: 0, removed: items(t, c as int), changed: 0, delta: -(t.nodes[c as int].size as int) }
}

proof fn lemma_new_side_dsum(old: TreeView, new: TreeView, okids: Seq<NodeId>, nkids: Seq<NodeId>, m: int, fuel: nat)
    requires
        0 <= m <= nkids.len(),
    ensures
        new_side(old, new, okids, nkids.take(m), fuel) == dsum(
            |j: int| child_diff(old, new, okids, nkids[j], fuel),
            |j: int| true,
            m,
        ),
    decreases m,
{
    if m > 0 {
        lemma_new_side_dsum(old, new, okids, nkids, m - 1, fuel);
        assert(nkids.take(m).drop_last() =~= nkids.take(m - 1));
        assert(nkids.take(m).last() == nkids[m - 1]);
    }
}

proof fn lemma_old_side_dsum(old: TreeView, new: TreeView, okids: Seq<NodeId>, nkids: Seq<NodeId>, upto: int)
    ensures
        old_side(old, new, okids, nkids, upto) == dsum(
            |i: int| gone(old, okids[i]),
            |i: int| !is_seen(old, new, okids, nkids, i),
            upto,
        ),
    decreases upto,
{
    if upto > 0 {
        lemma_old_side_dsum(old, new, okids, nkids, upto - 1);
    }
}

/// Children of one node with distinct names.
spec fn distinct_kids(t: TreeView, kids: Seq<NodeId>) -> bool {
    forall|a: int, b: int|
        0 <= a < b < kids.len() ==> t.nodes[#[trigger] kids[a] as int].name != t.nodes[#[trigger] kids[b] as int].name
}

/// Old child `i` is seen exactly when some new child carries its name.
proof fn lemma_seen_iff(old: TreeView, new: TreeView, okids: Seq<NodeId>, nkids: Seq<NodeId>, i: int)
    requires
        distinct_kids(old, okids),
        0 <= i < okids.len(),
    ensures
        is_seen(old, new, okids, nkids, i) <==> last_named(new.nodes, nkids, old.nodes[okids[i] as int].name) is Some,
{
    let name = old.nodes[okids[i] as int].name;
    lemma_last_named_found(new.nodes, nkids, name);
    if is_seen(old, new, okids, nkids, i) {
        let k = choose|k: int| 0 <= k < nkids.len() && last_named(old.nodes, okids, new.nodes[#[trigger] nkids[k] as int].name) == Some(i);
        lemma_last_named_found(old.nodes, okids, new.nodes[nkids[k] as int].name);
        lemma_last_named_none(new.nodes, nkids, name, k);
    }
    if let Some(k) = last_named(new.nodes, nkids, name) {
        lemma_last_named_own(old.nodes, okids, i);
        assert(last_named(old.nodes, okids, new.nodes[nkids[k] as int].name) == Some(i));
    }
}

/// A list holding a child of the wanted name finds one.
proof fn lemma_last_named_none(nodes: Seq<NodeView>, kids: Seq<NodeId>, name: Seq<char>, k: int)
    requires
        0 <= k < kids.len(),
        nodes[kids[k] as int].name == name,
    ensures
        last_named(nodes, kids, name) is Some,
    decreases kids.len(),
{
    if k < kids.len() - 1 && nodes[kids.last() as int].name != name {
        lemma_last_named_none(nodes, kids.drop_last(), name, k);
    }
}

/// The contributions of the matched new children, in their order, add up
/// to those of the matched pairs taken in the order of the old children.
proof fn lemma_matched_pairs(old: TreeView, new: TreeView, okids: Seq<NodeId>, nkids: Seq<NodeId>, m: int, fuel: nat)
    requires
        distinct_kids(new, nkids),
        0 <= m <= nkids.len(),
    ensures
        dsum(
            |j: int| child_diff(old, new, okids, nkids[j], fuel),
            |j: int| last_named(old.nodes, okids, new.nodes[nkids[j] as int].name) is Some,
            m,
        ) == dsum(
            |i: int| child_diff(old, new, okids, nkids[last_named(new.nodes, nkids, old.nodes[okids[i] as int].name).unwrap()], fuel),
            |i: int| is_seen(old, new, okids, nkids.take(m), i),
            okids.len() as int,
        ),
    decreases m,
{
    let f = |j: int| child_diff(old, new, okids, nkids[j], fuel);
    let mt = |j: int| last_named(old.nodes, okids, new.nodes[nkids[j] as int].name) is Some;
    let g = |i: int| child_diff(old, new, okids, nkids[last_named(new.nodes, nkids, old.nodes[okids[i] as int].name).unwrap()], fuel);
    let n = okids.len() as int;
    if m == 0 {
        let s0 = |i: int| is_seen(old, new, okids, nkids.take(0), i);
        assert forall|i: int| 0 <= i < n implies !#[trigger] s0(i) by {}
        lemma_dsum_none(g, s0, n);
    } else {
        lemma_matched_pairs(old, new, okids, nkids, m - 1, fuel);
        let pre = nkids.take(m - 1);
        let now = nkids.take(m);
        let nc = nkids[m - 1];
        let s_pre = |i: int| is_seen(old, new, okids, pre, i);
        let s_now = |i: int| is_seen(old, new, okids, now, i);
        let found = last_named(old.nodes, okids, new.nodes[nc as int].name);
        lemma_last_named_found(old.nodes, okids, new.nodes[nc as int].name);
        let i0 = match found {
            Some(j) => j,
            None => -1,
        };
        assert forall|i: int| 0 <= i < n implies #[trigger] s_now(i) == (s_pre(i) || i == i0) by {
            if is_seen(old, new, okids, now, i) {
                let k = choose|k: int| 0 <= k < now.len() && last_named(old.nodes, okids, new.nodes[#[trigger] now[k] as int].name) == Some(i);
                if k < m - 1 {
                    assert(pre[k] == now[k]);
                    assert(is_seen(old, new, okids, pre, i));
                } else {
                    assert(now[k] == nc);
                }
            }
            if is_seen(old, new, okids, pre, i) {
                let k = choose|k: int| 0 <= k < pre.len() && last_named(old.nodes, okids, new.nodes[#[trigger] pre[k] as int].name) == Some(i);
                assert(now[k] == pre[k]);
                assert(is_seen(old, new, okids, now, i));
            }
            if i == i0 {
                assert(now[m - 1] == nc);
                assert(is_seen(old, new, okids, now, i));
            }
        }
        if 0 <= i0 {
            assert(!s_pre(i0)) by {
                if is_seen(old, new, okids, pre, i0) {
                    let k = choose|k: int| 0 <= k < pre.len() && last_named(old.nodes, okids, new.nodes[#[trigger] pre[k] as int].name) == Some(i0);
                    lemma_last_named_found(old.nodes, okids, new.nodes[pre[k] as int].name);
                    assert(nkids[k] == pre[k]);
                    assert(new.nodes[nkids[k] as int].name != new.nodes[nkids[m - 1] as int].name);
                }
            }
            // the pair of old child `i0` is the new child `m - 1`
            lemma_last_named_own(new.nodes, nkids, m - 1);
            assert(g(i0) == f(m - 1));
        }
        lemma_dsum_flip(g, s_now, s_pre, i0, n);
    }
}

/// Comparing two folders one way is comparing them the other way with
/// added and removed exchanged and the byte change negated, when no two
/// children of a node share a name in either tree.
proof fn lemma_dir_swap(a: TreeView, b: TreeView, o: int, n: int, f1: nat, f2: nat)
    requires
        is_forest(a),
        is_forest(b),
        unique_names(a),
        unique_names(b),
        0 <= o < a.nodes.len(),
        0 <= n < b.nodes.len(),
        f1 == fuel_of(a.nodes, o),
        f2 == fuel_of(b.nodes, n),
    ensures
        dir_diff(a, o, b, n, f1) == dswap(dir_diff(b, n, a, o, f2)),
    decreases f1,
{
    lemma_chain_ok_bounds(a.nodes, o);
    assert(chain_ok(a.nodes, o));
    lemma_chain_ok_bounds(b.nodes, n);
    assert(chain_ok(b.nodes, n));
    let ok = a.nodes[o].children;
    let nk = b.nodes[n].children;
    let g1 = (f1 - 1) as nat;
    let g2 = (f2 - 1) as nat;
    assert(distinct_kids(a, ok)) by {
        assert forall|x: int, y: int| 0 <= x < y < ok.len() implies a.nodes[#[trigger] ok[x] as int].name != a.nodes[#[trigger] ok[y] as int].name by {
            assert(a.nodes[o].children[x] == ok[x]);
        }
    }
    assert(distinct_kids(b, nk)) by {
        assert forall|x: int, y: int| 0 <= x < y < nk.len() implies b.nodes[#[trigger] nk[x] as int].name != b.nodes[#[trigger] nk[y] as int].name by {
            assert(b.nodes[n].children[x] == nk[x]);
        }
    }
    let all = |i: int| true;
    let cdf = |j: int| child_diff(a, b, ok, nk[j], g1);
    let mt = |j: int| last_named(a.nodes, ok, b.nodes[nk[j] as int].name) is Some;
    let nmt = |j: int| !(last_named(a.nodes, ok, b.nodes[nk[j] as int].name) is Some);
    let cdb = |i: int| child_diff(b, a, nk, ok[i], g2);
    let sd = |i: int| is_seen(a, b, ok, nk, i);
    let nsd = |i: int| !is_seen(a, b, ok, nk, i);
    let gp = |i: int| child_diff(a, b, ok, nk[last_named(b.nodes, nk, a.nodes[ok[i] as int].name).unwrap()], g1);
    let rem_a = |i: int| gone(a, ok[i]);
    let rem_b = |j: int| gone(b, nk[j]);
    let unseen_ba = |j: int| !is_seen(b, a, nk, ok, j);
    // this side
    assert(nk.take(nk.len() as int) =~= nk);
    assert(ok.take(ok.len() as int) =~= ok);
    lemma_new_side_dsum(a, b, ok, nk, nk.len() as int, g1);
    lemma_old_side_dsum(a, b, ok, nk, ok.len() as int);
    lemma_dsum_split(cdf, all, mt, nmt, nk.len() as int);
    // the other side
    lemma_new_side_dsum(b, a, nk, ok, ok.len() as int, g2);
    lemma_old_side_dsum(b, a, nk, ok, nk.len() as int);
    lemma_dsum_split(cdb, all, sd, nsd, ok.len() as int);
    // matched pairs
    lemma_matched_pairs(a, b, ok, nk, nk.len() as int, g1);
    lemma_dsum_ext(gp, gp, |i: int| is_seen(a, b, ok, nk.take(nk.len() as int), i), sd, ok.len() as int);
    assert forall|i: int| 0 <= i < ok.len() && #[trigger] sd(i) implies gp(i) == dswap(cdb(i)) by {
        lemma_seen_iff(a, b, ok, nk, i);
        let oc = ok[i];
        let j = last_named(b.nodes, nk, a.nodes[oc as int].name).unwrap();
        lemma_last_named_found(b.nodes, nk, a.nodes[oc as int].name);
        let nc = nk[j];
        lemma_last_named_own(a.nodes, ok, i);
        assert(last_named(a.nodes, ok, b.nodes[nc as int].name) == Some(i));
        assert(a.nodes[o].children.contains(oc));
        assert(b.nodes[n].children.contains(nc));
        lemma_fuel_child(a, o, oc, f1);
        lemma_fuel_child(b, n, nc, f2);
        if a.nodes[oc as int].is_dir && b.nodes[nc as int].is_dir {
            lemma_dir_swap(a, b, oc as int, nc as int, g1, g2);
        }
    }
    lemma_dsum_swap(cdb, gp, sd, ok.len() as int);
    // old children nobody matched
    assert forall|i: int| 0 <= i < ok.len() && #[trigger] nsd(i) implies rem_a(i) == dswap(cdb(i)) by {
        lemma_seen_iff(a, b, ok, nk, i);
    }
    lemma_dsum_swap(cdb, rem_a, nsd, ok.len() as int);
    // new children nobody matched
    assert forall|j: int| 0 <= j < nk.len() implies #[trigger] unseen_ba(j) == nmt(j) && (unseen_ba(j) ==> cdf(j) == dswap(rem_b(j))) by {
        lemma_seen_iff(b, a, nk, ok, j);
        lemma_last_named_found(a.nodes, ok, b.nodes[nk[j] as int].name);
        if let Some(i) = last_named(a.nodes, ok, b.nodes[nk[j] as int].name) {
            lemma_last_named_none(b.nodes, nk, a.nodes[ok[i] as int].name, j);
        } else {
            lemma_last_named_own(b.nodes, nk, j);
        }
    }
    lemma_dsum_ext(cdf, |j: int| dswap(rem_b(j)), nmt, unseen_ba, nk.len() as int);
    lemma_dsum_swap(rem_b, |j: int| dswap(rem_b(j)), unseen_ba, nk.len() as int);
}

/// Comparing two trees one way is comparing them the other way with added
/// and removed exchanged and the byte change negated, when no two children
/// of a node share a name in either tree.
pub proof fn law_diff_swap(a: TreeView, b: TreeView)
    requires
        a.nodes.len() == 0 || is_forest(a),
        b.nodes.len() == 0 || is_forest(b),
        unique_names(a),
        unique_names(b),
    ensures
        tree_diff(a, b) == dswap(tree_diff(b, a)),
{
    if a.nodes.len() > 0 && b.nodes.len() > 0 {
        lemma_chain_ok_bounds(a.nodes, a.root as int);
        assert(chain_ok(a.nodes, a.root as int));
        lemma_chain_ok_bounds(b.nodes, b.root as int);
        assert(chain_ok(b.nodes, b.root as int));
        lemma_dir_swap(a, b, a.root as int, b.root as int, fuel_of(a.nodes, a.root as int), fuel_of(b.nodes, b.root as int));
    }
}

} // verus!

verus! {

/// The child of node `q` of `a` that a node `y` of another tree stands
/// for: the one of the same name (the last, as the comparison looks it up),
/// if it is of the same kind.
pub open spec fn child_like(a: TreeView, q: NodeId, y: NodeView) -> Option<NodeId> {
    let kids = a.nodes[q as int].children;
    match last_named(a.nodes, kids, y.name) {
        Some(j) => if a.nodes[kids[j] as int].is_dir == y.is_dir {
            Some(kids[j])
        } else {
            None
        },
        None => None,
    }
}

/// The node of `a` that node `x` of `b` stands for: the root for the root;
/// below it, the child of the parent's partner with the same name and of
/// the same kind; none where there is no such child, nor below it.
pub open spec fn partner(a: TreeView, b: TreeView, x: int) -> Option<NodeId>
    decreases depth(b.nodes, x),
    when chain_ok(b.nodes, x)
{
    match b.nodes[x].parent {
        None => if x == b.root as int {
            Some(a.root)
        } else {
            None
        },
        Some(p) => {
            proof {
                crate::model::lemma_parent_depth(b.nodes, x);
            }
            match partner(a, b, p as int) {
                Some(q) => child_like(a, q, b.nodes[x]),
                None => None,
            }
        },
    }
}

/// How many of the nodes `s` of `b` have no partner in `a`.
pub open spec fn count_unmatched(a: TreeView, b: TreeView, s: Seq<NodeId>) -> nat
    decreases s.len(),
{
    if s.len() == 0 {
        0
    } else {
        count_unmatched(a, b, s.drop_last()) + if partner(a, b, s.last() as int) is None { 1nat } else { 0nat }
    }
}

/// Whether node `x` of `b` is a file whose partner in `a`, also a file,
/// differs from it in size or time.
pub open spec fn changed_file(a: TreeView, b: TreeView, x: int) -> bool {
    match partner(a, b, x) {
        Some(y) => !b.nodes[x].is_dir && !a.nodes[y as int].is_dir && (b.nodes[x].size != a.nodes[y as int].size
            || b.nodes[x].mtime != a.nodes[y as int].mtime),
        None => false,
    }
}

/// How many of the nodes `s` of `b` are changed files.
pub open spec fn count_changed(a: TreeView, b: TreeView, s: Seq<NodeId>) -> nat
    decreases s.len(),
{
    if s.len() == 0 {
        0
    } else {
        count_changed(a, b, s.drop_last()) + if changed_file(a, b, s.last() as int) { 1nat } else { 0nat }
    }
}

proof fn lemma_counts_append(a: TreeView, b: TreeView, s: Seq<NodeId>, u: Seq<NodeId>)
    ensures
        count_unmatched(a, b, s + u) == count_unmatched(a, b, s) + count_unmatched(a, b, u),
        count_changed(a, b, s + u) == count_changed(a, b, s) + count_changed(a, b, u),
    decreases u.len(),
{
    if u.len() > 0 {
        lemma_counts_append(a, b, s, u.drop_last());
        assert((s + u).drop_last() =~= s + u.drop_last());
    } else {
        assert(s + u =~= s);
    }
}

proof fn lemma_counts_all_unmatched(a: TreeView, b: TreeView, s: Seq<NodeId>)
    requires
        forall|k: int| 0 <= k < s.len() ==> partner(a, b, #[trigger] s[k] as int) is None,
    ensures
        count_unmatched(a, b, s) == s.len(),
        count_changed(a, b, s) == 0,
    decreases s.len(),
{
    if s.len() > 0 {
        assert(partner(a, b, s[s.len() - 1] as int) is None);
        lemma_counts_all_unmatched(a, b, s.drop_last());
    }
}

proof fn lemma_counts_one(a: TreeView, b: TreeView, c: NodeId)
    ensures
        count_unmatched(a, b, seq![c]) == if partner(a, b, c as int) is None { 1nat } else { 0nat },
        count_changed(a, b, seq![c]) == if changed_file(a, b, c as int) { 1nat } else { 0nat },
{
    assert(seq![c].drop_last() =~= Seq::<NodeId>::empty());
    assert(seq![c].last() == c);
    assert(count_unmatched(a, b, seq![c].drop_last()) == 0);
    assert(count_changed(a, b, seq![c].drop_last()) == 0);
}

/// Below a node without a partner no node has one.
proof fn lemma_under_unmatched(a: TreeView, b: TreeView, c: int, x: int)
    requires
        is_forest(b),
        0 <= c < b.nodes.len(),
        0 <= x < b.nodes.len(),
        depth(b.nodes, x) >= depth(b.nodes, c),
        crate::model::ancestry(b.nodes, x)[depth(b.nodes, c) as int] == c as NodeId,
        partner(a, b, c) is None,
    ensures
        partner(a, b, x) is None,
    decreases depth(b.nodes, x),
{
    assert(chain_ok(b.nodes, x));
    assert(chain_ok(b.nodes, c));
    lemma_chain_ok_bounds(b.nodes, x);
    crate::model::lemma_chain_shape(b.nodes, x, depth(b.nodes, x));
    if depth(b.nodes, x) == depth(b.nodes, c) {
        assert(crate::model::ancestry(b.nodes, x).last() == x as NodeId);
    } else {
        let p = b.nodes[x].parent.unwrap() as int;
        crate::model::lemma_parent_depth(b.nodes, x);
        assert(crate::model::ancestry(b.nodes, x) == crate::model::ancestry(b.nodes, p).push(x as NodeId));
        lemma_chain_ok_bounds(b.nodes, p);
        crate::model::lemma_chain_shape(b.nodes, p, depth(b.nodes, p));
        lemma_under_unmatched(a, b, c, p);
    }
}

/// What one new child adds to the counts: its subtree, when it has no
/// partner; the comparison of the two folders, when both are folders; at
/// most the one changed file otherwise.
proof fn lemma_child_counts(a: TreeView, b: TreeView, o: int, n: int, c: NodeId, g1: nat)
    requires
        is_forest(a),
        is_forest(b),
        unique_names(a),
        crate::model::leafy(b),
        0 <= o < a.nodes.len(),
        0 <= n < b.nodes.len(),
        partner(a, b, n) == Some(o as NodeId),
        g1 + 1 == fuel_of(a.nodes, o),
        b.nodes[n].children.contains(c),
    ensures
        ({
            let s = seq![c] + below_of(b.nodes, c as int, true);
            &&& child_diff(a, b, a.nodes[o].children, c, g1).added == count_unmatched(a, b, s)
            &&& child_diff(a, b, a.nodes[o].children, c, g1).changed == count_changed(a, b, s)
        }),
    decreases g1, 1nat,
{
    let ok = a.nodes[o].children;
    let s = seq![c] + below_of(b.nodes, c as int, true);
    crate::subtree::lemma_child(b, n, c);
    assert(chain_ok(b.nodes, c as int));
    assert(b.nodes[c as int].parent == Some(n as NodeId));
    assert(partner(a, b, c as int) == child_like(a, o as NodeId, b.nodes[c as int]));
    lemma_counts_one(a, b, c);
    lemma_counts_append(a, b, seq![c], below_of(b.nodes, c as int, true));
    crate::subtree::lemma_below_of(b, c as int, true);
    crate::subtree::lemma_below_of(b, c as int, false);
    let bl = below_of(b.nodes, c as int, true);
    let fc = (fuel_of(b.nodes, c as int) - 1) as nat;
    let kc = b.nodes[c as int].children;
    assert forall|k: int| 0 <= k < kc.len() implies (#[trigger] kc[k] as int) < b.nodes.len() by {
        assert((b.nodes[c as int].children[k] as int) < b.nodes.len());
    }
    crate::counts::lemma_below_leafy(b, kc, fc);
    assert(below_of(b.nodes, c as int, false).len() == bl.len());
    if partner(a, b, c as int) is None {
        assert forall|k: int| 0 <= k < bl.len() implies partner(a, b, #[trigger] bl[k] as int) is None by {
            lemma_under_unmatched(a, b, c as int, bl[k] as int);
        }
        lemma_counts_all_unmatched(a, b, bl);
    }
    lemma_last_named_found(a.nodes, ok, b.nodes[c as int].name);
    match last_named(a.nodes, ok, b.nodes[c as int].name) {
        Some(j) => {
            let oc = ok[j];
            assert(a.nodes[o].children.contains(oc));
            lemma_fuel_child(a, o, oc, g1 + 1);
            if a.nodes[oc as int].is_dir && b.nodes[c as int].is_dir {
                assert(partner(a, b, c as int) == Some(oc));
                lemma_dir_counts(a, b, oc as int, c as int, g1);
            } else if a.nodes[oc as int].is_dir == b.nodes[c as int].is_dir {
                // two files: nothing lies below the new one
                assert(kc.len() == 0);
                assert(below_list(b.nodes, kc, true, fc) =~= Seq::<NodeId>::empty());
                assert(bl =~= Seq::<NodeId>::empty());
                assert(count_unmatched(a, b, Seq::<NodeId>::empty()) == 0);
                assert(count_changed(a, b, Seq::<NodeId>::empty()) == 0);
            }
        },
        None => {},
    }
}

proof fn lemma_new_side_counts(a: TreeView, b: TreeView, o: int, n: int, m: int, g1: nat)
    requires
        is_forest(a),
        is_forest(b),
        unique_names(a),
        crate::model::leafy(b),
        0 <= o < a.nodes.len(),
        0 <= n < b.nodes.len(),
        partner(a, b, n) == Some(o as NodeId),
        g1 + 1 == fuel_of(a.nodes, o),
        0 <= m <= b.nodes[n].children.len(),
    ensures
        ({
            let nk = b.nodes[n].children.take(m);
            let s = below_list(b.nodes, nk, true, (fuel_of(b.nodes, n) - 1) as nat);
            &&& new_side(a, b, a.nodes[o].children, nk, g1).added == count_unmatched(a, b, s)
            &&& new_side(a, b, a.nodes[o].children, nk, g1).changed == count_changed(a, b, s)
        }),
    decreases g1, 2nat, m,
{
    if m > 0 {
        let kids = b.nodes[n].children;
        let nk = kids.take(m);
        let fb = (fuel_of(b.nodes, n) - 1) as nat;
        lemma_new_side_counts(a, b, o, n, m - 1, g1);
        assert(nk.drop_last() =~= kids.take(m - 1));
        let c = kids[m - 1];
        assert(nk.last() == c);
        assert(b.nodes[n].children.contains(c));
        crate::subtree::lemma_child(b, n, c);
        lemma_child_counts(a, b, o, n, c, g1);
        assert(below(b.nodes, c as int, true, fb) == below_of(b.nodes, c as int, true));
        lemma_counts_append(a, b, below_list(b.nodes, kids.take(m - 1), true, fb), seq![c] + below_of(b.nodes, c as int, true));
        assert(below_list(b.nodes, nk, true, fb) =~= below_list(b.nodes, kids.take(m - 1), true, fb) + (seq![c]
            + below_of(b.nodes, c as int, true)));
    } else {
        assert(b.nodes[n].children.take(0) =~= Seq::<NodeId>::empty());
    }
}

proof fn lemma_old_side_counts(a: TreeView, b: TreeView, ok: Seq<NodeId>, nk: Seq<NodeId>, upto: int)
    ensures
        old_side(a, b, ok, nk, upto).added == 0,
        old_side(a, b, ok, nk, upto).changed == 0,
    decreases upto,
{
    if upto > 0 {
        lemma_old_side_counts(a, b, ok, nk, upto - 1);
    }
}

proof fn lemma_dir_counts(a: TreeView, b: TreeView, o: int, n: int, f1: nat)
    requires
        is_forest(a),
        is_forest(b),
        unique_names(a),
        crate::model::leafy(b),
        0 <= o < a.nodes.len(),
        0 <= n < b.nodes.len(),
        partner(a, b, n) == Some(o as NodeId),
        f1 == fuel_of(a.nodes, o),
    ensures
        dir_diff(a, o, b, n, f1).added == count_unmatched(a, b, below_of(b.nodes, n, true)),
        dir_diff(a, o, b, n, f1).changed == count_changed(a, b, below_of(b.nodes, n, true)),
    decreases f1, 0nat,
{
    lemma_chain_ok_bounds(a.nodes, o);
    assert(chain_ok(a.nodes, o));
    let kids = b.nodes[n].children;
    assert(kids.take(kids.len() as int) =~= kids);
    lemma_new_side_counts(a, b, o, n, kids.len() as int, (f1 - 1) as nat);
    lemma_old_side_counts(a, b, a.nodes[o].children, kids, a.nodes[o].children.len() as int);
    crate::subtree::lemma_below_of(b, n, true);
}

/// What a comparison counts, stated on the nodes themselves: a node of
/// the new tree, other than the root, is added when it has no partner in
/// the old tree (see `partner`), and counts as changed when it and its
/// partner are files that differ in size or time; a node of the old tree is
/// removed when it has no partner in the new tree. This holds when only
/// folders have children and no two children of a node share a name, in
/// both trees.
pub proof fn law_diff_counts(a: TreeView, b: TreeView)
    requires
        is_forest(a),
        is_forest(b),
        unique_names(a),
        unique_names(b),
        crate::model::leafy(a),
        crate::model::leafy(b),
    ensures
        tree_diff(a, b).added == count_unmatched(a, b, below_of(b.nodes, b.root as int, true)),
        tree_diff(a, b).changed == count_changed(a, b, below_of(b.nodes, b.root as int, true)),
        tree_diff(a, b).removed == count_unmatched(b, a, below_of(a.nodes, a.root as int, true)),
{
    lemma_chain_ok_bounds(a.nodes, a.root as int);
    assert(chain_ok(a.nodes, a.root as int));
    lemma_chain_ok_bounds(b.nodes, b.root as int);
    assert(chain_ok(b.nodes, b.root as int));
    assert(partner(a, b, b.root as int) == Some(a.root));
    assert(partner(b, a, a.root as int) == Some(b.root));
    lemma_dir_counts(a, b, a.root as int, b.root as int, fuel_of(a.nodes, a.root as int));
    lemma_dir_counts(b, a, b.root as int, a.root as int, fuel_of(b.nodes, b.root as int));
    law_diff_swap(a, b);
}

} // verus!
