//! Arena-based file tree shared by the scanner, the snapshot store and the UI.
//!
//! Nodes live in one vector and refer to each other by index (`NodeId`).
//! The mathematical model of a tree is its view: the sequence of node views
//! plus the root index and the three counters.
use vstd::prelude::*;
use crate::paths::{
    components, is_sep, push_component, push_component_exec, path_components, tok_text, toks_of,
    Component, Tok,
};
use crate::text::{chars_of, eq_ignore_ascii_case, eq_ignore_ascii_case_exec, string_from_chars};

verus! {

pub type NodeId = u32;

#[derive(Debug, Clone)]
pub struct Node {
    /// File or directory name. The root node stores the full root path.
    pub name: String,
    pub parent: Option<NodeId>,
    /// Files: byte length. Directories: sum of all descendants.
    pub size: u64,
    /// Modification time as unix seconds.
    pub mtime: i64,
    pub is_dir: bool,
    /// Sorted by size descending after a scan.
    pub children: Vec<NodeId>,
    /// Directory could not be read (access denied, etc.).
    pub error: bool,
}

/// What a node is, as mathematics: its name as characters, its children
/// as a sequence.
pub struct NodeView {
    pub name: Seq<char>,
    pub parent: Option<NodeId>,
    pub size: u64,
    pub mtime: i64,
    pub is_dir: bool,
    pub children: Seq<NodeId>,
    pub error: bool,
}

impl View for Node {
    type V = NodeView;

    open spec fn view(&self) -> NodeView {
        NodeView {
            name: self.name@,
            parent: self.parent,
            size: self.size,
            mtime: self.mtime,
            is_dir: self.is_dir,
            children: self.children@,
            error: self.error,
        }
    }
}

#[derive(Debug, Clone)]
pub struct Tree {
    pub nodes: Vec<Node>,
    pub root: NodeId,
    pub file_count: u64,
    pub dir_count: u64,
    pub error_count: u32,
}

/// What a tree is: the views of its nodes, the root and the counters.
pub struct TreeView {
    pub nodes: Seq<NodeView>,
    pub root: NodeId,
    pub file_count: u64,
    pub dir_count: u64,
    pub error_count: u32,
}

impl View for Tree {
    type V = TreeView;

    open spec fn view(&self) -> TreeView {
        TreeView {
            nodes: self.nodes@.map_values(|n: Node| n@),
            root: self.root,
            file_count: self.file_count,
            dir_count: self.dir_count,
            error_count: self.error_count,
        }
    }
}

impl Default for Tree {
    /// The empty tree: no nodes, root 0, all counters 0.
    fn default() -> (t: Tree)
        ensures
            t@.nodes.len() == 0,
            t@.root == 0,
            t@.file_count == 0,
            t@.dir_count == 0,
            t@.error_count == 0,
    {
        Tree { nodes: Vec::new(), root: 0, file_count: 0, dir_count: 0, error_count: 0 }
    }
}

// ---------------------------------------------------------------------------
// Parent chains
// ---------------------------------------------------------------------------

/// Following parents from `i`, a parentless node is reached in exactly `d`
/// steps, and every node on the way is in bounds.
pub open spec fn reaches_top(nodes: Seq<NodeView>, i: int, d: nat) -> bool
    decreases d,
{
    0 <= i < nodes.len() && match nodes[i].parent {
        None => d == 0,
        Some(p) => d > 0 && reaches_top(nodes, p as int, (d - 1) as nat),
    }
}

/// The parent chain of `i` ends (a chain that ends never visits a node
/// twice, so it is shorter than the arena).
pub open spec fn chain_ok(nodes: Seq<NodeView>, i: int) -> bool {
    exists|d: nat| d < nodes.len() && #[trigger] reaches_top(nodes, i, d)
}

/// Number of parent steps from `i` to the top of its chain.
pub open spec fn depth(nodes: Seq<NodeView>, i: int) -> nat {
    choose|d: nat| d < nodes.len() && #[trigger] reaches_top(nodes, i, d)
}

/// The chain of `d + 1` nodes that ends in `i`, from the top down.
pub open spec fn chain(nodes: Seq<NodeView>, i: int, d: nat) -> Seq<NodeId>
    decreases d,
{
    if d == 0 {
        seq![i as NodeId]
    } else {
        chain(nodes, nodes[i].parent.unwrap() as int, (d - 1) as nat).push(i as NodeId)
    }
}

/// Ancestors of `i` from the top of its chain down to `i` itself.
pub open spec fn ancestry(nodes: Seq<NodeView>, i: int) -> Seq<NodeId> {
    chain(nodes, i, depth(nodes, i))
}

/// A parent chain reaches the top in one number of steps only.
pub proof fn lemma_depth_unique(nodes: Seq<NodeView>, i: int, d1: nat, d2: nat)
    requires
        reaches_top(nodes, i, d1),
        reaches_top(nodes, i, d2),
    ensures
        d1 == d2,
    decreases d1,
{
    if d1 > 0 && d2 > 0 {
        lemma_depth_unique(nodes, nodes[i].parent.unwrap() as int, (d1 - 1) as nat, (d2 - 1) as nat);
    }
}

/// What an ending chain gives: the node exists and its depth fits.
pub proof fn lemma_chain_ok_bounds(nodes: Seq<NodeView>, i: int)
    requires
        chain_ok(nodes, i),
    ensures
        0 <= i < nodes.len(),
        depth(nodes, i) < nodes.len(),
        reaches_top(nodes, i, depth(nodes, i)),
        nodes[i].parent is None <==> depth(nodes, i) == 0,
{
}

/// A chain that ends in `d` steps has depth `d`.
pub proof fn lemma_depth(nodes: Seq<NodeView>, i: int, d: nat)
    requires
        d < nodes.len(),
        reaches_top(nodes, i, d),
    ensures
        chain_ok(nodes, i),
        depth(nodes, i) == d,
{
    assert(chain_ok(nodes, i));
    lemma_depth_unique(nodes, i, d, depth(nodes, i));
}

/// Stepping to the parent lowers the depth by one.
pub proof fn lemma_parent_depth(nodes: Seq<NodeView>, i: int)
    requires
        chain_ok(nodes, i),
        nodes[i].parent is Some,
    ensures
        0 <= i < nodes.len(),
        depth(nodes, i) > 0,
        chain_ok(nodes, nodes[i].parent.unwrap() as int),
        depth(nodes, nodes[i].parent.unwrap() as int) + 1 == depth(nodes, i),
        ancestry(nodes, i) == ancestry(nodes, nodes[i].parent.unwrap() as int).push(i as NodeId),
{
    let d = depth(nodes, i);
    let p = nodes[i].parent.unwrap() as int;
    lemma_depth(nodes, p, (d - 1) as nat);
}

/// The chain of `d` steps has `d + 1` nodes, ends in `i` and starts at a
/// parentless node.
pub proof fn lemma_chain_shape(nodes: Seq<NodeView>, i: int, d: nat)
    requires
        reaches_top(nodes, i, d),
        i <= u32::MAX,
    ensures
        chain(nodes, i, d).len() == d + 1,
        chain(nodes, i, d).last() == i as NodeId,
        nodes[chain(nodes, i, d)[0] as int].parent is None,
        forall|k: int| 0 <= k <= d ==> (#[trigger] chain(nodes, i, d)[k] as int) < nodes.len(),
    decreases d,
{
    if d > 0 {
        lemma_chain_shape(nodes, nodes[i].parent.unwrap() as int, (d - 1) as nat);
    }
}

/// The chain of an ancestor is the matching prefix of the chain.
pub proof fn lemma_chain_prefix(nodes: Seq<NodeView>, i: int, d: nat, k: nat)
    requires
        reaches_top(nodes, i, d),
        k <= d,
        i <= u32::MAX,
    ensures
        reaches_top(nodes, chain(nodes, i, d)[k as int] as int, k),
        chain(nodes, chain(nodes, i, d)[k as int] as int, k) == chain(nodes, i, d).take(k + 1 as int),
    decreases d,
{
    lemma_chain_shape(nodes, i, d);
    if k < d {
        let p = nodes[i].parent.unwrap() as int;
        lemma_chain_prefix(nodes, p, (d - 1) as nat, k);
        lemma_chain_shape(nodes, p, (d - 1) as nat);
        assert(chain(nodes, i, d)[k as int] == chain(nodes, p, (d - 1) as nat)[k as int]);
        assert(chain(nodes, p, (d - 1) as nat).take(k + 1 as int) =~= chain(nodes, i, d).take(k + 1 as int));
    } else {
        assert(chain(nodes, i, d).take(k + 1 as int) =~= chain(nodes, i, d));
    }
}

// ---------------------------------------------------------------------------
// Well-formedness
// ---------------------------------------------------------------------------

/// The root and every child reference point into the arena.
pub open spec fn in_bounds(t: TreeView) -> bool {
    &&& (t.root as int) < t.nodes.len()
    &&& forall|i: int, k: int|
        0 <= i < t.nodes.len() && 0 <= k < t.nodes[i].children.len() ==> (
        #[trigger] t.nodes[i].children[k] as int) < t.nodes.len()
}

/// Structure needed to walk the tree downwards: child links point back to
/// their parent, no child is listed twice, and every parent chain ends.
pub open spec fn is_forest(t: TreeView) -> bool {
    &&& in_bounds(t)
    &&& t.nodes.len() <= u32::MAX + 1
    &&& t.nodes[t.root as int].parent is None
    &&& forall|i: int, k: int|
        0 <= i < t.nodes.len() && 0 <= k < t.nodes[i].children.len() ==> t.nodes[#[trigger] t.nodes[i].children[k] as int].parent
            == Some(i as NodeId)
    &&& forall|i: int| 0 <= i < t.nodes.len() ==> (#[trigger] t.nodes[i].children).no_duplicates()
    &&& forall|i: int| 0 <= i < t.nodes.len() ==> #[trigger] chain_ok(t.nodes, i)
}

/// A well-formed tree: a forest in which every node but the root is listed
/// among its parent's children, so every node hangs below the root.
pub open spec fn wf(t: TreeView) -> bool {
    &&& is_forest(t)
    &&& forall|i: int|
        0 <= i < t.nodes.len() && i != t.root ==> match #[trigger] t.nodes[i].parent {
            Some(p) => t.nodes[p as int].children.contains(i as NodeId),
            None => false,
        }
}

/// Only directories have children.
pub open spec fn leafy(t: TreeView) -> bool {
    forall|i: int| 0 <= i < t.nodes.len() && !(#[trigger] t.nodes[i]).is_dir ==> t.nodes[i].children.len() == 0
}

// ---------------------------------------------------------------------------
// Paths
// ---------------------------------------------------------------------------

/// The names of the nodes `ids`.
pub open spec fn names_of(nodes: Seq<NodeView>, ids: Seq<NodeId>) -> Seq<Seq<char>> {
    ids.map_values(|a: NodeId| nodes[a as int].name)
}

/// `base` with each of `names` pushed on in turn.
pub open spec fn join_all(base: Seq<char>, names: Seq<Seq<char>>) -> Seq<char>
    decreases names.len(),
{
    if names.len() == 0 {
        base
    } else {
        push_component(join_all(base, names.drop_last()), names.last())
    }
}

/// Full path of a node: the root's name with the names of the node's
/// ancestors below the top, and its own, pushed on in order.
pub open spec fn node_path(t: TreeView, id: int) -> Seq<char> {
    join_all(t.nodes[t.root as int].name, names_of(t.nodes, ancestry(t.nodes, id).drop_first()))
}

/// The first of `kids` whose name equals `want` ignoring ASCII case.
pub open spec fn first_match(nodes: Seq<NodeView>, kids: Seq<NodeId>, want: Seq<char>) -> Option<NodeId>
    decreases kids.len(),
{
    if kids.len() == 0 {
        None
    } else if eq_ignore_ascii_case(nodes[kids[0] as int].name, want) {
        Some(kids[0])
    } else {
        first_match(nodes, kids.drop_first(), want)
    }
}

/// Descends from `cur` following the components in `rel` by name.
pub open spec fn walk(nodes: Seq<NodeView>, cur: NodeId, rel: Seq<Tok>) -> Option<NodeId>
    decreases rel.len(),
{
    if rel.len() == 0 {
        Some(cur)
    } else {
        match first_match(nodes, nodes[cur as int].children, tok_text(rel[0])) {
            Some(c) => walk(nodes, c, rel.drop_first()),
            None => None,
        }
    }
}

/// The node a component list names: the root's components must come first
/// (`Path::strip_prefix`), the rest are followed down from the root.
pub open spec fn lookup(t: TreeView, toks: Seq<Tok>) -> Option<NodeId> {
    let base = path_components(t.nodes[t.root as int].name);
    if base.len() <= toks.len() && toks.take(base.len() as int) == base {
        walk(t.nodes, t.root, toks.skip(base.len() as int))
    } else {
        None
    }
}

/// `lookup`, retried on ever shorter parents (`Path::parent` drops a last
/// named component); the root when nothing matches.
pub open spec fn resolve(t: TreeView, toks: Seq<Tok>) -> NodeId
    decreases toks.len(),
{
    match lookup(t, toks) {
        Some(id) => id,
        None => if toks.len() > 0 && toks.last() is Normal {
            resolve(t, toks.drop_last())
        } else {
            t.root
        },
    }
}

fn reversed(v: &Vec<NodeId>) -> (r: Vec<NodeId>)
    ensures
        r@ == v@.reverse(),
{
    let mut r: Vec<NodeId> = Vec::new();
    let mut k = v.len();
    while k > 0
        invariant
            k <= v@.len(),
            r@ == v@.subrange(k as int, v@.len() as int).reverse(),
        decreases k,
    {
        k -= 1;
        r.push(v[k]);
        assert(r@ =~= v@.subrange(k as int, v@.len() as int).reverse());
    }
    assert(v@.subrange(0, v@.len() as int) =~= v@);
    r
}

fn tok_eq(a: &Component, b: &Component) -> (r: bool)
    ensures
        r == (a@ == b@),
{
    match (a, b) {
        (Component::Disk(x), Component::Disk(y)) => *x == *y,
        (Component::RootDir, Component::RootDir) => true,
        (Component::Normal(x), Component::Normal(y)) => crate::text::chars_eq(x.as_slice(), y.as_slice()),
        _ => false,
    }
}

impl Tree {
    /// The node numbered `id`.
    pub fn node(&self, id: NodeId) -> (n: &Node)
        requires
            (id as int) < self@.nodes.len(),
        ensures
            *n == self.nodes@[id as int],
    {
        &self.nodes[id as usize]
    }

    /// A copy of the tree, equal to it.
    pub fn copy(&self) -> (t: Tree)
        ensures
            t@ == self@,
    {
        let mut nodes: Vec<Node> = Vec::new();
        let mut i: usize = 0;
        while i < self.nodes.len()
            invariant
                i <= self.nodes@.len(),
                nodes@.len() == i,
                forall|j: int| 0 <= j < i ==> #[trigger] nodes@[j]@ == self.nodes@[j]@,
            decreases self.nodes@.len() - i,
        {
            let n = &self.nodes[i];
            let mut children: Vec<NodeId> = Vec::new();
            let mut k: usize = 0;
            while k < n.children.len()
                invariant
                    k <= n.children@.len(),
                    children@ == n.children@.take(k as int),
                decreases n.children@.len() - k,
            {
                children.push(n.children[k]);
                k += 1;
                assert(children@ =~= n.children@.take(k as int));
            }
            assert(n.children@.take(n.children@.len() as int) =~= n.children@);
            nodes.push(
                Node {
                    name: n.name.clone(),
                    parent: n.parent,
                    size: n.size,
                    mtime: n.mtime,
                    is_dir: n.is_dir,
                    children,
                    error: n.error,
                },
            );
            i += 1;
        }
        let t = Tree {
            nodes,
            root: self.root,
            file_count: self.file_count,
            dir_count: self.dir_count,
            error_count: self.error_count,
        };
        assert(t@.nodes =~= self@.nodes);
        t
    }

    /// The root's name, which is the scanned root path.
    pub fn root_path(&self) -> (p: String)
        requires
            (self.root as int) < self@.nodes.len(),
        ensures
            p@ == self@.nodes[self.root as int].name,
    {
        self.nodes[self.root as usize].name.clone()
    }

    /// Size of the root, or 0 for an empty arena.
    pub fn total_size(&self) -> (s: u64)
        ensures
            s == (if (self.root as int) < self@.nodes.len() {
                self@.nodes[self.root as int].size
            } else {
                0
            }),
    {
        if (self.root as usize) < self.nodes.len() {
            self.nodes[self.root as usize].size
        } else {
            0
        }
    }

    /// Ancestors from the root down to (and including) `id`.
    pub fn ancestors(&self, id: NodeId) -> (r: Vec<NodeId>)
        requires
            chain_ok(self@.nodes, id as int),
        ensures
            r@ == ancestry(self@.nodes, id as int),
    {
        let ghost nodes = self@.nodes;
        let ghost full = ancestry(nodes, id as int);
        let mut up: Vec<NodeId> = Vec::new();
        let mut cur = id;
        loop
            invariant_except_break
                nodes == self@.nodes,
                chain_ok(nodes, cur as int),
                full == ancestry(nodes, cur as int) + up@.reverse(),
            ensures
                full == up@.reverse(),
            decreases depth(nodes, cur as int),
        {
            proof {
                lemma_chain_ok_bounds(nodes, cur as int);
            }
            assert(up@.push(cur).reverse() =~= seq![cur] + up@.reverse());
            match self.nodes[cur as usize].parent {
                Some(p) => {
                    proof {
                        lemma_parent_depth(nodes, cur as int);
                    }
                    up.push(cur);
                    assert(full =~= ancestry(nodes, p as int) + up@.reverse());
                    cur = p;
                },
                None => {
                    assert(depth(nodes, cur as int) == 0);
                    up.push(cur);
                    break;
                },
            }
        }
        reversed(&up)
    }

    /// Whether `ancestor` lies on the parent chain of `id` (or is `id`).
    pub fn is_descendant_of(&self, id: NodeId, ancestor: NodeId) -> (r: bool)
        requires
            chain_ok(self@.nodes, id as int),
        ensures
            r == ancestry(self@.nodes, id as int).contains(ancestor),
    {
        let ghost nodes = self@.nodes;
        let ghost full = ancestry(nodes, id as int);
        let ghost mut below: Seq<NodeId> = Seq::empty();
        let mut cur = id;
        loop
            invariant
                nodes == self@.nodes,
                full == ancestry(nodes, id as int),
                chain_ok(nodes, cur as int),
                full == ancestry(nodes, cur as int) + below,
                !below.contains(ancestor),
            decreases depth(nodes, cur as int),
        {
            proof {
                lemma_chain_ok_bounds(nodes, cur as int);
                lemma_chain_shape(nodes, cur as int, depth(nodes, cur as int));
            }
            if cur == ancestor {
                assert(full[depth(nodes, cur as int) as int] == ancestor);
                return true;
            }
            match self.nodes[cur as usize].parent {
                Some(p) => {
                    proof {
                        lemma_parent_depth(nodes, cur as int);
                        below = seq![cur] + below;
                        assert(full =~= ancestry(nodes, p as int) + below);
                    }
                    cur = p;
                },
                None => {
                    assert(ancestry(nodes, cur as int) =~= seq![cur]);
                    assert(!full.contains(ancestor)) by {
                        if full.contains(ancestor) {
                            let k = choose|k: int| 0 <= k < full.len() && full[k] == ancestor;
                            if k > 0 {
                                assert(below[k - 1] == ancestor);
                            }
                        }
                    }
                    return false;
                },
            }
        }
    }

    /// Full filesystem path of a node.
    pub fn path(&self, id: NodeId) -> (p: String)
        requires
            (self.root as int) < self@.nodes.len(),
            chain_ok(self@.nodes, id as int),
        ensures
            p@ == node_path(self@, id as int),
    {
        let ghost nodes = self@.nodes;
        let anc = self.ancestors(id);
        proof {
            lemma_chain_shape(nodes, id as int, depth(nodes, id as int));
        }
        let ghost names = names_of(nodes, anc@.drop_first());
        let ghost base = nodes[self.root as int].name;
        let mut buf = chars_of(self.nodes[self.root as usize].name.as_str());
        let mut j: usize = 1;
        while j < anc.len()
            invariant
                1 <= j <= anc@.len(),
                anc@ == ancestry(nodes, id as int),
                forall|k: int| 0 <= k < anc@.len() ==> (#[trigger] anc@[k] as int) < nodes.len(),
                nodes == self@.nodes,
                names == names_of(nodes, anc@.drop_first()),
                names.len() + 1 == anc@.len(),
                buf@ == join_all(base, names.take(j - 1)),
            decreases anc@.len() - j,
        {
            let name = chars_of(self.nodes[anc[j] as usize].name.as_str());
            assert(names.take(j as int).drop_last() =~= names.take(j - 1));
            assert(names[j - 1] == nodes[anc@[j as int] as int].name);
            push_component_exec(&mut buf, name.as_slice());
            j += 1;
        }
        assert(names.take(names.len() as int) =~= names);
        string_from_chars(buf.as_slice())
    }

    fn first_match_exec(&self, cur: NodeId, want: &[char]) -> (r: Option<NodeId>)
        requires
            in_bounds(self@),
            (cur as int) < self@.nodes.len(),
        ensures
            r == first_match(self@.nodes, self@.nodes[cur as int].children, want@),
            r matches Some(c) ==> (c as int) < self@.nodes.len(),
    {
        let ghost nodes = self@.nodes;
        let kids = &self.nodes[cur as usize].children;
        let mut k: usize = 0;
        assert(kids@.skip(0) =~= kids@);
        while k < kids.len()
            invariant
                in_bounds(self@),
                nodes == self@.nodes,
                (cur as int) < nodes.len(),
                *kids == self.nodes@[cur as int].children,
                k <= kids@.len(),
                first_match(nodes, kids@, want@) == first_match(nodes, kids@.skip(k as int), want@),
            decreases kids@.len() - k,
        {
            let c = kids[k];
            assert(kids@.skip(k as int).drop_first() =~= kids@.skip(k + 1 as int));
            assert(kids@.skip(k as int)[0] == c);
            let name = chars_of(self.nodes[c as usize].name.as_str());
            if eq_ignore_ascii_case_exec(name.as_slice(), want) {
                return Some(c);
            }
            k += 1;
        }
        None
    }

    fn walk_exec(&self, toks: &[Component], from: usize, upto: usize) -> (r: Option<NodeId>)
        requires
            in_bounds(self@),
            from <= upto <= toks@.len(),
        ensures
            r == walk(self@.nodes, self.root, toks_of(toks@).subrange(from as int, upto as int)),
    {
        let ghost nodes = self@.nodes;
        let ghost all = toks_of(toks@);
        let mut cur = self.root;
        let mut j = from;
        while j < upto
            invariant
                in_bounds(self@),
                nodes == self@.nodes,
                all == toks_of(toks@),
                from <= j <= upto <= toks@.len(),
                (cur as int) < nodes.len(),
                walk(nodes, self.root, all.subrange(from as int, upto as int)) == walk(
                    nodes,
                    cur,
                    all.subrange(j as int, upto as int),
                ),
            decreases upto - j,
        {
            let ghost rest = all.subrange(j as int, upto as int);
            assert(rest.drop_first() =~= all.subrange(j + 1 as int, upto as int));
            assert(rest[0] == toks@[j as int]@);
            let found = match &toks[j] {
                Component::Disk(c) => {
                    let want = vec![*c, ':'];
                    assert(want@ =~= tok_text(rest[0]));
                    self.first_match_exec(cur, want.as_slice())
                },
                Component::RootDir => {
                    let want = vec!['\\'];
                    assert(want@ =~= tok_text(rest[0]));
                    self.first_match_exec(cur, want.as_slice())
                },
                Component::Normal(v) => self.first_match_exec(cur, v.as_slice()),
            };
            match found {
                Some(c) => {
                    cur = c;
                },
                None => {
                    return None;
                },
            }
            j += 1;
        }
        Some(cur)
    }

    /// Looks up the first `upto` components of `toks`.
    fn lookup_exec(&self, base: &Vec<Component>, toks: &Vec<Component>, upto: usize) -> (r: Option<NodeId>)
        requires
            in_bounds(self@),
            upto <= toks@.len(),
            toks_of(base@) == path_components(self@.nodes[self.root as int].name),
        ensures
            r == lookup(self@, toks_of(toks@).take(upto as int)),
    {
        let ghost want = toks_of(toks@).take(upto as int);
        if base.len() > upto {
            return None;
        }
        let mut k: usize = 0;
        while k < base.len()
            invariant
                k <= base@.len() <= upto <= toks@.len(),
                want == toks_of(toks@).take(upto as int),
                toks_of(base@) == path_components(self@.nodes[self.root as int].name),
                forall|i: int| 0 <= i < k ==> base@[i]@ == toks@[i]@,
            decreases base@.len() - k,
        {
            if !tok_eq(&base[k], &toks[k]) {
                assert(want.take(base@.len() as int)[k as int] == toks@[k as int]@);
                assert(toks_of(base@)[k as int] == base@[k as int]@);
                assert(want.take(base@.len() as int) != toks_of(base@));
                return None;
            }
            k += 1;
        }
        assert(want.take(base@.len() as int) =~= toks_of(base@));
        assert(want.skip(base@.len() as int) =~= toks_of(toks@).subrange(base@.len() as int, upto as int));
        self.walk_exec(toks.as_slice(), base.len(), upto)
    }

    /// Resolve a full path back to a node. Component comparison is
    /// case-insensitive (Windows semantics).
    pub fn find_by_path(&self, path: &str) -> (r: Option<NodeId>)
        requires
            in_bounds(self@),
        ensures
            r == lookup(self@, path_components(path@)),
    {
        let base = components(chars_of(self.nodes[self.root as usize].name.as_str()).as_slice());
        let toks = components(chars_of(path).as_slice());
        assert(toks_of(toks@).take(toks@.len() as int) =~= toks_of(toks@));
        self.lookup_exec(&base, &toks, toks.len())
    }

    /// Like `find_by_path`, but falls back to the nearest existing ancestor
    /// and finally the root.
    pub fn resolve_nearest(&self, path: &str) -> (r: NodeId)
        requires
            in_bounds(self@),
        ensures
            r == resolve(self@, path_components(path@)),
    {
        let base = components(chars_of(self.nodes[self.root as usize].name.as_str()).as_slice());
        let toks = components(chars_of(path).as_slice());
        let ghost all = toks_of(toks@);
        let mut m = toks.len();
        assert(all.take(m as int) =~= all);
        loop
            invariant
                in_bounds(self@),
                m <= toks@.len(),
                all == toks_of(toks@),
                all == path_components(path@),
                toks_of(base@) == path_components(self@.nodes[self.root as int].name),
                resolve(self@, all) == resolve(self@, all.take(m as int)),
            decreases m,
        {
            match self.lookup_exec(&base, &toks, m) {
                Some(id) => {
                    return id;
                },
                None => {},
            }
            let named = m > 0 && match &toks[m - 1] {
                Component::Normal(_) => true,
                _ => false,
            };
            if named {
                assert(all.take(m as int).drop_last() =~= all.take(m - 1));
                assert(all.take(m as int).last() == toks@[m - 1]@);
                m -= 1;
            } else {
                assert(m > 0 ==> all.take(m as int).last() == toks@[m - 1]@);
                return self.root;
            }
        }
    }
}

} // verus!

verus! {

/// `humansize::format_size` with the `BINARY` options.
pub uninterp spec fn binary_size_text(bytes: u64) -> Seq<char>;

/// Human-readable size with binary units (`humansize::format_size` with
/// `BINARY`, e.g. "1 KiB"); the text depends on the byte count alone.
#[verifier::external_body]
pub fn fmt_size(bytes: u64) -> (s: String)
    ensures
        s@ == binary_size_text(bytes),
{
    humansize::format_size(bytes, humansize::BINARY)
}

/// Whole seconds from the Unix epoch to now, when the clock is not before
/// the epoch (`SystemTime::now().duration_since(UNIX_EPOCH)`, `as_secs`).
/// The value depends on the clock, so nothing is stated of it.
#[verifier::external_body]
fn clock_secs() -> (r: Option<u64>) {
    std::time::SystemTime::now().duration_since(std::time::UNIX_EPOCH).ok().map(|d| d.as_secs())
}

/// Unix seconds from a clock reading: the seconds read as a signed 64-bit
/// number, or 0 when the clock is before the epoch.
pub fn unix_secs(reading: Option<u64>) -> (r: i64)
    ensures
        r == match reading {
            Some(s) => crate::diff::to_i64(s),
            None => 0,
        },
{
    match reading {
        Some(s) => if s >= 0x8000_0000_0000_0000 {
            -((u64::MAX - s) as i64) - 1
        } else {
            s as i64
        },
        None => 0,
    }
}

/// Current time as unix seconds (0 if the clock is before the epoch).
pub fn now_unix() -> i64 {
    unix_secs(clock_secs())
}

} // verus!
