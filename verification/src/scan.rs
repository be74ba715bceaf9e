//! Turning the result of a directory walk into a tree arena.
use vstd::prelude::*;
use crate::model::{chain_ok, leafy, reaches_top, wf, Node, NodeId, NodeView, Tree, TreeView};
use crate::edit::{children_in_bounds, children_sorted, lemma_sorted_wf};
use crate::sizes::{law_sorted_sizes, lemma_sum_append, size_sum, sizes_add_up};

verus! {

/// One file as read from disk.
pub struct FileEntry {
    pub name: String,
    pub size: u64,
    pub mtime: i64,
}

/// One directory as read from disk, with everything below it.
pub struct DirResult {
    pub name: String,
    pub mtime: i64,
    pub error: bool,
    pub size: u64,
    pub files: Vec<FileEntry>,
    pub subdirs: Vec<DirResult>,
}

/// Nodes a directory turns into: itself, its files, and its subdirectories'.
pub open spec fn dir_nodes(d: DirResult) -> nat
    decreases d, 0nat,
{
    1 + d.files@.len() + subs_nodes(d.subdirs@)
}

/// Nodes of a list of walked directories.
pub open spec fn subs_nodes(s: Seq<DirResult>) -> nat
    decreases s, 1nat,
{
    if s.len() == 0 {
        0
    } else {
        subs_nodes(s.subrange(0, s.len() - 1)) + dir_nodes(s[s.len() - 1])
    }
}

} // verus!

verus! {

/// Directories in a walk result, itself included.
pub open spec fn dirs_in(d: DirResult) -> nat
    decreases d, 0nat,
{
    1 + subs_dirs(d.subdirs@)
}

/// Directories of a list of walked directories.
pub open spec fn subs_dirs(s: Seq<DirResult>) -> nat
    decreases s, 1nat,
{
    if s.len() == 0 {
        0
    } else {
        subs_dirs(s.subrange(0, s.len() - 1)) + dirs_in(s[s.len() - 1])
    }
}

/// Files in a walk result.
pub open spec fn files_in(d: DirResult) -> nat
    decreases d, 0nat,
{
    d.files@.len() + subs_files(d.subdirs@)
}

/// Files of a list of walked directories.
pub open spec fn subs_files(s: Seq<DirResult>) -> nat
    decreases s, 1nat,
{
    if s.len() == 0 {
        0
    } else {
        subs_files(s.subrange(0, s.len() - 1)) + files_in(s[s.len() - 1])
    }
}

/// Unreadable directories in a walk result.
pub open spec fn errors_in(d: DirResult) -> nat
    decreases d, 0nat,
{
    (if d.error { 1nat } else { 0nat }) + subs_errors(d.subdirs@)
}

/// Unreadable directories of a list of walked directories.
pub open spec fn subs_errors(s: Seq<DirResult>) -> nat
    decreases s, 1nat,
{
    if s.len() == 0 {
        0
    } else {
        subs_errors(s.subrange(0, s.len() - 1)) + errors_in(s[s.len() - 1])
    }
}

/// Node `i` holds file `f` under `parent`.
pub open spec fn holds_file(nodes: Seq<NodeView>, i: int, parent: int, f: FileEntry) -> bool {
    let n = nodes[i];
    &&& n.name == f.name@
    &&& n.parent == Some(parent as NodeId)
    &&& n.size == f.size
    &&& n.mtime == f.mtime
    &&& !n.is_dir
    &&& n.children.len() == 0
    &&& !n.error
}

/// Node `id` holds directory `d` under `parent`: the directory's own fields,
/// then its files as the next nodes in order, then the block of each
/// subdirectory in turn (depth-first preorder); the directory's children are
/// the file nodes followed by the subdirectory nodes.
pub open spec fn holds_dir(nodes: Seq<NodeView>, id: int, parent: Option<NodeId>, d: DirResult) -> bool
    decreases d, 0nat,
{
    let n = nodes[id];
    let nf = d.files@.len();
    &&& 0 <= id
    &&& id + dir_nodes(d) <= nodes.len()
    &&& n.name == d.name@
    &&& n.parent == parent
    &&& n.size == d.size
    &&& n.mtime == d.mtime
    &&& n.is_dir
    &&& n.error == d.error
    &&& n.children.len() == nf + d.subdirs@.len()
    &&& forall|k: int| 0 <= k < nf ==> #[trigger] file_at(nodes, id, k, d)
    &&& holds_subs(nodes, id, id + 1 + nf, n.children.skip(nf as int), d.subdirs@)
}

/// The `k`-th file of `d` sits right after directory node `id`'s files
/// before it, and is its `k`-th child.
pub open spec fn file_at(nodes: Seq<NodeView>, id: int, k: int, d: DirResult) -> bool {
    nodes[id].children[k] == (id + 1 + k) as NodeId && holds_file(nodes, id + 1 + k, id, d.files@[k])
}

/// `kids` are the nodes of the blocks of `s`, laid out from `start`.
pub open spec fn holds_subs(nodes: Seq<NodeView>, parent: int, start: int, kids: Seq<NodeId>, s: Seq<DirResult>) -> bool
    decreases s, 1nat,
{
    if s.len() == 0 {
        kids.len() == 0
    } else {
        let front = s.subrange(0, s.len() - 1);
        let at = start + subs_nodes(front);
        &&& kids.len() == s.len()
        &&& holds_subs(nodes, parent, start, kids.subrange(0, kids.len() - 1), front)
        &&& kids[kids.len() - 1] == at as NodeId
        &&& holds_dir(nodes, at, Some(parent as NodeId), s[s.len() - 1])
    }
}

} // verus!

verus! {

proof fn lemma_holds_frame(a: Seq<NodeView>, b: Seq<NodeView>, id: int, parent: Option<NodeId>, d: DirResult)
    requires
        0 <= id,
        id + dir_nodes(d) <= a.len(),
        id + dir_nodes(d) <= b.len(),
        forall|j: int| id <= j < id + dir_nodes(d) ==> #[trigger] a[j] == b[j],
        holds_dir(a, id, parent, d),
    ensures
        holds_dir(b, id, parent, d),
    decreases d, 0nat,
{
    let nf = d.files@.len();
    assert(a[id] == b[id]);
    assert(dir_nodes(d) == 1 + nf + subs_nodes(d.subdirs@));
    assert forall|k: int| 0 <= k < nf implies #[trigger] file_at(b, id, k, d) by {
        assert(a[id + 1 + k] == b[id + 1 + k]);
        assert(file_at(a, id, k, d));
    }
    lemma_subs_frame(a, b, id, id + 1 + nf, a[id].children.skip(nf as int), d.subdirs@);
}

proof fn lemma_subs_frame(a: Seq<NodeView>, b: Seq<NodeView>, parent: int, start: int, kids: Seq<NodeId>, s: Seq<DirResult>)
    requires
        0 <= start,
        start + subs_nodes(s) <= a.len(),
        start + subs_nodes(s) <= b.len(),
        forall|j: int| start <= j < start + subs_nodes(s) ==> #[trigger] a[j] == b[j],
        holds_subs(a, parent, start, kids, s),
    ensures
        holds_subs(b, parent, start, kids, s),
    decreases s, 1nat,
{
    if s.len() > 0 {
        let front = s.subrange(0, s.len() - 1);
        let at = start + subs_nodes(front);
        lemma_subs_frame(a, b, parent, start, kids.subrange(0, kids.len() - 1), front);
        lemma_holds_frame(a, b, at, Some(parent as NodeId), s[s.len() - 1]);
    }
}

/// Appends directory `d` and everything below it to the arena in preorder,
/// under `parent`, and counts its files, directories and unreadable
/// directories.
#[verifier::spinoff_prover]
fn flatten(tree: &mut Tree, d: &DirResult, parent: Option<NodeId>) -> (id: NodeId)
    requires
        old(tree)@.nodes.len() + dir_nodes(*d) <= u32::MAX,
        old(tree).file_count + files_in(*d) <= u64::MAX,
        old(tree).dir_count + dirs_in(*d) <= u64::MAX,
        old(tree).error_count + errors_in(*d) <= u32::MAX,
    ensures
        id as int == old(tree)@.nodes.len(),
        final(tree)@.nodes.len() == old(tree)@.nodes.len() + dir_nodes(*d),
        forall|j: int| 0 <= j < old(tree)@.nodes.len() ==> #[trigger] final(tree)@.nodes[j] == old(tree)@.nodes[j],
        holds_dir(final(tree)@.nodes, id as int, parent, *d),
        final(tree).file_count == old(tree).file_count + files_in(*d),
        final(tree).dir_count == old(tree).dir_count + dirs_in(*d),
        final(tree).error_count == old(tree).error_count + errors_in(*d),
        final(tree).root == old(tree).root,
    decreases d,
{
    let ghost t0 = tree@;
    let ghost dd = *d;
    let ghost fs = d.files@;
    let ghost ss = d.subdirs@;
    let id = tree.nodes.len() as NodeId;
    let nf = d.files.len();
    tree.nodes.push(
        Node {
            name: d.name.clone(),
            parent,
            size: d.size,
            mtime: d.mtime,
            is_dir: true,
            children: Vec::new(),
            error: d.error,
        },
    );
    tree.dir_count = tree.dir_count + 1;
    if d.error {
        tree.error_count = tree.error_count + 1;
    }
    let mut children: Vec<NodeId> = Vec::new();
    let mut k: usize = 0;
    while k < nf
        invariant
            dd == *d,
            fs == d.files@,
            nf == fs.len(),
            k <= nf,
            id as int == t0.nodes.len(),
            tree@.nodes.len() == t0.nodes.len() + 1 + k,
            t0.nodes.len() + dir_nodes(dd) <= u32::MAX,
            dir_nodes(dd) == 1 + nf + subs_nodes(ss),
            ss == d.subdirs@,
            forall|j: int| 0 <= j < t0.nodes.len() ==> #[trigger] tree@.nodes[j] == t0.nodes[j],
            tree@.nodes[id as int].name == dd.name@,
            tree@.nodes[id as int].parent == parent,
            tree@.nodes[id as int].size == dd.size,
            tree@.nodes[id as int].mtime == dd.mtime,
            tree@.nodes[id as int].is_dir,
            tree@.nodes[id as int].error == dd.error,
            children@.len() == k,
            forall|j: int| 0 <= j < k ==> #[trigger] children@[j] == (id + 1 + j) as NodeId && holds_file(tree@.nodes, id + 1 + j, id as int, fs[j]),
            tree.file_count == t0.file_count + k,
            tree.dir_count == t0.dir_count + 1,
            tree.error_count == t0.error_count + (if dd.error { 1nat } else { 0nat }),
            tree.root == t0.root,
            t0.file_count + files_in(dd) <= u64::MAX,
            files_in(dd) == nf + subs_files(ss),
        decreases nf - k,
    {
        let f = &d.files[k];
        assert(tree@.nodes.len() == tree.nodes@.len());
        let fid = tree.nodes.len() as NodeId;
        assert(fid as int == id + 1 + k);
        let ghost before = tree@.nodes;
        let ghost before_children = children@;
        tree.nodes.push(
            Node {
                name: f.name.clone(),
                parent: Some(id),
                size: f.size,
                mtime: f.mtime,
                is_dir: false,
                children: Vec::new(),
                error: false,
            },
        );
        tree.file_count = tree.file_count + 1;
        children.push(fid);
        assert forall|i: int| 0 <= i < t0.nodes.len() implies #[trigger] tree@.nodes[i] == t0.nodes[i] by {
            assert(tree@.nodes[i] == before[i]);
        }
        assert(tree@.nodes[id as int] == before[id as int]);
        assert forall|j: int| 0 <= j < k + 1 implies #[trigger] children@[j] == (id + 1 + j) as NodeId && holds_file(tree@.nodes, id + 1 + j, id as int, fs[j]) by {
            if j < k {
                assert(children@[j] == before_children[j]);
                assert(tree@.nodes[id + 1 + j] == before[id + 1 + j]);
            } else {
                assert(children@[j] == fid);
                assert(fs[j] == *f);
                assert(tree@.nodes[id + 1 + j].name == f.name@);
                assert(holds_file(tree@.nodes, id + 1 + j, id as int, fs[j]));
            }
        }
        k += 1;
    }
    let ns = d.subdirs.len();
    let mut j: usize = 0;
    let ghost kid_start = id + 1 + nf;
    assert(children@.skip(nf as int) =~= Seq::<NodeId>::empty());
    assert(ss.subrange(0, 0) =~= Seq::<DirResult>::empty());
    while j < ns
        invariant
            dd == *d,
            nf == fs.len(),
            ns == ss.len(),
            ss == d.subdirs@,
            j <= ns,
            id as int == t0.nodes.len(),
            kid_start == id + 1 + nf,
            tree@.nodes.len() == kid_start + subs_nodes(ss.subrange(0, j as int)),
            t0.nodes.len() + dir_nodes(dd) <= u32::MAX,
            dir_nodes(dd) == 1 + nf + subs_nodes(ss),
            forall|i: int| 0 <= i < t0.nodes.len() ==> #[trigger] tree@.nodes[i] == t0.nodes[i],
            tree@.nodes[id as int].name == dd.name@,
            tree@.nodes[id as int].parent == parent,
            tree@.nodes[id as int].size == dd.size,
            tree@.nodes[id as int].mtime == dd.mtime,
            tree@.nodes[id as int].is_dir,
            tree@.nodes[id as int].error == dd.error,
            children@.len() == nf + j,
            forall|i: int| 0 <= i < nf ==> #[trigger] children@[i] == (id + 1 + i) as NodeId && holds_file(tree@.nodes, id + 1 + i, id as int, fs[i]),
            fs == dd.files@,
            holds_subs(tree@.nodes, id as int, kid_start, children@.skip(nf as int), ss.subrange(0, j as int)),
            tree.file_count == t0.file_count + nf + subs_files(ss.subrange(0, j as int)),
            tree.dir_count == t0.dir_count + 1 + subs_dirs(ss.subrange(0, j as int)),
            tree.error_count == t0.error_count + (if dd.error { 1nat } else { 0nat }) + subs_errors(ss.subrange(0, j as int)),
            tree.root == t0.root,
            t0.file_count + files_in(dd) <= u64::MAX,
            t0.dir_count + dirs_in(dd) <= u64::MAX,
            t0.error_count + errors_in(dd) <= u32::MAX,
            files_in(dd) == nf + subs_files(ss),
            dirs_in(dd) == 1 + subs_dirs(ss),
            errors_in(dd) == (if dd.error { 1nat } else { 0nat }) + subs_errors(ss),
        decreases ns - j,
    {
        let sub = &d.subdirs[j];
        let ghost pre = ss.subrange(0, j as int);
        let ghost now = ss.subrange(0, j + 1 as int);
        assert(now.subrange(0, now.len() - 1) =~= pre);
        assert(now[now.len() - 1] == *sub);
        proof {
            lemma_subs_prefix(ss, j as int + 1);
        }
        let ghost before = tree@.nodes;
        let ghost before_children = children@;
        let sid = flatten(tree, sub, Some(id));
        children.push(sid);
        proof {
            lemma_subs_frame(before, tree@.nodes, id as int, kid_start, before_children.skip(nf as int), pre);
            assert(children@.skip(nf as int).subrange(0, children@.skip(nf as int).len() - 1) =~= before_children.skip(nf as int));
            assert forall|i: int| 0 <= i < nf implies #[trigger] children@[i] == (id + 1 + i) as NodeId && holds_file(tree@.nodes, id + 1 + i, id as int, fs[i]) by {
                assert(tree@.nodes[id + 1 + i] == before[id + 1 + i]);
                assert(children@[i] == before_children[i]);
            }
            assert(tree@.nodes[id as int] == before[id as int]);
        }
        j += 1;
    }
    assert(ss.subrange(0, ns as int) =~= ss);
    let ghost before = tree@.nodes;
    let ghost kids = children@;
    tree.nodes[id as usize].children = children;
    assert(tree@.nodes[id as int].children == kids);
    proof {
        lemma_subs_frame(before, tree@.nodes, id as int, kid_start, kids.skip(nf as int), ss);
        assert forall|i: int| 0 <= i < t0.nodes.len() implies #[trigger] tree@.nodes[i] == t0.nodes[i] by {
            assert(tree@.nodes[i] == before[i]);
        }
        assert forall|i: int| 0 <= i < nf implies #[trigger] file_at(tree@.nodes, id as int, i, dd) by {
            assert(tree@.nodes[id + 1 + i] == before[id + 1 + i]);
            assert(kids[i] == (id + 1 + i) as NodeId);
        }
        assert(holds_dir(tree@.nodes, id as int, parent, dd));
    }
    id
}

/// `subs_nodes` and the counts of a prefix stay within the whole.
proof fn lemma_subs_prefix(s: Seq<DirResult>, j: int)
    requires
        0 <= j <= s.len(),
    ensures
        subs_nodes(s.subrange(0, j)) <= subs_nodes(s),
        subs_files(s.subrange(0, j)) <= subs_files(s),
        subs_dirs(s.subrange(0, j)) <= subs_dirs(s),
        subs_errors(s.subrange(0, j)) <= subs_errors(s),
    decreases s.len(),
{
    if j < s.len() {
        let f = s.subrange(0, s.len() - 1);
        lemma_subs_prefix(f, j);
        assert(f.subrange(0, j) =~= s.subrange(0, j));
    } else {
        assert(s.subrange(0, j) =~= s);
    }
}

} // verus!

verus! {

/// Bytes in a list of files.
pub open spec fn file_bytes(fs: Seq<FileEntry>) -> int
    decreases fs.len(),
{
    if fs.len() == 0 {
        0
    } else {
        file_bytes(fs.drop_last()) + fs.last().size
    }
}

/// Sum of the sizes of a list of walked directories.
pub open spec fn dir_bytes(ds: Seq<DirResult>) -> int
    decreases ds.len(),
{
    if ds.len() == 0 {
        0
    } else {
        dir_bytes(ds.drop_last()) + ds.last().size
    }
}

impl DirResult {
    /// A directory whose listing failed: marked unreadable, empty, size 0.
    pub fn unreadable(name: String, mtime: i64) -> (d: DirResult)
        ensures
            d.name@ == name@,
            d.mtime == mtime,
            d.error,
            d.size == 0,
            d.files@.len() == 0,
            d.subdirs@.len() == 0,
            walk_ok(d),
    {
        let d = DirResult { name, mtime, error: true, size: 0, files: Vec::new(), subdirs: Vec::new() };
        assert(subs_ok(d.subdirs@));
        d
    }

    /// A listed directory: its size is the bytes of its files plus the sizes
    /// of its subdirectories. `None` when that sum does not fit in a `u64`.
    pub fn listed(name: String, mtime: i64, files: Vec<FileEntry>, subdirs: Vec<DirResult>) -> (r: Option<DirResult>)
        ensures
            r is Some <==> file_bytes(files@) + dir_bytes(subdirs@) <= u64::MAX,
            r matches Some(d) ==> {
                &&& d.name@ == name@
                &&& d.mtime == mtime
                &&& !d.error
                &&& d.size == file_bytes(files@) + dir_bytes(subdirs@)
                &&& d.files@ == files@
                &&& d.subdirs@ == subdirs@
                &&& walk_ok(d) == subs_ok(subdirs@)
            },
    {
        let mut total: u64 = 0;
        let mut k: usize = 0;
        while k < files.len()
            invariant
                k <= files@.len(),
                total == file_bytes(files@.take(k as int)),
            decreases files@.len() - k,
        {
            assert(files@.take(k + 1 as int).drop_last() =~= files@.take(k as int));
            proof {
                lemma_file_bytes_prefix(files@, k as int + 1);
            }
            if files[k].size > u64::MAX - total {
                proof {
                    lemma_file_bytes_prefix(files@, files@.len() as int);
                    assert(files@.take(files@.len() as int) =~= files@);
                    lemma_dir_bytes_nonneg(subdirs@);
                }
                return None;
            }
            total = total + files[k].size;
            k += 1;
        }
        assert(files@.take(files@.len() as int) =~= files@);
        let mut j: usize = 0;
        while j < subdirs.len()
            invariant
                j <= subdirs@.len(),
                total == file_bytes(files@) + dir_bytes(subdirs@.take(j as int)),
            decreases subdirs@.len() - j,
        {
            assert(subdirs@.take(j + 1 as int).drop_last() =~= subdirs@.take(j as int));
            if subdirs[j].size > u64::MAX - total {
                proof {
                    lemma_dir_bytes_prefix(subdirs@, j as int + 1);
                    assert(subdirs@.take(subdirs@.len() as int) =~= subdirs@);
                }
                return None;
            }
            total = total + subdirs[j].size;
            j += 1;
        }
        assert(subdirs@.take(subdirs@.len() as int) =~= subdirs@);
        Some(DirResult { name, mtime, error: false, size: total, files, subdirs })
    }
}

proof fn lemma_file_bytes_prefix(fs: Seq<FileEntry>, k: int)
    requires
        0 <= k <= fs.len(),
    ensures
        0 <= file_bytes(fs.take(k)) <= file_bytes(fs),
    decreases fs.len(),
{
    if fs.len() > 0 {
        if k < fs.len() {
            lemma_file_bytes_prefix(fs.drop_last(), k);
            assert(fs.drop_last().take(k) =~= fs.take(k));
        } else {
            assert(fs.take(k) =~= fs);
            lemma_file_bytes_prefix(fs.drop_last(), k - 1);
            assert(fs.drop_last().take(k - 1) =~= fs.drop_last());
        }
    } else {
        assert(fs.take(k) =~= fs);
    }
}

proof fn lemma_dir_bytes_prefix(ds: Seq<DirResult>, k: int)
    requires
        0 <= k <= ds.len(),
    ensures
        0 <= dir_bytes(ds.take(k)) <= dir_bytes(ds),
    decreases ds.len(),
{
    if ds.len() > 0 {
        if k < ds.len() {
            lemma_dir_bytes_prefix(ds.drop_last(), k);
            assert(ds.drop_last().take(k) =~= ds.take(k));
        } else {
            assert(ds.take(k) =~= ds);
            lemma_dir_bytes_prefix(ds.drop_last(), k - 1);
            assert(ds.drop_last().take(k - 1) =~= ds.drop_last());
        }
    } else {
        assert(ds.take(k) =~= ds);
    }
}

proof fn lemma_dir_bytes_nonneg(ds: Seq<DirResult>)
    ensures
        dir_bytes(ds) >= 0,
{
    lemma_dir_bytes_prefix(ds, 0);
}

/// `t` is the arena that a walk result `d` flattens to: every node in
/// depth-first preorder from index 0, the root's own directory not counted.
pub open spec fn laid_out(t: TreeView, d: DirResult) -> bool {
    &&& t.nodes.len() == dir_nodes(d)
    &&& holds_dir(t.nodes, 0, None, d)
    &&& t.root == 0
    &&& t.file_count == files_in(d)
    &&& t.dir_count == dirs_in(d) - 1
    &&& t.error_count == errors_in(d)
}

/// The tree of a finished walk: the walk flattened into the arena in
/// preorder, then every child list sorted by descending size.
pub fn build_tree(d: &DirResult) -> (t: Tree)
    requires
        dir_nodes(*d) <= u32::MAX,
        files_in(*d) <= u64::MAX,
        dirs_in(*d) <= u64::MAX,
        errors_in(*d) <= u32::MAX,
    ensures
        exists|flat: TreeView| laid_out(flat, *d) && #[trigger] children_sorted(flat, t@),
        wf(t@),
        counters_match(t@),
        leafy(t@),
        walk_ok(*d) ==> sizes_add_up(t@),
{
    let mut tree = Tree { nodes: Vec::new(), root: 0, file_count: 0, dir_count: 0, error_count: 0 };
    flatten(&mut tree, d, None);
    tree.root = 0;
    tree.dir_count = tree.dir_count - 1;
    let ghost flat = tree@;
    proof {
        lemma_holds_in_bounds(flat.nodes, 0, None, *d);
    }
    tree.sort_children_by_size();
    assert(laid_out(flat, *d));
    proof {
        lemma_laid_out_wf(flat, *d);
        lemma_sorted_wf(flat, tree@);
        lemma_laid_out_counters(flat, tree@, *d);
        lemma_laid_out_leafy(flat, tree@, *d);
        if walk_ok(*d) {
            lemma_laid_out_sizes(flat, *d);
            law_sorted_sizes(flat, tree@);
        }
    }
    tree
}

/// Inside the block that holds a walk result, child references stay in
/// the block and point past their parent.
proof fn lemma_holds_kids(nodes: Seq<NodeView>, id: int, parent: Option<NodeId>, d: DirResult)
    requires
        holds_dir(nodes, id, parent, d),
        id + dir_nodes(d) <= u32::MAX + 1,
    ensures
        forall|j: int, k: int|
            id <= j < id + dir_nodes(d) && 0 <= k < nodes[j].children.len() ==> j < (
            #[trigger] nodes[j].children[k] as int) < id + dir_nodes(d),
    decreases d, 0nat,
{
    let nf = d.files@.len();
    let start = id + 1 + nf;
    let kids = nodes[id].children.skip(nf as int);
    assert(dir_nodes(d) == 1 + nf + subs_nodes(d.subdirs@));
    lemma_subs_kids(nodes, id, start, kids, d.subdirs@);
    assert forall|j: int, k: int|
        id <= j < id + dir_nodes(d) && 0 <= k < nodes[j].children.len() implies j < (
        #[trigger] nodes[j].children[k] as int) < id + dir_nodes(d) by {
        if j == id {
            if k < nf {
                assert(file_at(nodes, id, k, d));
            } else {
                assert(nodes[j].children[k] == kids[k - nf]);
            }
        } else if j < start {
            assert(file_at(nodes, id, j - id - 1, d));
        }
    }
}

proof fn lemma_subs_kids(nodes: Seq<NodeView>, parent: int, start: int, kids: Seq<NodeId>, s: Seq<DirResult>)
    requires
        holds_subs(nodes, parent, start, kids, s),
        0 <= start,
        start + subs_nodes(s) <= u32::MAX + 1,
    ensures
        forall|j: int, k: int|
            start <= j < start + subs_nodes(s) && 0 <= k < nodes[j].children.len() ==> j < (
            #[trigger] nodes[j].children[k] as int) < start + subs_nodes(s),
        forall|m: int| 0 <= m < kids.len() ==> start <= #[trigger] kids[m] < start + subs_nodes(s),
    decreases s, 1nat,
{
    if s.len() > 0 {
        let front = s.subrange(0, s.len() - 1);
        let at = start + subs_nodes(front);
        let last = s[s.len() - 1];
        assert(subs_nodes(s) == subs_nodes(front) + dir_nodes(last));
        lemma_subs_prefix(s, s.len() - 1);
        lemma_subs_kids(nodes, parent, start, kids.subrange(0, kids.len() - 1), front);
        lemma_holds_kids(nodes, at, Some(parent as NodeId), last);
        assert(dir_nodes(last) >= 1);
        assert forall|m: int| 0 <= m < kids.len() implies start <= #[trigger] kids[m] < start + subs_nodes(s) by {
            if m < kids.len() - 1 {
                assert(kids[m] == kids.subrange(0, kids.len() - 1)[m]);
            }
        }
    }
}

/// Every child reference of the nodes a walk result was laid out into
/// points inside the arena.
proof fn lemma_holds_in_bounds(nodes: Seq<NodeView>, id: int, parent: Option<NodeId>, d: DirResult)
    requires
        holds_dir(nodes, id, parent, d),
        id == 0,
        nodes.len() == dir_nodes(d),
        nodes.len() <= u32::MAX,
    ensures
        children_in_bounds(TreeView { nodes, root: 0, file_count: 0, dir_count: 0, error_count: 0 }),
{
    lemma_holds_kids(nodes, id, parent, d);
    assert forall|i: int, k: int|
        0 <= i < nodes.len() && 0 <= k < nodes[i].children.len() implies (
        #[trigger] nodes[i].children[k] as int) < nodes.len() by {
        assert(i < id + dir_nodes(d));
    }
}

/// Links inside the block that holds a walk result: every child points
/// back to its parent, child lists go up strictly, and every node of the
/// block but its first hangs below an earlier node of the block that lists
/// it.
proof fn lemma_holds_links(nodes: Seq<NodeView>, id: int, parent: Option<NodeId>, d: DirResult)
    requires
        holds_dir(nodes, id, parent, d),
        id + dir_nodes(d) <= u32::MAX + 1,
    ensures
        nodes[id].parent == parent,
        forall|j: int, k: int|
            id <= j < id + dir_nodes(d) && 0 <= k < nodes[j].children.len() ==> nodes[#[trigger] nodes[j].children[k] as int].parent
                == Some(j as NodeId),
        forall|j: int, a: int, b: int|
            id <= j < id + dir_nodes(d) && 0 <= a < b < nodes[j].children.len() ==> #[trigger] nodes[j].children[a]
                < #[trigger] nodes[j].children[b],
        forall|j: int|
            id < j < id + dir_nodes(d) ==> (#[trigger] nodes[j].parent matches Some(p) && id <= p < j
                && nodes[p as int].children.contains(j as NodeId)),
    decreases d, 0nat,
{
    let nf = d.files@.len();
    let start = id + 1 + nf;
    let kids = nodes[id].children.skip(nf as int);
    assert(dir_nodes(d) == 1 + nf + subs_nodes(d.subdirs@));
    lemma_subs_kids(nodes, id, start, kids, d.subdirs@);
    lemma_subs_links(nodes, id, start, kids, d.subdirs@);
    assert forall|j: int, k: int|
        id <= j < id + dir_nodes(d) && 0 <= k < nodes[j].children.len() implies nodes[#[trigger] nodes[j].children[k] as int].parent
            == Some(j as NodeId) by {
        if j == id {
            if k < nf {
                assert(file_at(nodes, id, k, d));
            } else {
                assert(nodes[j].children[k] == kids[k - nf]);
            }
        } else if j < start {
            assert(file_at(nodes, id, j - id - 1, d));
        }
    }
    assert forall|j: int, a: int, b: int|
        id <= j < id + dir_nodes(d) && 0 <= a < b < nodes[j].children.len() implies #[trigger] nodes[j].children[a]
            < #[trigger] nodes[j].children[b] by {
        if j == id {
            if a < nf {
                assert(file_at(nodes, id, a, d));
                if b < nf {
                    assert(file_at(nodes, id, b, d));
                } else {
                    assert(nodes[j].children[b] == kids[b - nf]);
                }
            } else {
                assert(nodes[j].children[a] == kids[a - nf]);
                assert(nodes[j].children[b] == kids[b - nf]);
            }
        } else if j < start {
            assert(file_at(nodes, id, j - id - 1, d));
        }
    }
    assert forall|j: int| id < j < id + dir_nodes(d) implies (#[trigger] nodes[j].parent matches Some(p)
        && id <= p < j && nodes[p as int].children.contains(j as NodeId)) by {
        if j < start {
            let k = j - id - 1;
            assert(file_at(nodes, id, k, d));
            assert(nodes[id].children[k] == j as NodeId);
        } else {
            if nodes[j].parent == Some(id as NodeId) {
                let m = choose|m: int| 0 <= m < kids.len() && kids[m] == j as NodeId;
                assert(nodes[id].children[nf + m] == kids[m]);
                assert(nodes[id].children.contains(j as NodeId));
            }
        }
    }
}

proof fn lemma_subs_links(nodes: Seq<NodeView>, parent: int, start: int, kids: Seq<NodeId>, s: Seq<DirResult>)
    requires
        holds_subs(nodes, parent, start, kids, s),
        0 <= parent < start,
        start + subs_nodes(s) <= u32::MAX + 1,
    ensures
        forall|j: int, k: int|
            start <= j < start + subs_nodes(s) && 0 <= k < nodes[j].children.len() ==> nodes[#[trigger] nodes[j].children[k] as int].parent
                == Some(j as NodeId),
        forall|j: int, a: int, b: int|
            start <= j < start + subs_nodes(s) && 0 <= a < b < nodes[j].children.len() ==> #[trigger] nodes[j].children[a]
                < #[trigger] nodes[j].children[b],
        forall|j: int|
            start <= j < start + subs_nodes(s) ==> (#[trigger] nodes[j].parent matches Some(p) && (
            p == parent && kids.contains(j as NodeId) || start <= p < j && nodes[p as int].children.contains(
                j as NodeId,
            ))),
        forall|a: int, b: int| 0 <= a < b < kids.len() ==> #[trigger] kids[a] < #[trigger] kids[b],
        forall|m: int| 0 <= m < kids.len() ==> nodes[#[trigger] kids[m] as int].parent == Some(parent as NodeId),
    decreases s, 1nat,
{
    if s.len() > 0 {
        let front = s.subrange(0, s.len() - 1);
        let at = start + subs_nodes(front);
        let last = s[s.len() - 1];
        let fk = kids.subrange(0, kids.len() - 1);
        assert(subs_nodes(s) == subs_nodes(front) + dir_nodes(last));
        lemma_subs_prefix(s, s.len() - 1);
        lemma_subs_kids(nodes, parent, start, fk, front);
        lemma_subs_links(nodes, parent, start, fk, front);
        lemma_holds_links(nodes, at, Some(parent as NodeId), last);
        assert(dir_nodes(last) >= 1);
        assert forall|m: int| 0 <= m < kids.len() implies nodes[#[trigger] kids[m] as int].parent == Some(parent as NodeId) by {
            if m < kids.len() - 1 {
                assert(kids[m] == fk[m]);
            }
        }
        assert forall|a: int, b: int| 0 <= a < b < kids.len() implies #[trigger] kids[a] < #[trigger] kids[b] by {
            assert(kids[a] == fk[a]);
            if b < kids.len() - 1 {
                assert(kids[b] == fk[b]);
            }
        }
        assert forall|j: int| start <= j < start + subs_nodes(s) implies (#[trigger] nodes[j].parent matches Some(p)
            && (p == parent && kids.contains(j as NodeId) || start <= p < j && nodes[p as int].children.contains(
            j as NodeId,
        ))) by {
            if j < at {
                if nodes[j].parent == Some(parent as NodeId) && fk.contains(j as NodeId) {
                    let m = choose|m: int| 0 <= m < fk.len() && fk[m] == j as NodeId;
                    assert(kids[m] == fk[m]);
                }
            } else if j == at {
                assert(kids[kids.len() - 1] == j as NodeId);
            }
        }
    }
}

/// In an arena where every node but the first has an earlier parent, every
/// parent chain ends, in at most as many steps as the node's index.
proof fn lemma_chain_ok_ordered(nodes: Seq<NodeView>, j: int)
    requires
        0 <= j < nodes.len(),
        nodes[0].parent is None,
        forall|i: int| 0 < i < nodes.len() ==> (#[trigger] nodes[i].parent matches Some(p) && p < i),
    ensures
        exists|e: nat| e <= j && #[trigger] reaches_top(nodes, j, e),
    decreases j,
{
    if j == 0 {
        assert(reaches_top(nodes, 0, 0));
    } else {
        let p = nodes[j].parent.unwrap() as int;
        assert(nodes[j].parent matches Some(q) && q < j);
        lemma_chain_ok_ordered(nodes, p);
        let e = choose|e: nat| e <= p && #[trigger] reaches_top(nodes, p, e);
        assert(reaches_top(nodes, j, e + 1));
    }
}

/// The arena a walk result is laid out into is a well-formed tree.
proof fn lemma_laid_out_wf(t: TreeView, d: DirResult)
    requires
        laid_out(t, d),
        t.nodes.len() <= u32::MAX,
    ensures
        wf(t),
{
    let nodes = t.nodes;
    lemma_holds_kids(nodes, 0, None, d);
    lemma_holds_links(nodes, 0, None, d);
    assert forall|i: int| 0 <= i < nodes.len() implies (#[trigger] nodes[i].children).no_duplicates() by {
        let c = nodes[i].children;
        assert forall|a: int, b: int| 0 <= a < c.len() && 0 <= b < c.len() && a != b implies c[a] != c[b] by {
            if a < b {
                assert(nodes[i].children[a] < nodes[i].children[b]);
            } else {
                assert(nodes[i].children[b] < nodes[i].children[a]);
            }
        }
    }
    assert forall|i: int| 0 < i < nodes.len() implies (#[trigger] nodes[i].parent matches Some(p) && p < i) by {
        assert(nodes[i].parent matches Some(p) && 0 <= p < i);
    }
    assert forall|i: int| 0 <= i < nodes.len() implies #[trigger] chain_ok(nodes, i) by {
        lemma_chain_ok_ordered(nodes, i);
        let e = choose|e: nat| e <= i && #[trigger] reaches_top(nodes, i, e);
        assert(reaches_top(nodes, i, e));
    }
    assert forall|i: int, k: int|
        0 <= i < nodes.len() && 0 <= k < nodes[i].children.len() implies (
        #[trigger] nodes[i].children[k] as int) < nodes.len() by {
    }
    assert forall|i: int| 0 <= i < nodes.len() && i != t.root implies match #[trigger] nodes[i].parent {
        Some(p) => nodes[p as int].children.contains(i as NodeId),
        None => false,
    } by {
        assert(nodes[i].parent matches Some(p) && nodes[p as int].children.contains(i as NodeId));
    }
}

/// A walk holds as many nodes as files and directories, and no more
/// unreadable directories than directories.
proof fn lemma_walk_counts(d: DirResult)
    ensures
        files_in(d) + dirs_in(d) == dir_nodes(d),
        errors_in(d) <= dirs_in(d),
    decreases d, 0nat,
{
    lemma_subs_counts(d.subdirs@);
}

proof fn lemma_subs_counts(s: Seq<DirResult>)
    ensures
        subs_files(s) + subs_dirs(s) == subs_nodes(s),
        subs_errors(s) <= subs_dirs(s),
    decreases s, 1nat,
{
    if s.len() > 0 {
        lemma_subs_counts(s.subrange(0, s.len() - 1));
        lemma_walk_counts(s[s.len() - 1]);
    }
}

/// The number of nodes a walk result flattens to, when it fits in a `u32`.
fn count_nodes(d: &DirResult) -> (r: Option<u32>)
    ensures
        r is Some <==> dir_nodes(*d) <= u32::MAX,
        r matches Some(c) ==> c == dir_nodes(*d),
    decreases d,
{
    let ghost ss = d.subdirs@;
    assert(dir_nodes(*d) == 1 + d.files@.len() + subs_nodes(ss));
    if d.files.len() >= 0xffff_ffff {
        return None;
    }
    let mut total: u32 = 1 + d.files.len() as u32;
    let mut j: usize = 0;
    while j < d.subdirs.len()
        invariant
            ss == d.subdirs@,
            j <= ss.len(),
            total == 1 + d.files@.len() + subs_nodes(ss.subrange(0, j as int)),
            dir_nodes(*d) == 1 + d.files@.len() + subs_nodes(ss),
        decreases ss.len() - j,
    {
        proof {
            lemma_subs_prefix(ss, j as int + 1);
            let now = ss.subrange(0, j + 1 as int);
            assert(now.subrange(0, now.len() - 1) =~= ss.subrange(0, j as int));
            assert(now[now.len() - 1] == ss[j as int]);
        }
        match count_nodes(&d.subdirs[j]) {
            None => {
                return None;
            },
            Some(c) => {
                if c > 0xffff_ffff - total {
                    return None;
                }
                total = total + c;
            },
        }
        j += 1;
    }
    assert(ss.subrange(0, ss.len() as int) =~= ss);
    Some(total)
}

/// The tree of a finished walk (see `build_tree`), or `None` when the walk
/// holds more nodes than `u32` ids can number.
pub fn tree_of_walk(d: &DirResult) -> (r: Option<Tree>)
    ensures
        r is Some <==> dir_nodes(*d) <= u32::MAX,
        r matches Some(t) ==> wf(t@) && exists|flat: TreeView| laid_out(flat, *d) && #[trigger] children_sorted(flat, t@),
        r matches Some(t) ==> counters_match(t@) && leafy(t@),
        r matches Some(t) ==> (walk_ok(*d) ==> sizes_add_up(t@)),
{
    proof {
        lemma_walk_counts(*d);
    }
    match count_nodes(d) {
        Some(_) => Some(build_tree(d)),
        None => None,
    }
}

/// Every directory of the walk weighs what its files and subdirectories
/// weigh.
pub open spec fn walk_ok(d: DirResult) -> bool
    decreases d, 0nat,
{
    d.size == file_bytes(d.files@) + dir_bytes(d.subdirs@) && subs_ok(d.subdirs@)
}

/// Every directory of the list is consistent (see `walk_ok`).
pub open spec fn subs_ok(s: Seq<DirResult>) -> bool
    decreases s, 1nat,
{
    s.len() == 0 || (subs_ok(s.subrange(0, s.len() - 1)) && walk_ok(s[s.len() - 1]))
}

/// The file nodes of a laid-out directory weigh what its files weigh.
proof fn lemma_files_weight(nodes: Seq<NodeView>, id: int, d: DirResult, k: int)
    requires
        0 <= id,
        0 <= k <= d.files@.len(),
        d.files@.len() <= nodes[id].children.len(),
        id + 1 + d.files@.len() <= u32::MAX + 1,
        forall|m: int| 0 <= m < d.files@.len() ==> #[trigger] file_at(nodes, id, m, d),
    ensures
        size_sum(nodes, nodes[id].children.take(k)) == file_bytes(d.files@.take(k)),
    decreases k,
{
    if k > 0 {
        lemma_files_weight(nodes, id, d, k - 1);
        assert(nodes[id].children.take(k).drop_last() =~= nodes[id].children.take(k - 1));
        assert(d.files@.take(k).drop_last() =~= d.files@.take(k - 1));
        assert(file_at(nodes, id, k - 1, d));
        assert(nodes[id].children.take(k).last() == nodes[id].children[k - 1]);
        assert(d.files@.take(k).last() == d.files@[k - 1]);
        assert(nodes[id].children[k - 1] as int == id + k);
        assert(nodes[id + k].size == d.files@[k - 1].size);
    }
}

/// The subdirectory nodes of a laid-out list weigh what the walked
/// subdirectories weigh.
proof fn lemma_subs_weight(nodes: Seq<NodeView>, parent: int, start: int, kids: Seq<NodeId>, s: Seq<DirResult>)
    requires
        holds_subs(nodes, parent, start, kids, s),
        0 <= start,
        start + subs_nodes(s) <= u32::MAX + 1,
    ensures
        size_sum(nodes, kids) == dir_bytes(s),
    decreases s.len(),
{
    if s.len() > 0 {
        let front = s.subrange(0, s.len() - 1);
        let at = start + subs_nodes(front);
        lemma_subs_prefix(s, s.len() - 1);
        assert(subs_nodes(s) == subs_nodes(front) + dir_nodes(s[s.len() - 1]));
        lemma_subs_weight(nodes, parent, start, kids.subrange(0, kids.len() - 1), front);
        assert(kids.drop_last() =~= kids.subrange(0, kids.len() - 1));
        assert(s.drop_last() =~= front);
        assert(kids[kids.len() - 1] as int == at);
        assert(holds_dir(nodes, at, Some(parent as NodeId), s[s.len() - 1]));
        assert(nodes[at].size == s[s.len() - 1].size);
        assert(kids.last() == kids[kids.len() - 1]);
        assert(s.last() == s[s.len() - 1]);
    }
}

/// Inside the block that holds a consistent walk, directory sizes add up
/// and only directories have children.
proof fn lemma_holds_sizes(nodes: Seq<NodeView>, id: int, parent: Option<NodeId>, d: DirResult)
    requires
        holds_dir(nodes, id, parent, d),
        walk_ok(d),
        id + dir_nodes(d) <= u32::MAX + 1,
    ensures
        forall|j: int|
            id <= j < id + dir_nodes(d) ==> if (#[trigger] nodes[j]).is_dir {
                nodes[j].size == size_sum(nodes, nodes[j].children)
            } else {
                nodes[j].children.len() == 0
            },
    decreases d, 0nat,
{
    let nf = d.files@.len();
    let start = id + 1 + nf;
    let ch = nodes[id].children;
    let kids = ch.skip(nf as int);
    assert(dir_nodes(d) == 1 + nf + subs_nodes(d.subdirs@));
    lemma_files_weight(nodes, id, d, nf as int);
    assert(d.files@.take(nf as int) =~= d.files@);
    lemma_subs_weight(nodes, id, start, kids, d.subdirs@);
    assert(ch =~= ch.take(nf as int) + kids);
    lemma_sum_append(nodes, ch.take(nf as int), kids);
    lemma_subs_holds_sizes(nodes, id, start, kids, d.subdirs@);
    assert forall|j: int| id <= j < id + dir_nodes(d) implies if (#[trigger] nodes[j]).is_dir {
        nodes[j].size == size_sum(nodes, nodes[j].children)
    } else {
        nodes[j].children.len() == 0
    } by {
        if id < j < start {
            assert(file_at(nodes, id, j - id - 1, d));
        }
    }
}

proof fn lemma_subs_holds_sizes(nodes: Seq<NodeView>, parent: int, start: int, kids: Seq<NodeId>, s: Seq<DirResult>)
    requires
        holds_subs(nodes, parent, start, kids, s),
        subs_ok(s),
        0 <= start,
        start + subs_nodes(s) <= u32::MAX + 1,
    ensures
        forall|j: int|
            start <= j < start + subs_nodes(s) ==> if (#[trigger] nodes[j]).is_dir {
                nodes[j].size == size_sum(nodes, nodes[j].children)
            } else {
                nodes[j].children.len() == 0
            },
    decreases s, 1nat,
{
    if s.len() > 0 {
        let front = s.subrange(0, s.len() - 1);
        let at = start + subs_nodes(front);
        lemma_subs_prefix(s, s.len() - 1);
        assert(subs_nodes(s) == subs_nodes(front) + dir_nodes(s[s.len() - 1]));
        lemma_subs_holds_sizes(nodes, parent, start, kids.subrange(0, kids.len() - 1), front);
        lemma_holds_sizes(nodes, at, Some(parent as NodeId), s[s.len() - 1]);
    }
}

/// The tree of a consistent walk has directory sizes that add up.
proof fn lemma_laid_out_sizes(t: TreeView, d: DirResult)
    requires
        laid_out(t, d),
        walk_ok(d),
        t.nodes.len() <= u32::MAX,
    ensures
        sizes_add_up(t),
{
    lemma_holds_sizes(t.nodes, 0, None, d);
}

/// Whether node `n` is a file (`kind` 0), a directory (1), an unreadable
/// directory (2), or a file that lists children (3, which no scan makes).
pub open spec fn counts_as(n: NodeView, kind: int) -> bool {
    if kind == 0 {
        !n.is_dir
    } else if kind == 1 {
        n.is_dir
    } else if kind == 2 {
        n.error
    } else {
        !n.is_dir && n.children.len() > 0
    }
}

/// How many of the nodes `a..b` are of the given kind.
pub open spec fn count_where(nodes: Seq<NodeView>, a: int, b: int, kind: int) -> nat
    decreases b - a,
{
    if b <= a {
        0
    } else {
        count_where(nodes, a, b - 1, kind) + (if counts_as(nodes[b - 1], kind) { 1nat } else { 0nat })
    }
}

/// Every node of a tree counted by its kind: the file counter counts the
/// files, the directory counter the directories other than the root, the
/// error counter the unreadable directories.
pub open spec fn counters_match(t: TreeView) -> bool {
    &&& t.file_count == count_where(t.nodes, 0, t.nodes.len() as int, 0)
    &&& t.dir_count + 1 == count_where(t.nodes, 0, t.nodes.len() as int, 1)
    &&& t.error_count == count_where(t.nodes, 0, t.nodes.len() as int, 2)
}

proof fn lemma_count_split(nodes: Seq<NodeView>, a: int, m: int, b: int, kind: int)
    requires
        a <= m <= b,
    ensures
        count_where(nodes, a, b, kind) == count_where(nodes, a, m, kind) + count_where(nodes, m, b, kind),
    decreases b - m,
{
    if m < b {
        lemma_count_split(nodes, a, m, b - 1, kind);
    }
}

/// Counting over nodes that agree on their kinds gives the same count.
proof fn lemma_count_same(n1: Seq<NodeView>, n2: Seq<NodeView>, a: int, b: int, kind: int)
    requires
        forall|j: int| a <= j < b ==> counts_as(#[trigger] n1[j], kind) == counts_as(n2[j], kind),
    ensures
        count_where(n1, a, b, kind) == count_where(n2, a, b, kind),
    decreases b - a,
{
    if a < b {
        lemma_count_same(n1, n2, a, b - 1, kind);
        assert(counts_as(n1[b - 1], kind) == counts_as(n2[b - 1], kind));
    }
}

/// A block of file nodes counts as files, never as directories.
proof fn lemma_count_files(nodes: Seq<NodeView>, id: int, d: DirResult, k: int, kind: int)
    requires
        0 <= k <= d.files@.len(),
        forall|m: int| 0 <= m < d.files@.len() ==> #[trigger] file_at(nodes, id, m, d),
    ensures
        count_where(nodes, id + 1, id + 1 + k, kind) == (if kind == 0 { k } else { 0 }),
    decreases k,
{
    if k > 0 {
        lemma_count_files(nodes, id, d, k - 1, kind);
        assert(file_at(nodes, id, k - 1, d));
    }
}

/// The block that holds a walk result counts its files, directories and
/// unreadable directories.
proof fn lemma_holds_counts(nodes: Seq<NodeView>, id: int, parent: Option<NodeId>, d: DirResult, kind: int)
    requires
        holds_dir(nodes, id, parent, d),
        id + dir_nodes(d) <= u32::MAX + 1,
    ensures
        count_where(nodes, id, id + dir_nodes(d), kind) == (if kind == 0 {
            files_in(d)
        } else if kind == 1 {
            dirs_in(d)
        } else if kind == 2 {
            errors_in(d)
        } else {
            0
        }),
    decreases d, 0nat,
{
    let nf = d.files@.len();
    let start = id + 1 + nf;
    let kids = nodes[id].children.skip(nf as int);
    assert(dir_nodes(d) == 1 + nf + subs_nodes(d.subdirs@));
    lemma_count_split(nodes, id, id + 1, id + dir_nodes(d), kind);
    lemma_count_split(nodes, id + 1, start, id + dir_nodes(d), kind);
    lemma_count_files(nodes, id, d, nf as int, kind);
    lemma_subs_counts_kind(nodes, id, start, kids, d.subdirs@, kind);
    assert(count_where(nodes, id, id, kind) == 0);
    assert(count_where(nodes, id, id + 1, kind) == (if counts_as(nodes[id], kind) { 1nat } else { 0nat }));
}

proof fn lemma_subs_counts_kind(nodes: Seq<NodeView>, parent: int, start: int, kids: Seq<NodeId>, s: Seq<DirResult>, kind: int)
    requires
        holds_subs(nodes, parent, start, kids, s),
        0 <= start,
        start + subs_nodes(s) <= u32::MAX + 1,
    ensures
        count_where(nodes, start, start + subs_nodes(s), kind) == (if kind == 0 {
            subs_files(s)
        } else if kind == 1 {
            subs_dirs(s)
        } else if kind == 2 {
            subs_errors(s)
        } else {
            0
        }),
    decreases s, 1nat,
{
    if s.len() > 0 {
        let front = s.subrange(0, s.len() - 1);
        let at = start + subs_nodes(front);
        lemma_subs_prefix(s, s.len() - 1);
        assert(subs_nodes(s) == subs_nodes(front) + dir_nodes(s[s.len() - 1]));
        lemma_count_split(nodes, start, at, start + subs_nodes(s), kind);
        lemma_subs_counts_kind(nodes, parent, start, kids.subrange(0, kids.len() - 1), front, kind);
        lemma_holds_counts(nodes, at, Some(parent as NodeId), s[s.len() - 1], kind);
    }
}

/// The counters of the tree a walk is laid out into match its nodes, and
/// sorting keeps them matching.
proof fn lemma_laid_out_counters(flat: TreeView, t: TreeView, d: DirResult)
    requires
        laid_out(flat, d),
        flat.nodes.len() <= u32::MAX,
        children_sorted(flat, t),
    ensures
        counters_match(t),
{
    let n = flat.nodes.len() as int;
    lemma_holds_counts(flat.nodes, 0, None, d, 0);
    lemma_holds_counts(flat.nodes, 0, None, d, 1);
    lemma_holds_counts(flat.nodes, 0, None, d, 2);
    assert forall|kind: int| 0 <= kind <= 2 implies count_where(t.nodes, 0, n, kind) == count_where(flat.nodes, 0, n, kind) by {
        assert forall|j: int| 0 <= j < n implies counts_as(#[trigger] t.nodes[j], kind) == counts_as(flat.nodes[j], kind) by {
            assert(flat.nodes[j] == flat.nodes[j]);
        }
        lemma_count_same(t.nodes, flat.nodes, 0, n, kind);
    }
    assert(count_where(t.nodes, 0, n, 0) == count_where(flat.nodes, 0, n, 0));
    assert(count_where(t.nodes, 0, n, 1) == count_where(flat.nodes, 0, n, 1));
    assert(count_where(t.nodes, 0, n, 2) == count_where(flat.nodes, 0, n, 2));
    lemma_walk_counts(d);
}

/// No node of `a..b` is of a kind that counts none.
proof fn lemma_none_counted(nodes: Seq<NodeView>, a: int, b: int, kind: int)
    requires
        count_where(nodes, a, b, kind) == 0,
    ensures
        forall|j: int| a <= j < b ==> !counts_as(#[trigger] nodes[j], kind),
    decreases b - a,
{
    if a < b {
        lemma_none_counted(nodes, a, b - 1, kind);
    }
}

/// In the tree a walk is laid out into only directories have children, and
/// sorting keeps it so.
proof fn lemma_laid_out_leafy(flat: TreeView, t: TreeView, d: DirResult)
    requires
        laid_out(flat, d),
        flat.nodes.len() <= u32::MAX,
        children_sorted(flat, t),
    ensures
        leafy(t),
{
    let n = flat.nodes.len() as int;
    lemma_holds_counts(flat.nodes, 0, None, d, 3);
    lemma_none_counted(flat.nodes, 0, n, 3);
    assert forall|i: int| 0 <= i < t.nodes.len() && !(#[trigger] t.nodes[i]).is_dir implies t.nodes[i].children.len() == 0 by {
        assert(!counts_as(flat.nodes[i], 3));
        assert(flat.nodes[i] == flat.nodes[i]);
    }
}

} // verus!
