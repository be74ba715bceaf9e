//! The decisions of the application: what a loaded session does with the
//! user's actions and events and with the results of background work.
//! The application performs the outside work (scans, file operations,
//! the clock, the clipboard) and hands the results to these functions.
use vstd::prelude::*;
use crate::diff::{diff_summary, m64, to_i64, tree_diff, DiffSummary};
use crate::edit::removal;
use crate::model::{
    ancestry, binary_size_text, fmt_size, lookup, node_path, resolve, wf, NodeId, Tree, TreeView,
};
use crate::paths::path_components;
use crate::resolve::{lemma_lookup_in_bounds, lemma_parent_in_tree, lemma_resolve_in_bounds};
use crate::snapshot::{Snapshot, VERSION};
use crate::text::{decimal, decimal_exec, push_chars, push_str, string_from_chars};

verus! {

/// What a scan reports when it ends.
pub enum ScanMsg {
    Done(Tree),
    Failed(String),
    Cancelled,
}

/// Screen-level events produced by the UI, applied after drawing.
pub enum AppEvent {
    StartScan(String),
    CancelScan,
    BackToStart,
    Rescan,
    ConfirmDelete,
    CancelDelete,
    DismissError,
}

/// Per-item actions produced by the treemap, tree panel and search results.
#[derive(Debug, Clone, Copy)]
pub enum ItemAction {
    Select(NodeId),
    Zoom(NodeId),
    ZoomOut,
    Open(NodeId),
    Reveal(NodeId),
    CopyPath(NodeId),
    Delete(NodeId),
}

/// Where the background validation of a loaded snapshot stands.
pub enum Validation {
    NotStarted,
    Running,
    Done { summary: DiffSummary, at: i64 },
    Failed(String),
}

/// Everything the "Ready" screen decides on.
pub struct Session {
    pub root: String,
    pub tree: Tree,
    /// Bumped whenever `tree` is replaced or mutated; invalidates caches.
    pub generation: u64,
    /// Directory currently shown in the treemap.
    pub view: NodeId,
    pub selected: Option<NodeId>,
    pub validation: Validation,
    pub pending_delete: Option<NodeId>,
    /// The node being moved to the Recycle Bin on a worker.
    pub deleting: Option<NodeId>,
    pub status: String,
    pub snapshot_created_at: i64,
    /// Tree panel should expand to (and scroll to) this node this frame.
    pub expand_to: Option<NodeId>,
    pub error: Option<String>,
    /// The search must run again (the tree changed).
    pub search_dirty: bool,
}

/// What the application has to carry out after an item action.
pub enum Effect {
    Nothing,
    /// Open this path with its associated program.
    Open(String),
    /// Show this path in the file explorer.
    Reveal(String),
    /// Put this text on the clipboard.
    Copy(String),
}

/// A session the decisions can work on: a well-formed tree, and the shown
/// directory and the selection inside it.
pub open spec fn ready(s: &Session) -> bool {
    &&& wf(s.tree@)
    &&& (s.view as int) < s.tree@.nodes.len()
    &&& s.selected matches Some(x) ==> (x as int) < s.tree@.nodes.len()
}

/// `u64::wrapping_add(1)`.
pub open spec fn next_gen(g: u64) -> u64 {
    if g == u64::MAX {
        0
    } else {
        (g + 1) as u64
    }
}

/// `o` and `n` agree on everything the tree-changing decisions leave alone.
pub open spec fn same_frame(o: &Session, n: &Session) -> bool {
    &&& n.root@ == o.root@
    &&& n.pending_delete == o.pending_delete
    &&& n.deleting == o.deleting
    &&& n.snapshot_created_at == o.snapshot_created_at
    &&& n.expand_to == o.expand_to
    &&& n.error == o.error
}

/// `o` and `n` differ at most in the navigation (view, selection,
/// expansion), the pending delete, the status and the error.
pub open spec fn same_data(o: &Session, n: &Session) -> bool {
    &&& n.root@ == o.root@
    &&& n.tree@ == o.tree@
    &&& n.generation == o.generation
    &&& n.validation == o.validation
    &&& n.deleting == o.deleting
    &&& n.snapshot_created_at == o.snapshot_created_at
    &&& n.search_dirty == o.search_dirty
}

/// The number of a node's full path in another tree: where a path of `old`
/// leads in `new`, falling back to the nearest existing ancestor.
pub open spec fn moved_view(old: TreeView, new: TreeView, id: NodeId) -> NodeId {
    resolve(new, path_components(node_path(old, id as int)))
}

/// Where a selected node of `old` is found in `new` by its path.
pub open spec fn moved_selection(old: TreeView, new: TreeView, sel: Option<NodeId>) -> Option<NodeId> {
    match sel {
        Some(s) => lookup(new, path_components(node_path(old, s as int))),
        None => None,
    }
}

/// `d` as an exact comparison reads when wrapped into a summary.
pub open spec fn summary_of(d: crate::diff::Diff) -> DiffSummary {
    DiffSummary {
        added: m64(d.added),
        removed: m64(d.removed),
        changed: m64(d.changed),
        delta_bytes: to_i64(m64(d.delta)),
    }
}

impl Session {
    /// A fresh session on a tree: showing the root, nothing selected,
    /// validation not started, generation 1.
    pub fn new(root: String, tree: Tree, created_at: i64) -> (s: Session)
        ensures
            s.root@ == root@,
            s.tree@ == tree@,
            s.generation == 1,
            s.view == tree.root,
            s.selected is None,
            s.validation is NotStarted,
            s.pending_delete is None,
            s.deleting is None,
            s.status@.len() == 0,
            s.snapshot_created_at == created_at,
            s.expand_to is None,
            s.error is None,
            !s.search_dirty,
    {
        let view = tree.root;
        Session {
            root,
            tree,
            generation: 1,
            view,
            selected: None,
            validation: Validation::NotStarted,
            pending_delete: None,
            deleting: None,
            status: String::new(),
            snapshot_created_at: created_at,
            expand_to: None,
            error: None,
            search_dirty: false,
        }
    }

    /// A validation scan is running.
    pub fn is_scanning(&self) -> (r: bool)
        ensures
            r == (self.validation is Running),
    {
        match self.validation {
            Validation::Running => true,
            _ => false,
        }
    }

    /// Shows `msg` as the current error.
    pub fn set_error(&mut self, msg: String)
        ensures
            final(self).error == Some(msg),
            final(self).root == old(self).root,
            final(self).tree == old(self).tree,
            final(self).generation == old(self).generation,
            final(self).view == old(self).view,
            final(self).selected == old(self).selected,
            final(self).validation == old(self).validation,
            final(self).pending_delete == old(self).pending_delete,
            final(self).deleting == old(self).deleting,
            final(self).status == old(self).status,
            final(self).snapshot_created_at == old(self).snapshot_created_at,
            final(self).expand_to == old(self).expand_to,
            final(self).search_dirty == old(self).search_dirty,
    {
        self.error = Some(msg);
    }

    /// Replace the tree with a freshly scanned one, keeping the view and
    /// selection where they were (by path); returns what changed.
    pub fn swap_tree(&mut self, new_tree: Tree) -> (summary: DiffSummary)
        requires
            ready(old(self)),
            wf(new_tree@),
        ensures
            summary == summary_of(tree_diff(old(self).tree@, new_tree@)),
            final(self).tree@ == new_tree@,
            final(self).generation == next_gen(old(self).generation),
            final(self).view == moved_view(old(self).tree@, new_tree@, old(self).view),
            final(self).selected == moved_selection(old(self).tree@, new_tree@, old(self).selected),
            final(self).search_dirty,
            final(self).validation == old(self).validation,
            final(self).status == old(self).status,
            same_frame(old(self), final(self)),
            ready(final(self)),
    {
        let view_path = self.tree.path(self.view);
        let sel_path = match self.selected {
            Some(s) => Some(self.tree.path(s)),
            None => None,
        };
        let summary = diff_summary(&self.tree, &new_tree);
        self.tree = new_tree;
        self.generation = self.generation.wrapping_add(1);
        self.view = self.tree.resolve_nearest(view_path.as_str());
        self.selected = match sel_path {
            Some(p) => self.tree.find_by_path(p.as_str()),
            None => None,
        };
        self.search_dirty = true;
        proof {
            lemma_resolve_in_bounds(self.tree@, path_components(view_path@));
            lemma_lookup_in_bounds(self.tree@, path_components(node_path(old(self).tree@, old(self).selected.unwrap_or(0) as int)));
        }
        summary
    }
}

} // verus!

verus! {

/// An action the session can carry out: the node it names exists.
pub open spec fn action_ok(s: &Session, a: ItemAction) -> bool {
    match a {
        ItemAction::Select(id) => (id as int) < s.tree@.nodes.len(),
        ItemAction::Zoom(id) => (id as int) < s.tree@.nodes.len(),
        ItemAction::ZoomOut => true,
        ItemAction::Open(id) => (id as int) < s.tree@.nodes.len(),
        ItemAction::Reveal(id) => (id as int) < s.tree@.nodes.len(),
        ItemAction::CopyPath(id) => (id as int) < s.tree@.nodes.len(),
        ItemAction::Delete(id) => (id as int) < s.tree@.nodes.len(),
    }
}

/// The directory a zoom on `id` shows: `id` itself if it is a directory,
/// else its parent (the root for a parentless file).
pub open spec fn zoom_target(t: TreeView, id: NodeId) -> NodeId {
    if t.nodes[id as int].is_dir {
        id
    } else {
        match t.nodes[id as int].parent {
            Some(p) => p,
            None => t.root,
        }
    }
}

/// View, selection and expansion agree.
pub open spec fn nav_same(o: &Session, n: &Session) -> bool {
    &&& n.view == o.view
    &&& n.selected == o.selected
    &&& n.expand_to == o.expand_to
}

/// Status, error and pending delete agree.
pub open spec fn notes_same(o: &Session, n: &Session) -> bool {
    &&& n.status == o.status
    &&& n.error == o.error
    &&& n.pending_delete == o.pending_delete
}

/// The error shown when the root is to be deleted.
pub open spec fn root_delete_error() -> Seq<char> {
    "The scan root itself cannot be deleted from here."@
}

/// The error shown when a delete is asked for while one runs.
pub open spec fn busy_delete_error() -> Seq<char> {
    "A delete is already in progress."@
}

/// The status after a path was copied.
pub open spec fn copied_status(path: Seq<char>) -> Seq<char> {
    "Copied "@ + path
}

impl Session {
    /// Carries out an item action: selection and zoom move the view, open,
    /// reveal and copy hand a node's path to the application, delete asks
    /// for confirmation (never for the root, never while a delete runs).
    pub fn apply_action(&mut self, a: ItemAction) -> (e: Effect)
        requires
            ready(old(self)),
            action_ok(old(self), a),
        ensures
            ready(final(self)),
            same_data(old(self), final(self)),
            match a {
                ItemAction::Select(id) => {
                    &&& final(self).view == old(self).view
                    &&& final(self).selected == Some(id)
                    &&& final(self).expand_to == Some(id)
                    &&& notes_same(old(self), final(self))
                    &&& e is Nothing
                },
                ItemAction::Zoom(id) => {
                    &&& final(self).view == zoom_target(old(self).tree@, id)
                    &&& final(self).selected == Some(id)
                    &&& final(self).expand_to == Some(id)
                    &&& notes_same(old(self), final(self))
                    &&& e is Nothing
                },
                ItemAction::ZoomOut => {
                    &&& match old(self).tree@.nodes[old(self).view as int].parent {
                        Some(p) => {
                            &&& final(self).view == p
                            &&& final(self).selected == Some(old(self).view)
                            &&& final(self).expand_to == Some(old(self).view)
                        },
                        None => nav_same(old(self), final(self)),
                    }
                    &&& notes_same(old(self), final(self))
                    &&& e is Nothing
                },
                ItemAction::Open(id) => {
                    &&& nav_same(old(self), final(self))
                    &&& notes_same(old(self), final(self))
                    &&& e matches Effect::Open(p) && p@ == node_path(old(self).tree@, id as int)
                },
                ItemAction::Reveal(id) => {
                    &&& nav_same(old(self), final(self))
                    &&& notes_same(old(self), final(self))
                    &&& e matches Effect::Reveal(p) && p@ == node_path(old(self).tree@, id as int)
                },
                ItemAction::CopyPath(id) => {
                    &&& nav_same(old(self), final(self))
                    &&& final(self).error == old(self).error
                    &&& final(self).pending_delete == old(self).pending_delete
                    &&& final(self).status@ == copied_status(node_path(old(self).tree@, id as int))
                    &&& e matches Effect::Copy(p) && p@ == node_path(old(self).tree@, id as int)
                },
                ItemAction::Delete(id) => {
                    &&& nav_same(old(self), final(self))
                    &&& final(self).status == old(self).status
                    &&& e is Nothing
                    &&& if id == old(self).tree.root {
                        &&& final(self).error matches Some(m) && m@ == root_delete_error()
                        &&& final(self).pending_delete == old(self).pending_delete
                    } else if old(self).deleting is Some {
                        &&& final(self).error matches Some(m) && m@ == busy_delete_error()
                        &&& final(self).pending_delete == old(self).pending_delete
                    } else {
                        &&& final(self).error == old(self).error
                        &&& final(self).pending_delete == Some(id)
                    }
                },
            },
    {
        match a {
            ItemAction::Select(id) => {
                self.selected = Some(id);
                self.expand_to = Some(id);
                Effect::Nothing
            },
            ItemAction::Zoom(id) => {
                let n = self.tree.node(id);
                let target = if n.is_dir {
                    id
                } else {
                    match n.parent {
                        Some(p) => {
                            proof {
                                lemma_parent_in_tree(self.tree@, id as int);
                            }
                            p
                        },
                        None => self.tree.root,
                    }
                };
                self.view = target;
                self.selected = Some(id);
                self.expand_to = Some(id);
                Effect::Nothing
            },
            ItemAction::ZoomOut => {
                match self.tree.node(self.view).parent {
                    Some(p) => {
                        proof {
                            lemma_parent_in_tree(self.tree@, self.view as int);
                        }
                        self.selected = Some(self.view);
                        self.expand_to = Some(self.view);
                        self.view = p;
                    },
                    None => {},
                }
                Effect::Nothing
            },
            ItemAction::Open(id) => Effect::Open(self.tree.path(id)),
            ItemAction::Reveal(id) => Effect::Reveal(self.tree.path(id)),
            ItemAction::CopyPath(id) => {
                let p = self.tree.path(id);
                let mut text: Vec<char> = Vec::new();
                push_str(&mut text, "Copied ");
                push_str(&mut text, p.as_str());
                self.status = string_from_chars(text.as_slice());
                Effect::Copy(p)
            },
            ItemAction::Delete(id) => {
                if id == self.tree.root {
                    self.set_error(String::from_str("The scan root itself cannot be deleted from here."));
                } else if self.deleting.is_some() {
                    self.set_error(String::from_str("A delete is already in progress."));
                } else {
                    self.pending_delete = Some(id);
                }
                Effect::Nothing
            },
        }
    }
}

} // verus!

verus! {

/// `i64::unsigned_abs`.
pub open spec fn abs64(d: i64) -> u64 {
    if d < 0 {
        (-(d as int)) as u64
    } else {
        d as u64
    }
}

/// The status after a validation that found `s`; `at_text` is the time it
/// finished, as shown to the user.
pub open spec fn validated_status(at_text: Seq<char>, s: DiffSummary) -> Seq<char> {
    if s.added == 0 && s.removed == 0 && s.changed == 0 {
        "Validated at "@ + at_text + ": no changes since snapshot."@
    } else {
        "Validated at "@ + at_text + ": +"@ + decimal(s.added as nat) + " added, -"@ + decimal(
            s.removed as nat,
        ) + " removed, ~"@ + decimal(s.changed as nat) + " changed, "@ + (if s.delta_bytes < 0 {
            "-"@
        } else {
            "+"@
        }) + binary_size_text(abs64(s.delta_bytes)) + " net."@
    }
}

/// A validation reports "no changes" exactly when nothing was added,
/// removed or changed; otherwise it reports the three counts.
pub proof fn law_validated_status(at_text: Seq<char>, s: DiffSummary)
    ensures
        (validated_status(at_text, s) == "Validated at "@ + at_text + ": no changes since snapshot."@) <==> (
        s.added == 0 && s.removed == 0 && s.changed == 0),
        !(s.added == 0 && s.removed == 0 && s.changed == 0) ==> ("Validated at "@ + at_text + ": +"@ + decimal(
            s.added as nat,
        ) + " added, -"@ + decimal(s.removed as nat) + " removed, ~"@ + decimal(s.changed as nat)
            + " changed, "@).is_prefix_of(validated_status(at_text, s)),
{
    reveal_strlit("Validated at ");
    reveal_strlit(": no changes since snapshot.");
    reveal_strlit(": +");
    let pre = "Validated at "@ + at_text;
    let none = pre + ": no changes since snapshot."@;
    let i: int = pre.len() as int + 2;
    assert(none[i] == 'n');
    if !(s.added == 0 && s.removed == 0 && s.changed == 0) {
        let head = "Validated at "@ + at_text + ": +"@ + decimal(s.added as nat) + " added, -"@ + decimal(
            s.removed as nat,
        ) + " removed, ~"@ + decimal(s.changed as nat) + " changed, "@;
        let v = validated_status(at_text, s);
        assert(head =~= v.subrange(0, head.len() as int));
        assert(v[i] == head[i]);
        assert(head[i] == (pre + ": +"@)[i]);
        assert(v[i] == '+');
        assert(v != none);
    }
}

/// The status after `name` of `size` bytes went to the Recycle Bin.
pub open spec fn moved_status(name: Seq<char>, size: u64) -> Seq<char> {
    "Moved "@ + name + " ("@ + binary_size_text(size) + ") to the Recycle Bin."@
}

/// The status of a session made by a full scan that took `secs_text`
/// seconds.
pub open spec fn scanned_status(secs_text: Seq<char>, t: TreeView) -> Seq<char> {
    "Scan finished in "@ + secs_text + "s: "@ + decimal(t.file_count as nat) + " files, "@
        + decimal(t.dir_count as nat) + " folders, "@ + binary_size_text(
        if (t.root as int) < t.nodes.len() {
            t.nodes[t.root as int].size
        } else {
            0
        },
    ) + ". Snapshot saved."@
}

/// The status of a session loaded from a snapshot saved at `time_text`.
pub open spec fn loaded_status(time_text: Seq<char>) -> Seq<char> {
    "Loaded snapshot from "@ + time_text + " — validating in the background…"@
}

/// The directory to show again after `id` is removed: the shown one, or,
/// if it lies inside what is removed, the parent of `id` (the root if none).
pub open spec fn view_after_removal(t: TreeView, view: NodeId, id: NodeId) -> NodeId {
    if ancestry(t.nodes, view as int).contains(id) {
        match t.nodes[id as int].parent {
            Some(p) => p,
            None => t.root,
        }
    } else {
        view
    }
}

/// After a delete the view goes to the directory whose path is that of the
/// parent of the removed node, when the view lay inside what was removed,
/// and otherwise to the directory with the path of the old view: the path
/// `finish_delete` resolves in the new tree finds exactly that directory.
/// This holds when names are plain and siblings distinct ignoring ASCII
/// case.
pub proof fn law_delete_view(t: TreeView, view: NodeId, id: NodeId, b: TreeView)
    requires
        wf(t),
        crate::resolve::plain_names(t),
        crate::resolve::distinct_siblings(t),
        (view as int) < t.nodes.len(),
        (id as int) < t.nodes.len(),
        t.nodes[id as int].parent is Some,
        removal(t, id as int, b),
    ensures
        ({
            let target = if ancestry(t.nodes, view as int).contains(id) {
                t.nodes[id as int].parent.unwrap()
            } else {
                view
            };
            let shown = resolve(b, path_components(node_path(t, view_after_removal(t, view, id) as int)));
            &&& (shown as int) < b.nodes.len()
            &&& node_path(b, shown as int) == node_path(t, target as int)
        }),
{
    let inside = ancestry(t.nodes, view as int).contains(id);
    let target = if inside { t.nodes[id as int].parent.unwrap() } else { view };
    assert(view_after_removal(t, view, id) == target);
    assert(!ancestry(t.nodes, target as int).contains(id)) by {
        if inside {
            let p = t.nodes[id as int].parent.unwrap();
            lemma_parent_in_tree(t, id as int);
            assert(crate::model::chain_ok(t.nodes, id as int));
            crate::model::lemma_parent_depth(t.nodes, id as int);
            crate::resolve::law_ancestry(t, p as int);
            if ancestry(t.nodes, p as int).contains(id) {
                let k = choose|k: int| 0 <= k < ancestry(t.nodes, p as int).len() && ancestry(t.nodes, p as int)[k] == id;
                crate::model::lemma_chain_ok_bounds(t.nodes, p as int);
                crate::model::lemma_chain_shape(t.nodes, p as int, crate::model::depth(t.nodes, p as int));
                crate::edit::lemma_ancestry_distinct(t.nodes, id as int);
                assert(ancestry(t.nodes, id as int) == ancestry(t.nodes, p as int).push(id));
                assert(ancestry(t.nodes, id as int)[k] == ancestry(t.nodes, id as int)[ancestry(t.nodes, p as int).len() as int]);
            }
        }
    }
    if inside {
        lemma_parent_in_tree(t, id as int);
    }
    crate::survivors::law_removal_lookup(t, id as int, b, target as int);
}

/// Everything but the status and the validation agrees.
pub open spec fn same_but_report(o: &Session, n: &Session) -> bool {
    &&& n.root@ == o.root@
    &&& n.tree@ == o.tree@
    &&& n.generation == o.generation
    &&& nav_same(o, n)
    &&& n.pending_delete == o.pending_delete
    &&& n.deleting == o.deleting
    &&& n.snapshot_created_at == o.snapshot_created_at
    &&& n.error == o.error
    &&& n.search_dirty == o.search_dirty
}

/// `-` for a negative byte delta, else `+`, then the size of the delta.
fn delta_text(buf: &mut Vec<char>, d: i64)
    ensures
        final(buf)@ == old(buf)@ + (if d < 0 {
            "-"@
        } else {
            "+"@
        }) + binary_size_text(abs64(d)),
{
    let a: u64 = if d < 0 {
        ((-(d + 1)) as u64) + 1
    } else {
        d as u64
    };
    if d < 0 {
        push_str(buf, "-");
    } else {
        push_str(buf, "+");
    }
    let ghost mid = buf@;
    let size = fmt_size(a);
    push_str(buf, size.as_str());
}

impl Session {
    /// A session made by a full scan: a fresh session created `now`, whose
    /// status reports the counts and size and that the snapshot is saved.
    pub fn scanned(root: String, tree: Tree, now: i64, secs_text: &str) -> (s: Session)
        ensures
            s.root@ == root@,
            s.tree@ == tree@,
            s.generation == 1,
            s.view == tree.root,
            s.selected is None,
            s.validation is NotStarted,
            s.pending_delete is None,
            s.deleting is None,
            s.status@ == scanned_status(secs_text@, tree@),
            s.snapshot_created_at == now,
            s.expand_to is None,
            s.error is None,
            !s.search_dirty,
    {
        let mut text: Vec<char> = Vec::new();
        push_str(&mut text, "Scan finished in ");
        push_str(&mut text, secs_text);
        push_str(&mut text, "s: ");
        push_chars(&mut text, decimal_exec(tree.file_count).as_slice());
        push_str(&mut text, " files, ");
        push_chars(&mut text, decimal_exec(tree.dir_count).as_slice());
        push_str(&mut text, " folders, ");
        let size = fmt_size(tree.total_size());
        push_str(&mut text, size.as_str());
        push_str(&mut text, ". Snapshot saved.");
        let mut s = Session::new(root, tree, now);
        s.status = string_from_chars(text.as_slice());
        s
    }

    /// A session on a snapshot read back from disk, validated in the
    /// background; `time_text` is when the snapshot was last validated (or
    /// else created), as shown to the user.
    pub fn loaded(root: String, tree: Tree, created_at: i64, time_text: &str) -> (s: Session)
        ensures
            s.root@ == root@,
            s.tree@ == tree@,
            s.generation == 1,
            s.view == tree.root,
            s.selected is None,
            s.validation is Running,
            s.pending_delete is None,
            s.deleting is None,
            s.status@ == loaded_status(time_text@),
            s.snapshot_created_at == created_at,
            s.expand_to is None,
            s.error is None,
            !s.search_dirty,
    {
        let mut text: Vec<char> = Vec::new();
        push_str(&mut text, "Loaded snapshot from ");
        push_str(&mut text, time_text);
        push_str(&mut text, " — validating in the background…");
        let mut s = Session::new(root, tree, created_at);
        s.status = string_from_chars(text.as_slice());
        s.validation = Validation::Running;
        s
    }

    /// The snapshot of this session to save: the current format version,
    /// the root, when it was created, the given validation time and the tree.
    pub fn snapshot(&self, validated_at: Option<i64>) -> (s: Snapshot)
        ensures
            s.version == VERSION,
            s.root@ == self.root@,
            s.created_at == self.snapshot_created_at,
            s.validated_at == validated_at,
            s.tree@ == self.tree@,
    {
        Snapshot {
            version: VERSION,
            root: self.root.clone(),
            created_at: self.snapshot_created_at,
            validated_at,
            tree: self.tree.copy(),
        }
    }

    /// When the last validation finished, if one did.
    pub fn validated_at(&self) -> (r: Option<i64>)
        ensures
            r == match self.validation {
                Validation::Done { at, .. } => Some(at),
                _ => None,
            },
    {
        match &self.validation {
            Validation::Done { at, .. } => Some(*at),
            _ => None,
        }
    }

    /// Takes the end of a background validation. A new tree replaces the
    /// old one (see `swap_tree`), the summary is kept with the time `at` it
    /// finished, and the snapshot is to be saved (the result); a failure or
    /// a cancel is reported in the status.
    pub fn finish_validation(&mut self, msg: ScanMsg, at: i64, at_text: &str) -> (save: bool)
        requires
            ready(old(self)),
            msg matches ScanMsg::Done(t) ==> wf(t@),
        ensures
            ready(final(self)),
            match msg {
                ScanMsg::Done(t) => {
                    let summary = summary_of(tree_diff(old(self).tree@, t@));
                    &&& save
                    &&& final(self).tree@ == t@
                    &&& final(self).generation == next_gen(old(self).generation)
                    &&& final(self).view == moved_view(old(self).tree@, t@, old(self).view)
                    &&& final(self).selected == moved_selection(old(self).tree@, t@, old(self).selected)
                    &&& final(self).search_dirty
                    &&& final(self).validation == (Validation::Done { summary, at })
                    &&& final(self).status@ == validated_status(at_text@, summary)
                    &&& same_frame(old(self), final(self))
                },
                ScanMsg::Failed(e) => {
                    &&& !save
                    &&& final(self).status@ == "Validation failed: "@ + e@
                    &&& final(self).validation == Validation::Failed(e)
                    &&& same_but_report(old(self), final(self))
                },
                ScanMsg::Cancelled => {
                    &&& !save
                    &&& final(self).status@ == "Validation cancelled."@
                    &&& final(self).validation is NotStarted
                    &&& same_but_report(old(self), final(self))
                },
            },
    {
        match msg {
            ScanMsg::Done(tree) => {
                let summary = self.swap_tree(tree);
                let mut text: Vec<char> = Vec::new();
                push_str(&mut text, "Validated at ");
                push_str(&mut text, at_text);
                if summary.is_empty() {
                    push_str(&mut text, ": no changes since snapshot.");
                } else {
                    push_str(&mut text, ": +");
                    push_chars(&mut text, decimal_exec(summary.added).as_slice());
                    push_str(&mut text, " added, -");
                    push_chars(&mut text, decimal_exec(summary.removed).as_slice());
                    push_str(&mut text, " removed, ~");
                    push_chars(&mut text, decimal_exec(summary.changed).as_slice());
                    push_str(&mut text, " changed, ");
                    delta_text(&mut text, summary.delta_bytes);
                    push_str(&mut text, " net.");
                }
                self.status = string_from_chars(text.as_slice());
                self.validation = Validation::Done { summary, at };
                true
            },
            ScanMsg::Failed(e) => {
                let mut text: Vec<char> = Vec::new();
                push_str(&mut text, "Validation failed: ");
                push_str(&mut text, e.as_str());
                self.status = string_from_chars(text.as_slice());
                self.validation = Validation::Failed(e);
                false
            },
            ScanMsg::Cancelled => {
                self.status = String::from_str("Validation cancelled.");
                self.validation = Validation::NotStarted;
                false
            },
        }
    }

    /// Takes the end of a move to the Recycle Bin of node `id`. On success
    /// the node is removed from the tree (see `remove_subtree`), the view
    /// goes back to the directory it showed (or to the parent of the
    /// removed node, if it lay inside it), the selection is cleared and the
    /// snapshot is to be saved (the result); a failure shows its error.
    pub fn finish_delete(&mut self, id: NodeId, outcome: Result<(), String>) -> (save: bool)
        requires
            ready(old(self)),
            (id as int) < old(self).tree@.nodes.len(),
        ensures
            ready(final(self)),
            final(self).deleting is None,
            final(self).root@ == old(self).root@,
            final(self).validation == old(self).validation,
            final(self).pending_delete == old(self).pending_delete,
            final(self).snapshot_created_at == old(self).snapshot_created_at,
            final(self).expand_to == old(self).expand_to,
            match outcome {
                Ok(_) => {
                    let t = old(self).tree@;
                    &&& save
                    &&& removal(t, id as int, final(self).tree@)
                    &&& (crate::sizes::sizes_add_up(t) ==> crate::sizes::sizes_add_up(final(self).tree@))
                    &&& final(self).generation == next_gen(old(self).generation)
                    &&& final(self).view == resolve(
                        final(self).tree@,
                        path_components(node_path(t, view_after_removal(t, old(self).view, id) as int)),
                    )
                    &&& final(self).selected is None
                    &&& final(self).search_dirty
                    &&& final(self).status@ == moved_status(t.nodes[id as int].name, t.nodes[id as int].size)
                    &&& final(self).error == old(self).error
                },
                Err(e) => {
                    &&& !save
                    &&& final(self).tree@ == old(self).tree@
                    &&& final(self).generation == old(self).generation
                    &&& nav_same(old(self), final(self))
                    &&& final(self).search_dirty == old(self).search_dirty
                    &&& final(self).status@ == "Delete failed."@
                    &&& final(self).error == Some(e)
                },
            },
    {
        self.deleting = None;
        match outcome {
            Ok(()) => {
                let ghost t = self.tree@;
                let name = self.tree.node(id).name.clone();
                let size = self.tree.node(id).size;
                proof {
                    assert(crate::model::chain_ok(t.nodes, self.view as int));
                }
                let inside = self.tree.is_descendant_of(self.view, id);
                let back = if inside {
                    match self.tree.node(id).parent {
                        Some(p) => {
                            proof {
                                lemma_parent_in_tree(t, id as int);
                            }
                            p
                        },
                        None => self.tree.root,
                    }
                } else {
                    self.view
                };
                assert(back == view_after_removal(t, self.view, id));
                let view_path = self.tree.path(back);
                self.tree.remove_subtree(id);
                self.generation = self.generation.wrapping_add(1);
                self.view = self.tree.resolve_nearest(view_path.as_str());
                self.selected = None;
                self.search_dirty = true;
                let mut text: Vec<char> = Vec::new();
                push_str(&mut text, "Moved ");
                push_str(&mut text, name.as_str());
                push_str(&mut text, " (");
                let size_text = fmt_size(size);
                push_str(&mut text, size_text.as_str());
                push_str(&mut text, ") to the Recycle Bin.");
                self.status = string_from_chars(text.as_slice());
                proof {
                    lemma_resolve_in_bounds(self.tree@, path_components(view_path@));
                }
                true
            },
            Err(e) => {
                self.status = String::from_str("Delete failed.");
                self.set_error(e);
                false
            },
        }
    }

    /// Starts a background rescan: the validation runs again, and the
    /// result says whether the one running before must be cancelled.
    pub fn rescan(&mut self) -> (cancel_running: bool)
        ensures
            cancel_running == (old(self).validation is Running),
            final(self).validation is Running,
            final(self).status@ == "Rescanning in the background…"@,
            same_but_report(old(self), final(self)),
    {
        let running = self.is_scanning();
        self.validation = Validation::Running;
        self.status = String::from_str("Rescanning in the background…");
        running
    }

    /// The user confirmed the pending delete: its node goes to the worker
    /// (the result is the path to move to the Recycle Bin) and nothing is
    /// pending any more.
    pub fn confirm_delete(&mut self) -> (r: Option<String>)
        requires
            ready(old(self)),
            old(self).pending_delete matches Some(id) ==> (id as int) < old(self).tree@.nodes.len(),
        ensures
            ready(final(self)),
            final(self).pending_delete is None,
            match old(self).pending_delete {
                Some(id) => {
                    &&& r matches Some(p) && p@ == node_path(old(self).tree@, id as int)
                    &&& final(self).deleting == Some(id)
                    &&& final(self).status@ == "Moving to the Recycle Bin…"@
                    &&& final(self).root@ == old(self).root@
                    &&& final(self).tree@ == old(self).tree@
                    &&& final(self).generation == old(self).generation
                    &&& final(self).validation == old(self).validation
                    &&& nav_same(old(self), final(self))
                    &&& final(self).error == old(self).error
                    &&& final(self).search_dirty == old(self).search_dirty
                },
                None => {
                    &&& r is None
                    &&& same_data(old(self), final(self))
                    &&& final(self).status == old(self).status
                    &&& final(self).error == old(self).error
                    &&& nav_same(old(self), final(self))
                },
            },
    {
        match self.pending_delete.take() {
            Some(id) => {
                let path = self.tree.path(id);
                self.deleting = Some(id);
                self.status = String::from_str("Moving to the Recycle Bin…");
                Some(path)
            },
            None => None,
        }
    }

    /// The user cancelled the pending delete.
    pub fn cancel_delete(&mut self)
        ensures
            final(self).pending_delete is None,
            same_data(old(self), final(self)),
            nav_same(old(self), final(self)),
            final(self).status == old(self).status,
            final(self).error == old(self).error,
    {
        self.pending_delete = None;
    }

    /// The user dismissed the error.
    pub fn dismiss_error(&mut self)
        ensures
            final(self).error is None,
            same_data(old(self), final(self)),
            nav_same(old(self), final(self)),
            final(self).status == old(self).status,
            final(self).pending_delete == old(self).pending_delete,
    {
        self.error = None;
    }
}

/// Swapping in a tree equal to the current one keeps the view and the
/// selection where they are, when every name below the root is a plain
/// name and no two siblings share a name ignoring ASCII case.
pub proof fn law_swap_same(t: TreeView, view: NodeId, selected: Option<NodeId>)
    requires
        wf(t),
        (view as int) < t.nodes.len(),
        selected matches Some(x) ==> (x as int) < t.nodes.len(),
        crate::resolve::plain_names(t),
        crate::resolve::distinct_siblings(t),
    ensures
        moved_view(t, t, view) == view,
        moved_selection(t, t, selected) == selected,
{
    crate::resolve::law_find_path(t, view as int);
    if let Some(x) = selected {
        crate::resolve::law_find_path(t, x as int);
    }
}

} // verus!
