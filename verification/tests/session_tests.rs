use weight_folders::diff::DiffSummary;
use weight_folders::model::{Node, NodeId, Tree};
use weight_folders::session::{Effect, ItemAction, ScanMsg, Session, Validation};
use weight_folders::snapshot::VERSION;

fn sess_node(name: &str, parent: Option<NodeId>, size: u64, is_dir: bool) -> Node {
    Node { name: name.to_string(), parent, size, mtime: 0, is_dir, children: vec![], error: false }
}

// root(100) -> a(60){ f1(40), f2(20) }, b(40){ f3(40) }
fn sess_tree() -> Tree {
    let mut t = Tree::default();
    t.nodes.push(sess_node("C:\\root", None, 100, true));
    t.nodes.push(sess_node("a", Some(0), 60, true));
    t.nodes.push(sess_node("b", Some(0), 40, true));
    t.nodes.push(sess_node("f1", Some(1), 40, false));
    t.nodes.push(sess_node("f2", Some(1), 20, false));
    t.nodes.push(sess_node("f3", Some(2), 40, false));
    t.nodes[0].children = vec![1, 2];
    t.nodes[1].children = vec![3, 4];
    t.nodes[2].children = vec![5];
    t.file_count = 3;
    t.dir_count = 2;
    t
}

fn session() -> Session {
    Session::new("C:\\root".to_string(), sess_tree(), 50)
}

#[test]
fn a_new_session_shows_the_root() {
    let s = session();
    assert_eq!(s.view, 0);
    assert_eq!(s.generation, 1);
    assert!(s.selected.is_none());
    assert!(!s.is_scanning());
    assert!(matches!(s.validation, Validation::NotStarted));
}

#[test]
fn selecting_and_zooming() {
    let mut s = session();
    assert!(matches!(s.apply_action(ItemAction::Select(4)), Effect::Nothing));
    assert_eq!((s.view, s.selected, s.expand_to), (0, Some(4), Some(4)));
    s.apply_action(ItemAction::Zoom(4));
    assert_eq!((s.view, s.selected), (1, Some(4)));
    s.apply_action(ItemAction::Zoom(2));
    assert_eq!(s.view, 2);
    s.apply_action(ItemAction::ZoomOut);
    assert_eq!((s.view, s.selected, s.expand_to), (0, Some(2), Some(2)));
    s.apply_action(ItemAction::ZoomOut);
    assert_eq!(s.view, 0);
}

#[test]
fn paths_go_to_the_application() {
    let mut s = session();
    match s.apply_action(ItemAction::Open(5)) {
        Effect::Open(p) => assert_eq!(p, "C:\\root\\b\\f3"),
        _ => panic!("expected an open"),
    }
    match s.apply_action(ItemAction::Reveal(1)) {
        Effect::Reveal(p) => assert_eq!(p, "C:\\root\\a"),
        _ => panic!("expected a reveal"),
    }
    match s.apply_action(ItemAction::CopyPath(3)) {
        Effect::Copy(p) => assert_eq!(p, "C:\\root\\a\\f1"),
        _ => panic!("expected a copy"),
    }
    assert_eq!(s.status, "Copied C:\\root\\a\\f1");
}

#[test]
fn deleting_asks_first_and_never_the_root() {
    let mut s = session();
    s.apply_action(ItemAction::Delete(0));
    assert_eq!(s.error.as_deref(), Some("The scan root itself cannot be deleted from here."));
    assert!(s.pending_delete.is_none());
    s.dismiss_error();
    assert!(s.error.is_none());
    s.apply_action(ItemAction::Delete(3));
    assert_eq!(s.pending_delete, Some(3));
    s.cancel_delete();
    assert!(s.pending_delete.is_none());
    s.apply_action(ItemAction::Delete(3));
    assert_eq!(s.confirm_delete(), Some("C:\\root\\a\\f1".to_string()));
    assert_eq!(s.deleting, Some(3));
    assert!(s.pending_delete.is_none());
    assert_eq!(s.status, "Moving to the Recycle Bin…");
    s.apply_action(ItemAction::Delete(4));
    assert_eq!(s.error.as_deref(), Some("A delete is already in progress."));
    assert_eq!(s.confirm_delete(), None);
}

#[test]
fn a_finished_delete_removes_the_node() {
    let mut s = session();
    s.apply_action(ItemAction::Zoom(3));
    assert_eq!(s.view, 1);
    s.apply_action(ItemAction::Delete(1));
    s.confirm_delete();
    assert!(s.finish_delete(1, Ok(())));
    assert!(s.deleting.is_none());
    assert_eq!(s.tree.total_size(), 40);
    assert_eq!(s.tree.nodes.len(), 3);
    // the shown directory was inside: the view goes to the root
    assert_eq!(s.view, 0);
    assert!(s.selected.is_none());
    assert_eq!(s.generation, 2);
    assert!(s.search_dirty);
    assert_eq!(s.status, "Moved a (60 B) to the Recycle Bin.");
}

#[test]
fn a_failed_delete_keeps_the_tree() {
    let mut s = session();
    s.apply_action(ItemAction::Delete(5));
    s.confirm_delete();
    assert!(!s.finish_delete(5, Err("in use".to_string())));
    assert_eq!(s.tree.nodes.len(), 6);
    assert_eq!(s.status, "Delete failed.");
    assert_eq!(s.error.as_deref(), Some("in use"));
    assert!(s.deleting.is_none());
}

#[test]
fn validation_outcomes() {
    let mut s = session();
    s.apply_action(ItemAction::Zoom(4));
    assert!(!s.rescan());
    assert!(s.is_scanning());
    assert_eq!(s.status, "Rescanning in the background…");
    assert!(s.rescan());

    // the same tree again: nothing changed
    assert!(s.finish_validation(ScanMsg::Done(sess_tree()), 77, "today"));
    assert_eq!(s.status, "Validated at today: no changes since snapshot.");
    assert!(matches!(s.validation, Validation::Done { at: 77, .. }));
    assert_eq!(s.validated_at(), Some(77));
    assert_eq!((s.view, s.selected), (1, Some(4)));

    // a tree without `f2` and with `a` shrunk
    let mut smaller = sess_tree();
    smaller.nodes[1].children = vec![3];
    smaller.nodes[0].size = 80;
    smaller.nodes[1].size = 40;
    smaller.nodes.truncate(4);
    smaller.nodes[1].children = vec![3];
    smaller.nodes[0].children = vec![1, 2];
    smaller.nodes.push(sess_node("f3", Some(2), 40, false));
    smaller.nodes[2].children = vec![4];
    smaller.file_count = 2;
    assert!(s.finish_validation(ScanMsg::Done(smaller), 78, "later"));
    assert_eq!(s.status, "Validated at later: +0 added, -1 removed, ~0 changed, -20 B net.");
    match s.validation {
        Validation::Done { summary, at } => {
            assert_eq!(at, 78);
            assert_eq!(summary, DiffSummary { added: 0, removed: 1, changed: 0, delta_bytes: -20 });
        }
        _ => panic!("expected a finished validation"),
    }
    // the view stays on `a`, the selection (f2) is gone
    assert_eq!((s.view, s.selected), (1, None));

    assert!(!s.finish_validation(ScanMsg::Failed("disk gone".to_string()), 0, ""));
    assert_eq!(s.status, "Validation failed: disk gone");
    assert!(!s.finish_validation(ScanMsg::Cancelled, 0, ""));
    assert_eq!(s.status, "Validation cancelled.");
    assert!(matches!(s.validation, Validation::NotStarted));
}

#[test]
fn sessions_from_scans_and_snapshots() {
    let s = Session::scanned("C:\\root".to_string(), sess_tree(), 99, "1.5");
    assert_eq!(s.status, "Scan finished in 1.5s: 3 files, 2 folders, 100 B. Snapshot saved.");
    assert_eq!(s.snapshot_created_at, 99);
    let snap = s.snapshot(None);
    assert_eq!(snap.version, VERSION);
    assert_eq!(snap.created_at, 99);
    assert_eq!(snap.tree.nodes.len(), 6);
    let l = Session::loaded("C:\\root".to_string(), snap.tree, snap.created_at, "yesterday");
    assert_eq!(l.status, "Loaded snapshot from yesterday — validating in the background…");
    assert!(l.is_scanning());
    let mut l = l;
    l.set_error("boom".to_string());
    assert_eq!(l.error.as_deref(), Some("boom"));
}
