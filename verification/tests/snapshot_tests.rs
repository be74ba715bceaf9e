use std::collections::hash_map::DefaultHasher;
use std::hash::{Hash, Hasher};
use weight_folders::diff::{diff_summary, DiffSummary};
use weight_folders::model::{Node, NodeId, Tree};
use weight_folders::snapshot::{
    check_version, compress_snapshot, decompress_snapshot, normalize_root, recent_path,
    snapshot_path, touch_recent_list, RecentEntry, Snapshot, MAX_RECENT, VERSION,
};

fn snap_node(name: &str, parent: Option<NodeId>, size: u64, is_dir: bool) -> Node {
    Node { name: name.to_string(), parent, size, mtime: 1, is_dir, children: vec![], error: false }
}

fn snap_tree() -> Tree {
    let mut t = Tree::default();
    t.nodes.push(snap_node("C:\\root", None, 100, true));
    t.nodes.push(snap_node("a", Some(0), 60, true));
    t.nodes.push(snap_node("b", Some(0), 40, true));
    t.nodes.push(snap_node("f1", Some(1), 40, false));
    t.nodes.push(snap_node("f2", Some(1), 20, false));
    t.nodes.push(snap_node("f3", Some(2), 40, false));
    t.nodes[0].children = vec![1, 2];
    t.nodes[1].children = vec![3, 4];
    t.nodes[2].children = vec![5];
    t.file_count = 3;
    t.dir_count = 2;
    t
}

fn snap(version: u32, created_at: i64) -> Snapshot {
    Snapshot { version, root: "C:\\root".to_string(), created_at, validated_at: None, tree: snap_tree() }
}

fn entry(root: &str, created_at: i64) -> RecentEntry {
    RecentEntry { root: root.to_string(), created_at, file_count: 1, total_size: 2 }
}

#[test]
fn round_trip() {
    let s = snap(VERSION, 123);
    let raw: Vec<u8> = b"a serialized snapshot, repeated, repeated, repeated".to_vec();
    let packed = compress_snapshot(&raw).unwrap();
    // a zstd frame starts with its magic number
    assert_eq!(&packed[..4], &[0x28, 0xB5, 0x2F, 0xFD]);
    assert_ne!(packed, raw);
    let unpacked = decompress_snapshot(&packed).unwrap();
    assert_eq!(unpacked, raw);
    let back = check_version(s).unwrap();
    assert_eq!(back.root, "C:\\root");
    assert_eq!(back.tree.nodes.len(), 6);
    assert_eq!(back.tree.total_size(), 100);
    assert_eq!(back.tree.node(1).children, vec![3, 4]);
}

#[test]
fn version_mismatch_rejected() {
    let mut s = snap(VERSION, 0);
    s.version = 99;
    match check_version(s) {
        Err(e) => assert_eq!(e, "snapshot version 99 not supported"),
        Ok(_) => panic!("accepted a snapshot of another version"),
    }
}

#[test]
fn garbage_does_not_decompress() {
    assert!(decompress_snapshot(b"not zstd at all").is_err());
}

#[test]
fn diff_counts() {
    let old = snap_tree();
    assert!(diff_summary(&old, &old).is_empty());

    let mut new = snap_tree();
    // grow f2, remove f3, add f4 under b
    new.nodes[4].size = 25;
    new.nodes[1].size = 65;
    new.nodes[2].children = vec![];
    new.nodes.push(Node {
        name: "f4".into(),
        parent: Some(2),
        size: 7,
        mtime: 1,
        is_dir: false,
        children: vec![],
        error: false,
    });
    new.nodes[2].children = vec![6];
    let d = diff_summary(&old, &new);
    assert_eq!(d.added, 1);
    assert_eq!(d.removed, 1);
    assert_eq!(d.changed, 1);
    assert_eq!(d.delta_bytes, 5 - 40 + 7);
}

#[test]
fn diff_of_a_directory_turned_file_and_of_empty_trees() {
    let old = snap_tree();
    let mut new = snap_tree();
    // `b` becomes a file of 10 bytes: its old subtree (2 items) goes, 1 comes
    new.nodes[2].is_dir = false;
    new.nodes[2].size = 10;
    new.nodes[2].children = vec![];
    let d = diff_summary(&old, &new);
    assert_eq!(d, DiffSummary { added: 1, removed: 2, changed: 0, delta_bytes: -30 });
    // a touched file only changes its mtime
    let mut newer = snap_tree();
    newer.nodes[3].mtime = 9;
    let d = diff_summary(&old, &newer);
    assert_eq!(d, DiffSummary { added: 0, removed: 0, changed: 1, delta_bytes: 0 });
    assert!(diff_summary(&Tree::default(), &old).is_empty());
}

#[test]
fn normalize_keys() {
    assert_eq!(normalize_root("C:\\Foo\\"), "c:\\foo");
    assert_eq!(normalize_root("c:/foo"), "c:\\foo");
    assert_eq!(normalize_root("C:\\"), "c:");
}

#[test]
fn separators_only_keep_their_text() {
    assert_eq!(normalize_root("\\\\"), "\\\\");
    assert_eq!(normalize_root(""), "");
}

#[test]
fn snapshot_files_are_named_by_the_hash_of_the_key() {
    let mut h = DefaultHasher::new();
    "c:\\foo".hash(&mut h);
    let name = format!("{:016x}.snap", h.finish());
    let want = format!("D:\\data\\{}", name);
    assert_eq!(snapshot_path("C:\\FOO\\", Some("D:\\data".to_string())), Some(want.clone()));
    assert_eq!(snapshot_path("c:/foo", Some("D:\\data".to_string())), Some(want));
    assert_eq!(snapshot_path("C:\\foo", None), None);
    assert_eq!(recent_path(Some("D:\\data".to_string())), Some("D:\\data\\recent.json".to_string()));
    assert_eq!(recent_path(None), None);
}

#[test]
fn recent_entries_come_from_snapshots() {
    let mut s = snap(VERSION, 10);
    let e = RecentEntry::from(&s);
    assert_eq!((e.root.as_str(), e.created_at, e.file_count, e.total_size), ("C:\\root", 10, 3, 100));
    assert_eq!(s.shown_at(), 10);
    s.validated_at = Some(20);
    let e = RecentEntry::from(&s);
    assert_eq!(e.created_at, 20);
    assert_eq!(s.shown_at(), 20);
}

#[test]
fn touching_the_recent_list() {
    let list = vec![entry("C:\\a", 1), entry("D:\\", 2), entry("c:/A/", 3), entry("E:\\x", 4)];
    let out = touch_recent_list(list, entry("C:\\A", 9));
    let roots: Vec<&str> = out.iter().map(|e| e.root.as_str()).collect();
    assert_eq!(roots, vec!["C:\\A", "D:\\", "E:\\x"]);
    assert_eq!(out[0].created_at, 9);

    let many: Vec<RecentEntry> = (0..30).map(|i| entry(&format!("C:\\d{i}"), i)).collect();
    let out = touch_recent_list(many, entry("C:\\new", 99));
    assert_eq!(out.len(), MAX_RECENT);
    assert_eq!(out[0].root, "C:\\new");
    assert_eq!(out[1].root, "C:\\d0");
    assert_eq!(out[19].root, "C:\\d18");
}

#[test]
fn the_net_change_is_the_change_of_the_total() {
    let old = snap_tree();
    let mut new = snap_tree();
    // f2 grows by 5 and f3 is replaced by f4 of 7 bytes: sizes updated up the tree
    new.nodes[4].size = 25;
    new.nodes[1].size = 65;
    new.nodes[5].name = "f4".into();
    new.nodes[5].size = 7;
    new.nodes[2].size = 7;
    new.nodes[0].size = 72;
    let d = diff_summary(&old, &new);
    assert_eq!(d.delta_bytes, 72 - 100);
    assert_eq!((d.added, d.removed, d.changed), (1, 1, 1));
}

#[test]
fn root_keys_ignore_case_slashes_and_trailing_separators() {
    let key = normalize_root("C:\\Foo\\Bar");
    assert_eq!(key, "c:\\foo\\bar");
    assert_eq!(normalize_root("c:/FOO/bar"), key);
    assert_eq!(normalize_root("C:\\foo/BAR\\/\\"), key);
    assert!(!key.contains('/') && !key.ends_with('\\'));
    assert!(!key.chars().any(|c| c.is_ascii_uppercase()));
}

#[test]
fn diff_the_other_way_round() {
    let old = snap_tree();
    let mut new = snap_tree();
    new.nodes[4].size = 25;
    new.nodes[1].size = 65;
    new.nodes.push(Node { name: "f4".into(), parent: Some(2), size: 7, mtime: 1, is_dir: false, children: vec![], error: false });
    new.nodes[2].children = vec![6];
    // `a` becomes a file in the new tree
    new.nodes[1].is_dir = false;
    new.nodes[1].children = vec![];
    let x = diff_summary(&old, &new);
    let y = diff_summary(&new, &old);
    assert_eq!(x.added, y.removed);
    assert_eq!(x.removed, y.added);
    assert_eq!(x.changed, y.changed);
    assert_eq!(x.delta_bytes, -y.delta_bytes);
    assert!(x.added > 0 && x.removed > 0);
}
