use weight_folders::model::{fmt_size, unix_secs, Node, NodeId, Tree};

fn model_node(name: &str, parent: Option<NodeId>, size: u64, is_dir: bool) -> Node {
    Node { name: name.to_string(), parent, size, mtime: 0, is_dir, children: vec![], error: false }
}

// root(100) -> a(60){ f1(40), f2(20) }, b(40){ f3(40) }
fn model_tree() -> Tree {
    let mut t = Tree::default();
    t.nodes.push(model_node("C:\\root", None, 100, true)); // 0
    t.nodes.push(model_node("a", Some(0), 60, true)); // 1
    t.nodes.push(model_node("b", Some(0), 40, true)); // 2
    t.nodes.push(model_node("f1", Some(1), 40, false)); // 3
    t.nodes.push(model_node("f2", Some(1), 20, false)); // 4
    t.nodes.push(model_node("f3", Some(2), 40, false)); // 5
    t.nodes[0].children = vec![1, 2];
    t.nodes[1].children = vec![3, 4];
    t.nodes[2].children = vec![5];
    t.file_count = 3;
    t.dir_count = 2;
    t
}

#[test]
fn path_and_find() {
    let t = model_tree();
    let p = t.path(4);
    assert_eq!(p, "C:\\root\\a\\f2");
    assert_eq!(t.find_by_path(&p), Some(4));
    assert_eq!(t.find_by_path("C:\\root\\A\\F2"), Some(4));
    assert_eq!(t.find_by_path("C:\\root\\zzz"), None);
    assert_eq!(t.find_by_path("C:\\root"), Some(0));
    assert_eq!(t.resolve_nearest("C:\\root\\a\\nope\\x"), 1);
    assert_eq!(t.resolve_nearest("D:\\elsewhere"), 0);
}

#[test]
fn remove_subtree_updates_sizes_and_compacts() {
    let mut t = model_tree();
    assert!(t.remove_subtree(3)); // remove f1 (40)
    assert_eq!(t.total_size(), 60);
    let a = t.find_by_path("C:\\root\\a").unwrap();
    assert_eq!(t.node(a).size, 20);
    assert_eq!(t.nodes.len(), 5);
    assert_eq!(t.file_count, 2);
    assert!(!t.remove_subtree(t.root));
    let b = t.find_by_path("C:\\root\\b").unwrap();
    assert!(t.remove_subtree(b));
    assert_eq!(t.total_size(), 20);
    assert_eq!(t.dir_count, 1);
    assert_eq!(t.file_count, 1);
    // every child still points back to its parent
    for (i, n) in t.nodes.iter().enumerate() {
        for &c in &n.children {
            assert_eq!(t.nodes[c as usize].parent, Some(i as NodeId));
        }
    }
}

#[test]
fn counts() {
    let t = model_tree();
    assert_eq!(t.count_items(0), (3, 2));
    assert_eq!(t.count_items(1), (2, 0));
    assert_eq!(t.ancestors(4), vec![0, 1, 4]);
    assert!(t.is_descendant_of(4, 1));
    assert!(!t.is_descendant_of(5, 1));
}

#[test]
fn every_path_finds_its_node() {
    let t = model_tree();
    for id in 0..t.nodes.len() as NodeId {
        let p = t.path(id);
        assert_eq!(t.find_by_path(&p), Some(id));
        assert_eq!(t.resolve_nearest(&p), id);
    }
}

#[test]
fn paths_on_drive_roots_and_mixed_separators() {
    let mut t = model_tree();
    t.nodes[0].name = "C:\\".to_string();
    assert_eq!(t.path(5), "C:\\b\\f3");
    assert_eq!(t.find_by_path("c:/B/f3"), Some(5));
    assert_eq!(t.find_by_path("C:\\b\\f3\\"), Some(5));
    assert_eq!(t.find_by_path("C:\\.\\b"), Some(2));
    t.nodes[0].name = "C:".to_string();
    assert_eq!(t.path(1), "C:a");
}

#[test]
fn removal_lands_on_the_parent_totals() {
    let mut t = model_tree();
    assert!(t.remove_subtree(1));
    assert_eq!(t.total_size(), 40);
    assert_eq!(t.nodes.len(), 3);
    assert_eq!(t.file_count, 1);
    assert_eq!(t.dir_count, 1);
    assert!(t.is_well_formed());
    assert_eq!(t.path(2), "C:\\root\\b\\f3");
}

#[test]
fn sorting_orders_children_by_size_stably() {
    let mut t = model_tree();
    t.nodes[4].size = 40;
    t.sort_children_by_size();
    assert_eq!(t.node(1).children, vec![3, 4]);
    t.nodes[4].size = 50;
    t.sort_children_by_size();
    assert_eq!(t.node(1).children, vec![4, 3]);
    assert_eq!(t.node(0).children, vec![1, 2]);
}

#[test]
fn copies_are_equal() {
    let t = model_tree();
    let c = t.copy();
    assert_eq!(c.nodes.len(), t.nodes.len());
    for (x, y) in c.nodes.iter().zip(t.nodes.iter()) {
        assert_eq!(x.name, y.name);
        assert_eq!(x.children, y.children);
        assert_eq!(x.parent, y.parent);
        assert_eq!(x.size, y.size);
    }
    assert_eq!(c.file_count, 3);
    assert_eq!(c.root, 0);
}

#[test]
fn well_formedness_check() {
    let t = model_tree();
    assert!(t.is_well_formed());
    assert!(!Tree::default().is_well_formed());

    let mut bad = model_tree();
    bad.nodes[2].children = vec![5, 5];
    assert!(!bad.is_well_formed());

    let mut bad = model_tree();
    bad.nodes[2].children = vec![9];
    assert!(!bad.is_well_formed());

    let mut bad = model_tree();
    bad.nodes[1].children = vec![3];
    assert!(!bad.is_well_formed());

    let mut bad = model_tree();
    bad.nodes[5].parent = Some(1);
    assert!(!bad.is_well_formed());

    // two nodes that are each other's parent, off to the side
    let mut bad = model_tree();
    bad.nodes.push(model_node("x", Some(7), 0, true));
    bad.nodes.push(model_node("y", Some(6), 0, true));
    bad.nodes[6].children = vec![7];
    bad.nodes[7].children = vec![6];
    assert!(!bad.is_well_formed());
}

#[test]
fn total_size_of_an_empty_tree() {
    assert_eq!(Tree::default().total_size(), 0);
}

#[test]
fn sizes_in_binary_units() {
    assert_eq!(fmt_size(0), "0 B");
    assert_eq!(fmt_size(100), "100 B");
    assert_eq!(fmt_size(1024), "1 KiB");
    assert_eq!(fmt_size(1536), "1.50 KiB");
    assert_eq!(fmt_size(3 * 1024 * 1024), "3 MiB");
}

#[test]
fn clock_readings() {
    assert_eq!(unix_secs(Some(5)), 5);
    assert_eq!(unix_secs(None), 0);
    assert_eq!(unix_secs(Some(u64::MAX)), -1);
    assert!(weight_folders::model::now_unix() > 1_600_000_000);
}

fn sizes_add_up(t: &Tree) -> bool {
    t.nodes.iter().all(|n| {
        if n.is_dir {
            n.size == n.children.iter().map(|&c| t.nodes[c as usize].size).sum::<u64>()
        } else {
            n.children.is_empty()
        }
    })
}

#[test]
fn directory_sizes_keep_adding_up() {
    let mut t = model_tree();
    assert!(sizes_add_up(&t));
    assert!(t.remove_subtree(4));
    assert!(sizes_add_up(&t));
    assert_eq!(t.total_size(), 80);
    let b = t.find_by_path("C:\\root\\b").unwrap();
    assert!(t.remove_subtree(b));
    assert!(sizes_add_up(&t));
    assert_eq!(t.total_size(), 40);
    t.sort_children_by_size();
    assert!(sizes_add_up(&t));
}

fn counters_agree(t: &Tree) -> bool {
    let files = t.nodes.iter().filter(|n| !n.is_dir).count() as u64;
    let dirs = t.nodes.iter().filter(|n| n.is_dir).count() as u64;
    let errors = t.nodes.iter().filter(|n| n.error).count() as u32;
    t.file_count == files && t.dir_count + 1 == dirs && t.error_count == errors
}

#[test]
fn counters_follow_the_nodes_after_removals() {
    let mut t = model_tree();
    // an unreadable folder under b
    t.nodes.push(Node { name: "locked".to_string(), parent: Some(2), size: 0, mtime: 0, is_dir: true, children: vec![], error: true });
    t.nodes[2].children.push(6);
    t.dir_count = 3;
    t.error_count = 1;
    assert!(counters_agree(&t));
    assert!(t.remove_subtree(1)); // folder a with two files
    assert!(counters_agree(&t));
    assert_eq!((t.file_count, t.dir_count, t.error_count), (1, 2, 1));
    let locked = t.find_by_path("C:\\root\\b\\locked").unwrap();
    assert!(t.remove_subtree(locked));
    assert!(counters_agree(&t));
    assert_eq!((t.file_count, t.dir_count, t.error_count), (1, 1, 0));
}

#[test]
fn error_counter_drops_unreadable_folders_deeper_down() {
    // removing b also removes the unreadable folder below it from the count
    let mut t = model_tree();
    t.nodes.push(Node { name: "locked".to_string(), parent: Some(2), size: 0, mtime: 0, is_dir: true, children: vec![], error: true });
    t.nodes[2].children.push(6);
    t.dir_count = 3;
    t.error_count = 1;
    assert!(t.remove_subtree(2));
    assert_eq!((t.file_count, t.dir_count, t.error_count), (2, 1, 0));
    assert!(counters_agree(&t));
}

#[test]
fn removal_keeps_the_paths_of_what_stays() {
    let t0 = model_tree();
    let mut before: Vec<String> = (0..t0.nodes.len() as NodeId)
        .filter(|&i| !t0.is_descendant_of(i, 1))
        .map(|i| t0.path(i))
        .collect();
    let mut t = t0.clone();
    assert!(t.remove_subtree(1));
    let mut after: Vec<String> = (0..t.nodes.len() as NodeId).map(|i| t.path(i)).collect();
    before.sort();
    after.sort();
    assert_eq!(before, after);
    assert_eq!(t.nodes.len(), t0.nodes.len() - 3);
    let b = t.find_by_path("C:\\root\\b").unwrap();
    assert_eq!(t.node(b).size, 40);
    assert_eq!(t.total_size(), 40);
}
