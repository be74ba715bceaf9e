use weight_folders::scan::{build_tree, tree_of_walk, DirResult, FileEntry};

fn file(name: &str, size: u64) -> FileEntry {
    FileEntry { name: name.to_string(), size, mtime: 7 }
}

fn dir(name: &str, files: Vec<FileEntry>, subdirs: Vec<DirResult>) -> DirResult {
    DirResult::listed(name.to_string(), 3, files, subdirs).unwrap()
}

// root: top.txt(100), a/{one.bin(1000), deep/{two.bin(2000)}}, b/{three.bin(300)}, empty/
fn walk() -> DirResult {
    let deep = dir("deep", vec![file("two.bin", 2000)], vec![]);
    let a = dir("a", vec![file("one.bin", 1000)], vec![deep]);
    let b = dir("b", vec![file("three.bin", 300)], vec![]);
    let empty = dir("empty", vec![], vec![]);
    dir("C:\\scan", vec![file("top.txt", 100)], vec![a, b, empty])
}

#[test]
fn directory_sizes_add_up() {
    let w = walk();
    assert_eq!(w.size, 3400);
    assert_eq!(w.subdirs[0].size, 3000);
    assert!(!w.error);
}

#[test]
fn building_a_tree_from_a_walk() {
    let tree = build_tree(&walk());
    assert_eq!(tree.total_size(), 3400);
    assert_eq!(tree.file_count, 4);
    assert_eq!(tree.dir_count, 4);
    assert_eq!(tree.error_count, 0);
    assert_eq!(tree.root, 0);
    let a = tree.find_by_path("C:\\scan\\a").unwrap();
    assert_eq!(tree.node(a).size, 3000);
    assert!(tree.node(a).is_dir);
    // children sorted by size desc
    let sizes: Vec<u64> = tree.node(tree.root).children.iter().map(|&c| tree.node(c).size).collect();
    assert_eq!(sizes, vec![3000, 300, 100, 0]);
    let two = tree.find_by_path("C:\\scan\\a\\deep\\two.bin").unwrap();
    assert_eq!(tree.node(two).mtime, 7);
    assert!(!tree.node(two).is_dir);
    assert!(tree.is_well_formed());
    assert_eq!(tree.path(two), "C:\\scan\\a\\deep\\two.bin");
    for n in &tree.nodes {
        if n.is_dir {
            let sum: u64 = n.children.iter().map(|&c| tree.node(c).size).sum();
            assert_eq!(n.size, sum);
        } else {
            assert!(n.children.is_empty());
        }
    }
}

#[test]
fn unreadable_directories_are_counted() {
    let locked = DirResult::unreadable("locked".to_string(), 5);
    assert!(locked.error);
    assert_eq!(locked.size, 0);
    let root = dir("D:\\", vec![], vec![locked]);
    let tree = build_tree(&root);
    assert_eq!(tree.error_count, 1);
    assert_eq!(tree.dir_count, 1);
    assert_eq!(tree.file_count, 0);
    let l = tree.find_by_path("D:\\locked").unwrap();
    assert!(tree.node(l).error);
}

#[test]
fn sizes_that_do_not_fit_are_refused() {
    let big = vec![file("x", u64::MAX), file("y", 1)];
    assert!(DirResult::listed("r".to_string(), 0, big, vec![]).is_none());
    let fits = vec![file("x", u64::MAX - 1), file("y", 1)];
    assert_eq!(DirResult::listed("r".to_string(), 0, fits, vec![]).unwrap().size, u64::MAX);
}

#[test]
fn walks_that_fit_become_trees() {
    let t = tree_of_walk(&walk()).unwrap();
    assert_eq!(t.nodes.len(), 9);
    assert_eq!(t.total_size(), 3400);
}
