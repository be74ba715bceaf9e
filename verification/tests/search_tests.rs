use weight_folders::model::{Node, NodeId, Tree};
use weight_folders::search::{run_search, wild_match, Kind, MAX_RESULTS};

#[test]
fn wildcards() {
    assert!(wild_match("*.rs", "main.rs"));
    assert!(!wild_match("*.rs", "main.rsx"));
    assert!(wild_match("ma?n.*", "main.rs"));
    assert!(wild_match("*", "anything"));
    assert!(wild_match("a*b*c", "axxbyyc"));
    assert!(!wild_match("a*b*c", "axxbyy"));
    assert!(wild_match("*target*", "my target dir"));
    assert!(!wild_match("abc", "abcd"));
}

#[test]
fn wildcard_edges() {
    assert!(wild_match("", ""));
    assert!(!wild_match("", "a"));
    assert!(wild_match("***", ""));
    assert!(!wild_match("?", ""));
    assert!(wild_match("?", "x"));
    assert!(wild_match("*a", "banana"));
    assert!(!wild_match("*a", "bananas"));
    assert!(wild_match("a*a*a", "aaa"));
    assert!(wild_match("*ab*ab", "xabyabab"));
    // a star in the text is taken as a literal by a star in the pattern
    assert!(!wild_match("*a", "*ba"));
}

fn search_node(name: &str, parent: Option<NodeId>, size: u64, is_dir: bool) -> Node {
    Node { name: name.to_string(), parent, size, mtime: 0, is_dir, children: vec![], error: false }
}

fn tree() -> Tree {
    let mut t = Tree::default();
    t.nodes.push(search_node("C:\\Data", None, 1000, true)); // 0
    t.nodes.push(search_node("Photos", Some(0), 600, true)); // 1
    t.nodes.push(search_node("photo1.JPG", Some(1), 400, false)); // 2
    t.nodes.push(search_node("photo2.jpg", Some(1), 200, false)); // 3
    t.nodes.push(search_node("notes.txt", Some(0), 400, false)); // 4
    t.nodes[0].children = vec![1, 4];
    t.nodes[1].children = vec![2, 3];
    t.file_count = 3;
    t.dir_count = 1;
    t
}

#[test]
fn searching_by_substring_and_pattern() {
    let t = tree();
    let r = run_search(&t, "  PHOTO ", Kind::All, 0);
    assert_eq!(r.applied, "PHOTO");
    assert_eq!(r.results, vec![1, 2, 3]);
    assert_eq!(r.total_matches, 3);

    let r = run_search(&t, "*.jpg", Kind::All, 0);
    assert_eq!(r.results, vec![2, 3]);

    let r = run_search(&t, "photo", Kind::Folders, 0);
    assert_eq!(r.results, vec![1]);

    let r = run_search(&t, "o", Kind::Files, 300);
    // ties keep arena order: photo1.JPG (2) before notes.txt (4)
    assert_eq!(r.results, vec![2, 4]);
    assert_eq!(r.total_matches, 2);
}

#[test]
fn an_empty_query_finds_nothing_and_the_root_is_never_found() {
    let t = tree();
    let r = run_search(&t, "   ", Kind::All, 0);
    assert_eq!(r.applied, "");
    assert!(r.results.is_empty());
    assert_eq!(r.total_matches, 0);
    let r = run_search(&t, "data", Kind::All, 0);
    assert!(r.results.is_empty());
}

#[test]
fn results_are_capped() {
    let mut t = Tree::default();
    t.nodes.push(search_node("C:\\big", None, 0, true));
    for i in 0..1500u64 {
        t.nodes.push(search_node(&format!("f{i}"), Some(0), i, false));
        t.nodes[0].children.push((i + 1) as NodeId);
    }
    let r = run_search(&t, "f", Kind::All, 0);
    assert_eq!(r.total_matches, 1500);
    assert_eq!(r.results.len(), MAX_RESULTS);
    assert_eq!(r.results[0], 1500);
    assert_eq!(r.results[MAX_RESULTS - 1], 501);
}

#[test]
fn star_empty_and_literal_patterns() {
    assert!(wild_match("*", "anything at all"));
    assert!(wild_match("*", ""));
    assert!(wild_match("", ""));
    assert!(!wild_match("", "a"));
    assert!(wild_match("abc", "abc"));
    assert!(!wild_match("abc", "abcd"));
    assert!(!wild_match("abc", "ab"));
    // a name that itself starts with `*` is consumed literally first
    assert!(!wild_match("*", "*x"));
}
