use weight_folders::model::{Node, NodeId, Tree};
use weight_folders::treemap::{dir_rgb, file_size_range, lighten_rgb, pick_deepest};

fn map_node(name: &str, parent: Option<NodeId>, size: u64, is_dir: bool) -> Node {
    Node { name: name.to_string(), parent, size, mtime: 0, is_dir, children: vec![], error: false }
}

#[test]
fn only_children_with_bytes_get_a_rectangle() {
    let mut t = Tree::default();
    t.nodes.push(map_node("C:\\r", None, 10, true));
    t.nodes.push(map_node("a", Some(0), 0, false));
    t.nodes.push(map_node("b", Some(0), 7, false));
    t.nodes.push(map_node("c", Some(0), 3, true));
    t.nodes[0].children = vec![1, 2, 3];
    assert_eq!(t.visible_children(0), vec![2, 3]);
    assert!(t.visible_children(1).is_empty());
}

#[test]
fn the_color_range_of_shown_files() {
    assert_eq!(file_size_range(&vec![]), (0, 0));
    assert_eq!(file_size_range(&vec![5]), (5, 5));
    assert_eq!(file_size_range(&vec![40, 3, 900, 7]), (3, 900));
}

#[test]
fn directory_shades_and_hover_tint() {
    assert_eq!(dir_rgb(0), (48, 52, 58));
    assert_eq!(dir_rgb(2), (68, 72, 78));
    assert_eq!(dir_rgb(6), (108, 112, 118));
    assert_eq!(dir_rgb(200), (108, 112, 118));
    assert_eq!(lighten_rgb((10, 240, 255), 35), (45, 255, 255));
}

#[test]
fn the_deepest_rectangle_wins() {
    assert_eq!(pick_deepest(&vec![]), None);
    assert_eq!(pick_deepest(&vec![(0, 4), (1, 7), (1, 9), (0, 2)]), Some(7));
    assert_eq!(pick_deepest(&vec![(2, 5)]), Some(5));
}
