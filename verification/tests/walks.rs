use tref::iter::level_iters;
use tref::iter::{BfsIter, InvBfsIter};
use tref::{Forest, Model, NodeContent, SimpleNode, TreeModel};

fn lines(text: &str) -> Vec<String> {
    text.lines().map(String::from).collect()
}

const SAMPLE: &str = "[test_tree]\n\
+ root_node\n\
+ + child_1\n\
+ + child_2\n\
+ + + child_2_1\n\
+ + + + child_2_1_1\n\
+ + + child_2_2\n\
+ + child_3\n";

fn text_of(found: Option<(&tref::TreeNode<SimpleNode>, usize)>) -> Option<(String, usize)> {
    found.map(|(n, p)| (n.get_content_ref().get_content().clone(), p))
}

fn sequential(tree: &TreeModel<SimpleNode>) -> Vec<(String, usize)> {
    let mut w = tree.iter();
    let mut out = Vec::new();
    while let Some(x) = text_of(w.next()) {
        out.push(x);
    }
    out
}

fn inv_sequential(tree: &TreeModel<SimpleNode>) -> Vec<(String, usize)> {
    let mut w = tree.inv_iter();
    let mut out = Vec::new();
    while let Some(x) = text_of(w.next()) {
        out.push(x);
    }
    out
}

fn bfs(tree: &TreeModel<SimpleNode>) -> Vec<(String, usize)> {
    let mut w = tree.bfs_iter();
    let mut out = Vec::new();
    while let Some(x) = text_of(w.next()) {
        out.push(x);
    }
    out
}

fn inv_bfs(tree: &TreeModel<SimpleNode>) -> Vec<(String, usize)> {
    let mut w = tree.inv_bfs_iter();
    let mut out = Vec::new();
    while let Some(x) = text_of(w.next()) {
        out.push(x);
    }
    out
}

fn queue_bfs(tree: &TreeModel<SimpleNode>) -> Vec<(String, usize)> {
    let mut w = BfsIter::new(tree);
    let mut out = Vec::new();
    while let Some(x) = text_of(w.next()) {
        out.push(x);
    }
    out
}

fn queue_inv_bfs(tree: &TreeModel<SimpleNode>) -> Vec<(String, usize)> {
    let mut w = InvBfsIter::new(tree);
    let mut out = Vec::new();
    while let Some(x) = text_of(w.next()) {
        out.push(x);
    }
    out
}

fn index_bfs(tree: &TreeModel<SimpleNode>) -> Vec<(String, usize)> {
    let mut w = level_iters::BfsIter::new(tree);
    let mut out = Vec::new();
    while let Some(x) = text_of(w.next()) {
        out.push(x);
    }
    out
}

fn index_inv_bfs(tree: &TreeModel<SimpleNode>) -> Vec<(String, usize)> {
    let mut w = level_iters::InvBfsIter::new(tree);
    let mut out = Vec::new();
    while let Some(x) = text_of(w.next()) {
        out.push(x);
    }
    out
}

fn inv_lev_bfs(tree: &TreeModel<SimpleNode>) -> Vec<(String, usize)> {
    let mut w = tree.inv_lev_bfs_iter();
    let mut out = Vec::new();
    while let Some(x) = text_of(w.next()) {
        out.push(x);
    }
    out
}

fn pre_dfs(tree: &TreeModel<SimpleNode>) -> Vec<(String, usize)> {
    let mut w = tree.pre_dfs_iter();
    let mut out = Vec::new();
    while let Some(x) = text_of(w.next()) {
        out.push(x);
    }
    out
}

fn inv_pre_dfs(tree: &TreeModel<SimpleNode>) -> Vec<(String, usize)> {
    let mut w = tree.inv_pre_dfs_iter();
    let mut out = Vec::new();
    while let Some(x) = text_of(w.next()) {
        out.push(x);
    }
    out
}

fn post_dfs(tree: &TreeModel<SimpleNode>) -> Vec<(String, usize)> {
    let mut w = tree.post_dfs_iter();
    let mut out = Vec::new();
    while let Some(x) = text_of(w.next()) {
        out.push(x);
    }
    out
}

fn inv_post_dfs(tree: &TreeModel<SimpleNode>) -> Vec<(String, usize)> {
    let mut w = tree.inv_post_dfs_iter();
    let mut out = Vec::new();
    while let Some(x) = text_of(w.next()) {
        out.push(x);
    }
    out
}

fn texts(found: &[(String, usize)]) -> Vec<&str> {
    found.iter().map(|(t, _)| t.as_str()).collect()
}

fn positions(found: &[(String, usize)]) -> Vec<usize> {
    found.iter().map(|(_, p)| *p).collect()
}

#[test]
fn sample_has_seven_nodes_in_document_order() {
    let forest = <Model>::parse(&lines(SAMPLE)).unwrap();
    let tree = forest.tree("test_tree").unwrap();
    let found = sequential(&tree);
    assert_eq!(
        texts(&found),
        vec!["root_node", "child_1", "child_2", "child_2_1", "child_2_1_1", "child_2_2", "child_3"]
    );
    assert_eq!(positions(&found), vec![0, 1, 2, 3, 4, 5, 6]);
    assert_eq!(forest.get_tree("test_tree").unwrap().get_nodes_len(), 7);
    assert_eq!(positions(&inv_sequential(&tree)), vec![6, 5, 4, 3, 2, 1, 0]);
}

#[test]
fn sample_breadth_first_order() {
    let forest = <Model>::parse(&lines(SAMPLE)).unwrap();
    let tree = forest.tree("test_tree").unwrap();
    let found = bfs(&tree);
    assert_eq!(
        texts(&found),
        vec!["root_node", "child_1", "child_2", "child_3", "child_2_1", "child_2_2", "child_2_1_1"]
    );
    assert_eq!(positions(&found), vec![0, 1, 2, 6, 3, 5, 4]);
    assert_eq!(positions(&inv_bfs(&tree)), vec![0, 6, 2, 1, 5, 3, 4]);
}

#[test]
fn sample_root_has_three_children() {
    let forest = <Model>::parse(&lines(SAMPLE)).unwrap();
    let tree = forest.get_tree("test_tree").unwrap();
    let root = tree.get_node(0).unwrap();
    assert_eq!(root.get_children_ref(), &vec![1, 2, 6]);
    assert_eq!(root.get_num_children(), 3);
    assert_eq!(root.get_level(), 1);
    assert_eq!(root.get_parent_position(), None);
    assert_eq!(root.get_parent_children_pos(), None);
    let names: Vec<&str> = root
        .get_children_ref()
        .iter()
        .map(|c| tree.get_node(*c).unwrap().get_content_ref().get_content().as_str())
        .collect();
    assert_eq!(names, vec!["child_1", "child_2", "child_3"]);
    let deep = tree.get_node(4).unwrap();
    assert_eq!(deep.get_level(), 4);
    assert_eq!(deep.get_parent_position(), Some(3));
    assert_eq!(deep.get_parent_children_pos(), Some(0));
    let last = tree.get_node(6).unwrap();
    assert_eq!(last.get_parent_position(), Some(0));
    assert_eq!(last.get_parent_children_pos(), Some(2));
    assert!(tree.get_node(7).is_none());
    assert_eq!(tree.last_pos(), 6);
}

#[test]
fn sample_depth_first_orders() {
    let forest = <Model>::parse(&lines(SAMPLE)).unwrap();
    let tree = forest.tree("test_tree").unwrap();
    assert_eq!(positions(&pre_dfs(&tree)), vec![0, 1, 2, 3, 4, 5, 6]);
    assert_eq!(positions(&inv_pre_dfs(&tree)), vec![0, 6, 2, 5, 3, 4, 1]);
    assert_eq!(positions(&post_dfs(&tree)), vec![1, 4, 3, 5, 2, 6, 0]);
    assert_eq!(positions(&inv_post_dfs(&tree)), vec![6, 5, 4, 3, 2, 1, 0]);
    assert_eq!(
        texts(&post_dfs(&tree)),
        vec!["child_1", "child_2_1_1", "child_2_1", "child_2_2", "child_2", "child_3", "root_node"]
    );
}

#[test]
fn built_tree_in_pre_order() {
    let mut forest: Forest<SimpleNode> = Forest::empty();
    forest.new_tree("my_tree");
    let root = forest.set_root("my_tree", "root_node").unwrap();
    let node_1 = forest.link_node("my_tree", root, "node_1").unwrap();
    let _node_2 = forest.link_node("my_tree", root, "node_2").unwrap();
    let node_3 = forest.link_node("my_tree", root, "node_3").unwrap();
    let _node_3_1 = forest.link_node("my_tree", node_3, "node_3_1").unwrap();
    let _node_1_1 = forest.link_node("my_tree", node_1, "node_1_1").unwrap();
    let _node_1_2 = forest.link_node("my_tree", node_1, "node_1_2").unwrap();
    let tree = forest.tree("my_tree").unwrap();
    let found = pre_dfs(&tree);
    assert_eq!(
        texts(&found),
        vec!["root_node", "node_1", "node_1_1", "node_1_2", "node_2", "node_3", "node_3_1"]
    );
    assert_eq!(positions(&found), vec![0, 1, 5, 6, 2, 3, 4]);
    assert_eq!(positions(&sequential(&tree)), vec![0, 1, 2, 3, 4, 5, 6]);
    assert_eq!(positions(&bfs(&tree)), vec![0, 1, 2, 3, 5, 6, 4]);
    assert_eq!(positions(&inv_bfs(&tree)), vec![0, 3, 2, 1, 4, 6, 5]);
    assert_eq!(positions(&post_dfs(&tree)), vec![5, 6, 1, 2, 4, 3, 0]);
    assert_eq!(positions(&inv_post_dfs(&tree)), vec![4, 3, 2, 6, 5, 1, 0]);
    assert_eq!(positions(&inv_pre_dfs(&tree)), vec![0, 3, 4, 2, 1, 6, 5]);
    assert!(inv_lev_bfs(&tree).is_empty());
    assert!(index_bfs(&tree).is_empty());
    let mut sink = Vec::new();
    assert!(forest.serialize(&mut sink));
    assert_eq!(
        String::from_utf8(sink).unwrap(),
        "[my_tree]\n+ root_node\n+ + node_1\n+ + + node_1_1\n+ + + node_1_2\n+ + node_2\n+ + node_3\n+ + + node_3_1\n"
    );
}

#[test]
fn level_index_gives_level_order() {
    let text = "[t]\n+ a\n+ + b\n+ + + c\n+ + + d\n+ + e\n+ + + f\n+ + + + g\n+ + h\n";
    let with_index = Forest::<SimpleNode>::build_levels(&lines(text)).unwrap();
    let without = Forest::<SimpleNode>::build(&lines(text)).unwrap();
    let indexed = with_index.tree("t").unwrap();
    let plain = without.tree("t").unwrap();
    assert!(indexed.get_levels().is_some());
    assert!(plain.get_levels().is_none());
    let expected = vec![0, 1, 4, 7, 2, 3, 5, 6];
    assert_eq!(positions(&index_bfs(&indexed)), expected);
    assert_eq!(positions(&queue_bfs(&indexed)), expected);
    assert_eq!(positions(&bfs(&indexed)), expected);
    assert_eq!(positions(&bfs(&plain)), expected);
    let mirrored = vec![0, 7, 4, 1, 5, 3, 2, 6];
    assert_eq!(positions(&index_inv_bfs(&indexed)), mirrored);
    assert_eq!(positions(&queue_inv_bfs(&indexed)), mirrored);
    assert_eq!(positions(&inv_bfs(&indexed)), mirrored);
    assert_eq!(positions(&inv_bfs(&plain)), mirrored);
    assert_eq!(positions(&inv_lev_bfs(&indexed)), vec![6, 2, 3, 5, 1, 4, 7, 0]);
    let levels = indexed.get_levels().unwrap();
    assert_eq!(levels.len(), 4);
    assert_eq!(levels[0].level, 1);
    assert_eq!(levels[1].node_positions, vec![1, 4, 7]);
    assert_eq!(levels[3].level, 4);
    assert_eq!(levels[3].node_positions, vec![6]);
}

#[test]
fn level_index_is_not_kept_up() {
    let text = "[t]\n+ a\n+ + b\n+ + c\n";
    let mut forest = Forest::<SimpleNode>::build_levels(&lines(text)).unwrap();
    forest.link_node("t", 1, "d").unwrap();
    forest.unlink_node("t", 2).unwrap();
    let tree = forest.tree("t").unwrap();
    assert_eq!(positions(&bfs(&tree)), vec![0, 1, 2]);
    assert_eq!(positions(&index_bfs(&tree)), vec![0, 1, 2]);
    assert_eq!(positions(&queue_bfs(&tree)), vec![0, 1, 3]);
    assert_eq!(positions(&sequential(&tree)), vec![0, 1, 2, 3]);
}

#[test]
fn rebuilt_level_index_gives_level_order() {
    let text = "[t]\n+ a\n+ + b\n+ + c\n[u]\n+ x\n";
    let mut forest = Forest::<SimpleNode>::build(&lines(text)).unwrap();
    forest.link_node("t", 1, "d").unwrap();
    forest.link_node("t", 0, "e").unwrap();
    forest.link_node("t", 2, "f").unwrap();
    forest.unlink_node("t", 1).unwrap();
    assert!(forest.tree("t").unwrap().get_levels().is_none());
    forest.rebuild_levels();
    {
        let tree = forest.tree("t").unwrap();
        let levels = tree.get_levels().unwrap();
        assert_eq!(levels.len(), 3);
        assert_eq!(levels[0].node_positions, vec![0]);
        assert_eq!(levels[1].node_positions, vec![2, 4]);
        assert_eq!(levels[2].node_positions, vec![5]);
        assert_eq!(levels[2].level, 3);
        assert_eq!(positions(&index_bfs(&tree)), vec![0, 2, 4, 5]);
        assert_eq!(positions(&queue_bfs(&tree)), vec![0, 2, 4, 5]);
        assert_eq!(positions(&bfs(&tree)), vec![0, 2, 4, 5]);
        assert_eq!(positions(&index_inv_bfs(&tree)), vec![0, 4, 2, 5]);
        assert_eq!(positions(&queue_inv_bfs(&tree)), vec![0, 4, 2, 5]);
        assert_eq!(positions(&inv_lev_bfs(&tree)), vec![5, 2, 4, 0]);
        let other = forest.tree("u").unwrap();
        assert_eq!(positions(&index_bfs(&other)), vec![0]);
    }
    forest.new_tree("v");
    forest.rebuild_levels();
    assert!(forest.tree("v").unwrap().get_levels().unwrap().is_empty());
    assert_eq!(forest.len(), 3);
}

#[test]
fn read_tree_is_in_pre_order() {
    let text = "[t]\n+ a\n+ + b\n+ + + c\n+ + + d\n+ + e\n+ + + f\n+ + + + g\n+ + h\n";
    let forest = <Model>::parse(&lines(text)).unwrap();
    let tree = forest.tree("t").unwrap();
    assert_eq!(pre_dfs(&tree), sequential(&tree));
    assert_eq!(texts(&pre_dfs(&tree)), vec!["a", "b", "c", "d", "e", "f", "g", "h"]);
}

#[test]
fn unlinked_subtree_is_out_of_reach() {
    let mut forest = <Model>::parse(&lines(SAMPLE)).unwrap();
    let path = vec![String::from("root_node"), String::from("child_2"), String::from("child_2_1")];
    let deeper = vec![
        String::from("root_node"),
        String::from("child_2"),
        String::from("child_2_1"),
        String::from("child_2_1_1"),
    ];
    assert_eq!(forest.find_node("test_tree", path.clone()), Some(3));
    assert_eq!(forest.find_node("test_tree", deeper.clone()), Some(4));
    assert_eq!(forest.unlink_node("test_tree", 2), Ok(2));
    {
        let tree = forest.tree("test_tree").unwrap();
        assert_eq!(positions(&pre_dfs(&tree)), vec![0, 1, 6]);
        assert_eq!(positions(&inv_pre_dfs(&tree)), vec![0, 6, 1]);
        assert_eq!(positions(&post_dfs(&tree)), vec![1, 6, 0]);
        assert_eq!(positions(&inv_post_dfs(&tree)), vec![6, 1, 0]);
        assert_eq!(positions(&bfs(&tree)), vec![0, 1, 6]);
        assert_eq!(positions(&inv_bfs(&tree)), vec![0, 6, 1]);
        assert_eq!(positions(&sequential(&tree)), vec![0, 1, 2, 3, 4, 5, 6]);
    }
    assert_eq!(forest.find_node("test_tree", path), None);
    assert_eq!(forest.find_node("test_tree", deeper), None);
    let kept = vec![String::from("root_node"), String::from("child_3")];
    assert_eq!(forest.find_node("test_tree", kept), Some(6));
    let tree = forest.get_tree("test_tree").unwrap();
    assert_eq!(tree.get_node(0).unwrap().get_children_ref(), &vec![1, 6]);
    assert_eq!(tree.get_node(6).unwrap().get_parent_children_pos(), Some(1));
    assert_eq!(tree.get_node(2).unwrap().get_children_ref(), &vec![3, 5]);
}

#[test]
fn empty_tree_gives_nothing() {
    let mut forest: Forest<SimpleNode> = Forest::empty();
    forest.new_tree("t");
    let tree = forest.tree("t").unwrap();
    assert!(sequential(&tree).is_empty());
    assert!(inv_sequential(&tree).is_empty());
    assert!(bfs(&tree).is_empty());
    assert!(inv_bfs(&tree).is_empty());
    assert!(pre_dfs(&tree).is_empty());
    assert!(inv_pre_dfs(&tree).is_empty());
    assert!(post_dfs(&tree).is_empty());
    assert!(inv_post_dfs(&tree).is_empty());
    assert!(inv_lev_bfs(&tree).is_empty());
    assert!(forest.tree("other").is_none());
    let mut with_levels: Forest<SimpleNode> = Forest::empty_with_levels();
    with_levels.new_tree("t");
    let tree = with_levels.tree("t").unwrap();
    assert!(bfs(&tree).is_empty());
    assert!(inv_bfs(&tree).is_empty());
    assert!(inv_lev_bfs(&tree).is_empty());
}

#[test]
fn walker_gives_nothing_after_the_end() {
    let forest = <Model>::parse(&lines("[t]\n+ a\n+ + b\n")).unwrap();
    let tree = forest.tree("t").unwrap();
    let mut w = tree.post_dfs_iter();
    assert_eq!(text_of(w.next()), Some((String::from("b"), 1)));
    assert_eq!(text_of(w.next()), Some((String::from("a"), 0)));
    assert_eq!(text_of(w.next()), None);
    assert_eq!(text_of(w.next()), None);
    let mut w = tree.bfs_iter();
    assert!(w.next().is_some());
    assert!(w.next().is_some());
    assert!(w.next().is_none());
    assert!(w.next().is_none());
    let mut w = tree.inv_iter();
    assert!(w.next().is_some());
    assert!(w.next().is_some());
    assert!(w.next().is_none());
    assert!(w.next().is_none());
}
