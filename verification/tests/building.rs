use tref::{Forest, NodeContent, NodeStack, NodeStackContent, SimpleNode, Tree, TreeNode};

#[test]
fn forest_reports_unknown_tree() {
    let mut forest: Forest<SimpleNode> = Forest::empty();
    assert_eq!(forest.set_root("nope", "r"), Err(String::from("Tree ID not found")));
    assert_eq!(forest.link_node("nope", 0, "r"), Err(String::from("Tree ID not found")));
    assert_eq!(forest.unlink_node("nope", 0), Err(String::from("Tree ID not found")));
    assert_eq!(forest.find_node("nope", vec![String::from("r")]), None);
    assert!(forest.tree("nope").is_none());
    assert!(forest.get_tree("nope").is_none());
    assert_eq!(forest.position("nope"), None);
    assert_eq!(forest.len(), 0);
}

#[test]
fn forest_reports_bad_positions() {
    let mut forest: Forest<SimpleNode> = Forest::empty();
    forest.new_tree("t");
    assert_eq!(forest.link_node("t", 0, "x"), Err(String::from("Node index not found")));
    assert_eq!(forest.set_root("t", "r"), Ok(0));
    assert_eq!(forest.set_root("t", "again"), Err(String::from("Failed parsing root node")));
    assert_eq!(forest.link_node("t", 1, "x"), Err(String::from("Node index not found")));
    assert_eq!(forest.link_node("t", 0, "a"), Ok(1));
    assert_eq!(forest.link_node("t", 0, "b"), Ok(2));
    assert_eq!(forest.link_node("t", 1, "c"), Ok(3));
    assert_eq!(forest.unlink_node("t", 9), Err(String::from("Node index not found")));
    assert_eq!(forest.unlink_node("t", 0), Err(String::from("Trying to unlink the root node")));
    assert_eq!(forest.unlink_node("t", 1), Ok(1));
    assert_eq!(
        forest.unlink_node("t", 1),
        Err(String::from("Node not found in parent node children array"))
    );
    assert_eq!(forest.unlink_node("t", 3), Ok(3));
    assert_eq!(forest.unlink_node("t", 2), Ok(2));
    let tree = forest.get_tree("t").unwrap();
    assert_eq!(tree.get_nodes_len(), 4);
    assert!(tree.get_node(0).unwrap().get_children_ref().is_empty());
    assert!(tree.get_node(1).unwrap().get_children_ref().is_empty());
}

#[test]
fn unlinking_moves_later_siblings_left() {
    let mut tree: Tree<SimpleNode> = Tree::new();
    assert_eq!(tree.set_root("r"), Some(0));
    for name in ["a", "b", "c", "d"] {
        tree.link_node(name, 0).unwrap();
    }
    assert_eq!(tree.unlink_node(2), Some(2));
    assert_eq!(tree.get_node(0).unwrap().get_children_ref(), &vec![1, 3, 4]);
    assert_eq!(tree.get_node(1).unwrap().get_parent_children_pos(), Some(0));
    assert_eq!(tree.get_node(3).unwrap().get_parent_children_pos(), Some(1));
    assert_eq!(tree.get_node(4).unwrap().get_parent_children_pos(), Some(2));
    assert_eq!(tree.unlink_node(4), Some(4));
    assert_eq!(tree.unlink_node(3), Some(3));
    assert_eq!(tree.get_node(0).unwrap().get_children_ref(), &vec![1]);
    assert_eq!(tree.link_node("e", 0), Some(5));
    assert_eq!(tree.get_node(0).unwrap().get_children_ref(), &vec![1, 5]);
    assert_eq!(tree.get_node(5).unwrap().get_parent_children_pos(), Some(1));
    assert_eq!(tree.unlink_node(0), None);
    assert_eq!(tree.unlink_node(2), None);
    assert_eq!(tree.unlink_node(17), None);
}

#[test]
fn tree_grows_by_one_position() {
    let mut tree: Tree<SimpleNode> = Tree::new();
    assert_eq!(tree.get_nodes_len(), 0);
    assert_eq!(tree.link_node("x", 0), None);
    assert!(!tree.add_root_node("r") == false);
    assert!(!tree.add_root_node("again"));
    assert_eq!(tree.set_root("again"), None);
    assert_eq!(tree.get_nodes_len(), 1);
    assert_eq!(tree.link_node("a", 0), Some(1));
    assert_eq!(tree.link_node("b", 1), Some(2));
    assert_eq!(tree.link_node("c", 3), None);
    assert_eq!(tree.get_nodes_len(), 3);
    let b = tree.get_node(2).unwrap();
    assert_eq!(b.get_level(), 3);
    assert_eq!(b.get_parent_position(), Some(1));
    assert_eq!(b.get_parent_children_pos(), Some(0));
    assert_eq!(b.get_content_ref().get_content(), "b");
    assert_eq!(tree.last_pos(), 2);
    let payload = SimpleNode::new("p").unwrap();
    assert_eq!(tree.link_payload(payload, 0), Some(3));
    assert_eq!(tree.get_node(0).unwrap().get_children_ref(), &vec![1, 3]);
    let mut other: Tree<SimpleNode> = Tree::new();
    assert_eq!(other.set_root_payload(SimpleNode::new("q").unwrap()), Some(0));
    assert_eq!(other.set_root_payload(SimpleNode::new("q").unwrap()), None);
}

#[test]
fn find_takes_the_first_of_equal_names() {
    let mut tree: Tree<SimpleNode> = Tree::new();
    tree.set_root("r").unwrap();
    tree.link_node("a", 0).unwrap();
    tree.link_node("a", 0).unwrap();
    tree.link_node("x", 1).unwrap();
    tree.link_node("y", 2).unwrap();
    let path = |names: &[&str]| names.iter().map(|n| String::from(*n)).collect::<Vec<String>>();
    assert_eq!(tree.find_node(&path(&["r"])), Some(0));
    assert_eq!(tree.find_node(&path(&["r", "a"])), Some(1));
    assert_eq!(tree.find_node(&path(&["r", "a", "x"])), Some(3));
    assert_eq!(tree.find_node(&path(&["r", "a", "y"])), None);
    assert_eq!(tree.find_node(&path(&["a"])), None);
    assert_eq!(tree.find_node(&path(&[])), None);
    assert_eq!(tree.find_child(0, &String::from("a")), Some(1));
    assert_eq!(tree.find_child(0, &String::from("b")), None);
    assert_eq!(tree.find_child(9, &String::from("a")), None);
    tree.unlink_node(1).unwrap();
    assert_eq!(tree.find_node(&path(&["r", "a"])), Some(2));
    assert_eq!(tree.find_node(&path(&["r", "a", "y"])), Some(4));
    assert_eq!(tree.find_node(&path(&["r", "a", "x"])), None);
    let empty: Tree<SimpleNode> = Tree::new();
    assert_eq!(empty.find_node(&path(&["r"])), None);
}

#[test]
fn new_tree_replaces_a_tree_of_that_name() {
    let mut forest: Forest<SimpleNode> = Forest::empty_with_levels();
    forest.new_tree("a");
    forest.new_tree("b");
    forest.set_root("a", "r").unwrap();
    forest.link_node("a", 0, "c").unwrap();
    assert_eq!(forest.get_tree("a").unwrap().get_nodes_len(), 2);
    forest.new_tree("a");
    assert_eq!(forest.len(), 2);
    assert_eq!(forest.position("a"), Some(0));
    assert_eq!(forest.position("b"), Some(1));
    assert_eq!(forest.name_at(1), "b");
    assert_eq!(forest.get_tree("a").unwrap().get_nodes_len(), 0);
    assert_eq!(forest.tree_at(0).get_nodes_len(), 0);
    assert!(forest.model_at(0).get_levels().unwrap().is_empty());
    assert_eq!(forest.set_root("a", "s"), Ok(0));
}

#[test]
fn node_is_made_from_text() {
    let node: TreeNode<SimpleNode> = TreeNode::new("text", 3, Some(1), Some(0)).unwrap();
    assert_eq!(node.get_content_ref().get_content(), "text");
    assert_eq!(node.get_level(), 3);
    assert_eq!(node.get_parent_position(), Some(1));
    assert_eq!(node.get_parent_children_pos(), Some(0));
    assert_eq!(node.get_num_children(), 0);
    let root: TreeNode<SimpleNode> = TreeNode::new_root("top").unwrap();
    assert_eq!(root.get_level(), 1);
    assert_eq!(root.get_parent_position(), None);
    assert_eq!(root.get_parent_children_pos(), None);
    let made = TreeNode::with_payload(SimpleNode::new("p").unwrap(), 2, Some(0), Some(4));
    assert_eq!(made.get_content_ref().get_content(), "p");
    assert_eq!(made.get_parent_children_pos(), Some(4));
}

#[test]
fn stack_finds_the_parent() {
    let mut stack = NodeStack::new();
    assert!(stack.top().is_none());
    assert!(stack.pop().is_none());
    assert!(stack.pop_parent(2).is_none());
    stack.push_new(1, 0);
    stack.push(NodeStackContent::new(2, 1));
    stack.push_new(3, 2);
    stack.push_new(4, 3);
    assert_eq!(stack.top().unwrap().level, 4);
    assert_eq!(stack.top().unwrap().tree_position, 3);
    let parent = stack.pop_parent(3).unwrap();
    assert_eq!(parent.level, 2);
    assert_eq!(parent.tree_position, 1);
    assert_eq!(stack.top().unwrap().level, 1);
    stack.push(parent);
    stack.push_new(3, 4);
    let parent = stack.pop_parent(4).unwrap();
    assert_eq!(parent.tree_position, 4);
    assert_eq!(stack.pop().unwrap().tree_position, 1);
    assert!(stack.pop_parent(1).is_none());
    assert!(stack.top().is_none());
    stack.push_new(1, 0);
    stack.push_new(2, 1);
    stack.flush();
    assert!(stack.top().is_none());
}
