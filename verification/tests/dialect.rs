use tref::{Forest, Model, NodeContent, Text};

#[derive(Debug)]
enum TypedNode {
    Text(String),
    Number(String, u32),
}

impl NodeContent for TypedNode {
    // The three that follow are for proofs only and are never run.
    fn accepts(_content: Text) -> bool {
        unreachable!()
    }

    fn reads(_content: Text) -> Text {
        unreachable!()
    }

    fn raw(&self) -> Text {
        unreachable!()
    }

    fn new(content: &str) -> Option<Self> {
        match content.trim().parse() {
            Ok(num) => Some(Self::Number(String::from(content), num)),
            Err(_) => Some(Self::Text(String::from(content))),
        }
    }

    fn get_content(&self) -> &String {
        match self {
            Self::Text(t) => t,
            Self::Number(t, _) => t,
        }
    }
}

/// A payload that declines texts that hold a question mark.
#[derive(Debug)]
struct Sure(String);

impl NodeContent for Sure {
    // The three that follow are for proofs only and are never run.
    fn accepts(_content: Text) -> bool {
        unreachable!()
    }

    fn reads(_content: Text) -> Text {
        unreachable!()
    }

    fn raw(&self) -> Text {
        unreachable!()
    }

    fn new(content: &str) -> Option<Self> {
        if content.contains('?') {
            None
        } else {
            Some(Sure(String::from(content)))
        }
    }

    fn get_content(&self) -> &String {
        &self.0
    }
}

fn lines(text: &str) -> Vec<String> {
    text.lines().map(String::from).collect()
}

#[test]
fn parse_dialect() {
    let tref = "[test_tree]\n\
    + root\n\
    + + child\n\
    + + + 2500\n\
    + + + 130\n";

    match Model::<TypedNode>::parse(&lines(tref)) {
        Ok(forest) => {
            if let Some(tree) = forest.tree("test_tree") {
                let mut walker = tree.iter();
                let mut i = 0;
                while let Some((n, _)) = walker.next() {
                    match i {
                        0 => {
                            if !n.get_content_ref().get_content().eq("root") {
                                panic!("Wrong root content")
                            }
                            if let TypedNode::Number(_, _) = n.get_content_ref() {
                                panic!("Wrong root node type")
                            }
                        }
                        1 => {
                            if !n.get_content_ref().get_content().eq("child") {
                                panic!("Wrong child content");
                            }
                            if let TypedNode::Number(_, _) = n.get_content_ref() {
                                panic!("Wrong child node type")
                            }
                        }
                        2 => {
                            if !n.get_content_ref().get_content().eq("2500") {
                                panic!("Wrong 2500 content");
                            }
                            if let TypedNode::Text(_) = n.get_content_ref() {
                                panic!("Wrong 1500 node type")
                            }
                        }
                        3 => {
                            if !n.get_content_ref().get_content().eq("130") {
                                panic!("Wrong 130 content");
                            }
                            if let TypedNode::Text(_) = n.get_content_ref() {
                                panic!("Wrong 130 node type")
                            }
                        }
                        _ => {
                            panic!("Invalid node index");
                        }
                    }
                    i += 1;
                }
                assert_eq!(i, 4);
            } else {
                panic!("Failed getting tree");
            }
        }
        Err(e) => {
            panic!("Failed parsing document: {}", e.to_string());
        }
    }
}

#[test]
fn declined_root_stops_reading() {
    let e = Model::<Sure>::parse(&lines("[t]\n+ root?\n")).unwrap_err();
    assert_eq!(e.line(), 2);
    assert_eq!(e.message(), "Failed parsing root node");
}

#[test]
fn declined_node_stops_reading() {
    let e = Model::<Sure>::parse(&lines("[t]\n+ root\n+ + fine\n\n+ + fine?\n")).unwrap_err();
    assert_eq!(e.line(), 5);
    assert_eq!(e.message(), "Failed parsing node");
    assert_eq!(e.to_string(), "`Failed parsing node` at line 5");
}

#[test]
fn declined_text_is_not_linked() {
    let mut forest: Forest<Sure> = Forest::empty();
    forest.new_tree("t");
    assert_eq!(forest.set_root("t", "r?"), Err(String::from("Failed parsing root node")));
    assert_eq!(forest.set_root("t", "r"), Ok(0));
    assert_eq!(forest.link_node("t", 0, "a?"), Err(String::from("Failed parsing node")));
    assert_eq!(forest.link_node("t", 0, "a"), Ok(1));
    assert_eq!(forest.get_tree("t").unwrap().get_nodes_len(), 2);
}

#[test]
fn changes_keep_the_payloads_of_the_other_nodes() {
    let mut forest: Forest<TypedNode> = Forest::empty();
    forest.new_tree("t");
    forest.set_root("t", "top").unwrap();
    forest.link_node("t", 0, "12").unwrap();
    forest.link_node("t", 0, "word").unwrap();
    forest.link_node("t", 1, "7").unwrap();
    forest.unlink_node("t", 2).unwrap();
    forest.new_tree("u");
    forest.set_root("u", "3").unwrap();
    forest.rebuild_levels();
    let tree = forest.get_tree("t").unwrap();
    let top = tree.get_node(0).unwrap().get_content_ref();
    assert!(matches!(top, TypedNode::Text(t) if t == "top"));
    assert!(matches!(tree.get_node(1).unwrap().get_content_ref(), TypedNode::Number(_, 12)));
    let word = tree.get_node(2).unwrap().get_content_ref();
    assert!(matches!(word, TypedNode::Text(t) if t == "word"));
    assert!(matches!(tree.get_node(3).unwrap().get_content_ref(), TypedNode::Number(_, 7)));
    let other = forest.get_tree("u").unwrap();
    assert!(matches!(other.get_node(0).unwrap().get_content_ref(), TypedNode::Number(_, 3)));
}
