use tref::{Forest, Model, NodeContent, SimpleNode};

fn lines(text: &str) -> Vec<String> {
    text.lines().map(String::from).collect()
}

fn tref_sample() -> Vec<String> {
    let tref = "[test_tree]\n\
    + root_node\n\
    + + child_1\n\
    + + child_2\n\
    + + + child_2_1\n\
    + + + + child_2_1_1\n\
    + + + child_2_2\n\
    + + child_3\n";
    lines(tref)
}

fn sequential_contents(forest: &Forest<SimpleNode>, tree_id: &str) -> Vec<String> {
    let tree = forest.tree(tree_id).expect("Failed geting tree");
    let mut walker = tree.iter();
    let mut contents = Vec::new();
    while let Some((n, _)) = walker.next() {
        contents.push(n.get_content_ref().get_content().clone());
    }
    contents
}

#[test]
fn parse_valid_tref() {
    match <Model>::parse(&tref_sample()) {
        Ok(forest) => {
            if let Some(tree) = forest.tree("test_tree") {
                let mut walker = tree.iter();
                let mut i = 0;
                while let Some((n, _)) = walker.next() {
                    match i {
                        0 => {
                            if !n.get_content_ref().get_content().eq("root_node") {
                                panic!("Wrong root_node content")
                            }
                        }
                        1 => {
                            if !n.get_content_ref().get_content().eq("child_1") {
                                panic!("Wrong child_1 content");
                            }
                        }
                        2 => {
                            if !n.get_content_ref().get_content().eq("child_2") {
                                panic!("Wrong child_2 content");
                            }
                        }
                        3 => {
                            if !n.get_content_ref().get_content().eq("child_2_1") {
                                panic!("Wrong child_2_1 content");
                            }
                        }
                        4 => {
                            if !n.get_content_ref().get_content().eq("child_2_1_1") {
                                panic!("Wrong child_2_1_1 content");
                            }
                        }
                        5 => {
                            if !n.get_content_ref().get_content().eq("child_2_2") {
                                panic!("Wrong child_2_2 content");
                            }
                        }
                        6 => {
                            if !n.get_content_ref().get_content().eq("child_3") {
                                panic!("Wrong child_3 content");
                            }
                        }
                        _ => {}
                    }
                    i += 1;
                }
                assert_eq!(i, 7);
            } else {
                panic!("Failed geting tree");
            }
        }
        Err(e) => {
            panic!("Failed parsing document: {}", e.to_string());
        }
    }
}

#[test]
fn parse_missing_tree_id() {
    let tref = "+ root_node\n\
    + + child_1\n\
    + + child_2\n";

    if let Ok(_) = <Model>::parse(&lines(tref)) {
        panic!("Parsed without tree id");
    }
}

#[test]
fn parse_invalid_statement() {
    let tref = "  [test_tree]\n\
    + root_node\n\
    + + child_1\n\
    + + child_2\n";

    if let Ok(_) = <Model>::parse(&lines(tref)) {
        panic!("Parsed an invalid statement");
    }
}

#[test]
fn parse_invalid_level() {
    let tref = "[test_tree]\n\
    + root_node\n\
    + + + child_1\n\
    + + child_2\n";

    if let Ok(_) = <Model>::parse(&lines(tref)) {
        panic!("Parsed an invalid level");
    }
}

#[test]
fn serialize_valid_tref() {
    match <Model>::parse(&tref_sample()) {
        Ok(mut forest) => {
            forest
                .link_node("test_tree", 0, "new_node")
                .expect("Could not link new node to root");
            forest.unlink_node("test_tree", 3).expect("Could not unlink node 3");
            forest.unlink_node("test_tree", 4).expect("Could not unlink node 4");
            forest.unlink_node("test_tree", 5).expect("Could not unlink node 5");
            forest.unlink_node("test_tree", 6).expect("Could not unlink node 6");

            let mut buf_writer: Vec<u8> = Vec::new();
            match <Model>::serialize(&forest, &mut buf_writer) {
                Ok(_) => {
                    let text = String::from_utf8(buf_writer).unwrap();
                    match <Model>::parse(&lines(&text)) {
                        Ok(forest_prima) => {
                            if let Some(tree_prima) = forest_prima.tree("test_tree") {
                                let mut walker = tree_prima.iter();
                                let mut i = 0;
                                while let Some((n, _)) = walker.next() {
                                    match i {
                                        0 => {
                                            if !n.get_content_ref().get_content().eq("root_node") {
                                                panic!("Wrong root_node content")
                                            }
                                        }
                                        1 => {
                                            if !n.get_content_ref().get_content().eq("child_1") {
                                                panic!("Wrong child_1 content")
                                            }
                                        }
                                        2 => {
                                            if !n.get_content_ref().get_content().eq("child_2") {
                                                panic!("Wrong child_2 content")
                                            }
                                        }
                                        3 => {
                                            if !n.get_content_ref().get_content().eq("new_node") {
                                                panic!("Wrong new_node content")
                                            }
                                        }
                                        _ => {
                                            panic!("Invalid number of nodes");
                                        }
                                    }
                                    i += 1;
                                }
                                assert_eq!(i, 4);
                            } else {
                                panic!("Failed geting tree");
                            }
                        }
                        Err(e) => {
                            panic!("Failed parsing: {}", e.to_string());
                        }
                    }
                }
                Err(e) => {
                    panic!("Failed serializing: {}", e.to_string());
                }
            }
        }
        Err(e) => {
            panic!("Failed parsing document: {}", e.to_string());
        }
    }
}

#[test]
fn serialized_text_is_exact() {
    let mut forest = <Model>::parse(&tref_sample()).unwrap();
    forest.link_node("test_tree", 0, "new_node").unwrap();
    forest.unlink_node("test_tree", 3).unwrap();
    let mut sink: Vec<u8> = b"# kept\n".to_vec();
    let count = <Model>::serialize(&forest, &mut sink).unwrap();
    assert_eq!(count, 7);
    assert_eq!(
        String::from_utf8(sink).unwrap(),
        "# kept\n[test_tree]\n+ root_node\n+ + child_1\n+ + child_2\n+ + + child_2_2\n+ + child_3\n+ + new_node\n"
    );
}

#[test]
fn round_trip_keeps_contents_and_depths() {
    let text = "# two trees\n[first]\n+ a\n+ + b\n+ + + c\n+ + d\n\n[second]\n+ x\n";
    let forest = <Model>::parse(&lines(text)).unwrap();
    let mut sink: Vec<u8> = Vec::new();
    assert_eq!(<Model>::serialize(&forest, &mut sink).unwrap(), 7);
    let written = String::from_utf8(sink).unwrap();
    assert_eq!(written, "[first]\n+ a\n+ + b\n+ + + c\n+ + d\n[second]\n+ x\n");
    let again = <Model>::parse(&lines(&written)).unwrap();
    assert_eq!(sequential_contents(&forest, "first"), sequential_contents(&again, "first"));
    assert_eq!(sequential_contents(&forest, "second"), sequential_contents(&again, "second"));
    assert_eq!(sequential_contents(&again, "first"), vec!["a", "b", "c", "d"]);
    let tree = again.get_tree("first").unwrap();
    let levels: Vec<usize> = (0..4).map(|i| tree.get_node(i).unwrap().get_level()).collect();
    assert_eq!(levels, vec![1, 2, 3, 2]);
}

#[test]
fn missing_header_cites_first_line() {
    let tref = "+ root_node\n+ + child_1\n+ + child_2\n";
    let e = <Model>::parse(&lines(tref)).unwrap_err();
    assert_eq!(e.line(), 1);
    assert_eq!(e.message(), "Found root node without previous tree ID");
    assert_eq!(e.to_string(), "`Found root node without previous tree ID` at line 1");
}

#[test]
fn depth_jump_cites_its_line() {
    let tref = "[test_tree]\n+ root_node\n+ + + child_1\n+ + child_2\n";
    let e = <Model>::parse(&lines(tref)).unwrap_err();
    assert_eq!(e.line(), 3);
    assert_eq!(e.message(), "Invalid node level");
    assert_eq!(e.to_string(), "`Invalid node level` at line 3");

    let deeper = "# c\n[t]\n+ r\n+ + a\n+ + + b\n+ + c\n+ + + + d\n";
    let e = <Model>::parse(&lines(deeper)).unwrap_err();
    assert_eq!(e.line(), 7);
    assert_eq!(e.message(), "Invalid node level");

    let at_start = "[t]\n+ + a\n";
    let e = <Model>::parse(&lines(at_start)).unwrap_err();
    assert_eq!(e.line(), 2);
    assert_eq!(e.message(), "Invalid node level");
}

#[test]
fn invalid_statement_cites_its_line() {
    let tref = "  [test_tree]\n+ root_node\n";
    let e = <Model>::parse(&lines(tref)).unwrap_err();
    assert_eq!(e.line(), 1);
    assert_eq!(e.message(), "Invalid statement");
}

#[test]
fn second_root_is_rejected() {
    let tref = "[t]\n+ a\n+ + b\n+ c\n";
    let e = <Model>::parse(&lines(tref)).unwrap_err();
    assert_eq!(e.line(), 4);
    assert_eq!(e.message(), "Multiple root nodes in the same tree");
}

#[test]
fn node_without_root_is_rejected() {
    let tref = "[a]\n+ r\n+ + c\n[b]\n+ + x\n";
    let e = <Model>::parse(&lines(tref)).unwrap_err();
    assert_eq!(e.line(), 5);
    assert_eq!(e.message(), "Couldn't find a parent ref");
}

#[test]
fn header_again_starts_the_tree_afresh() {
    let tref = "[a]\n+ r\n+ + c\n[b]\n+ x\n[a]\n+ s\n";
    let forest = <Model>::parse(&lines(tref)).unwrap();
    assert_eq!(forest.len(), 2);
    assert_eq!(forest.name_at(0), "a");
    assert_eq!(forest.name_at(1), "b");
    assert_eq!(sequential_contents(&forest, "a"), vec!["s"]);
    assert_eq!(sequential_contents(&forest, "b"), vec!["x"]);
}

#[test]
fn build_names_the_line_from_one() {
    let tref = "[t]\n+ r\n+ + + x\n";
    let message = Forest::<SimpleNode>::build(&lines(tref)).unwrap_err();
    assert_eq!(message, "Invalid node level at line 3");
    let message = Forest::<SimpleNode>::build_levels(&lines("oops")).unwrap_err();
    assert_eq!(message, "Invalid statement at line 1");
    assert!(Forest::<SimpleNode>::build(&tref_sample()).is_ok());
}

#[test]
fn unwritable_name_stops_serializing() {
    let mut forest: Forest<SimpleNode> = Forest::empty();
    forest.new_tree("good");
    forest.set_root("good", "r").unwrap();
    forest.new_tree("ba]d");
    forest.set_root("ba]d", "r").unwrap();
    let mut sink: Vec<u8> = Vec::new();
    let e = <Model>::serialize(&forest, &mut sink).unwrap_err();
    assert_eq!(e.line(), 2);
    assert_eq!(e.message(), "Could not parse Tree ID");
    assert_eq!(e.statement(), &Some(String::from("[ba]d]")));
    assert_eq!(e.to_string(), "`Could not parse Tree ID` at line 2 with statement [ba]d]");
    assert_eq!(String::from_utf8(sink).unwrap(), "[good]\n+ r\n");
    let mut sink: Vec<u8> = Vec::new();
    assert!(!forest.serialize(&mut sink));
}

#[test]
fn unwritable_content_stops_serializing() {
    for content in ["+ x", " x", "", "a\nb", "+"] {
        let mut forest: Forest<SimpleNode> = Forest::empty();
        forest.new_tree("t");
        forest.set_root("t", "r").unwrap();
        forest.link_node("t", 0, content).unwrap();
        let mut sink: Vec<u8> = Vec::new();
        let e = <Model>::serialize(&forest, &mut sink).unwrap_err();
        assert_eq!(e.line(), 2);
        assert_eq!(e.message(), "Could not parse node");
        assert_eq!(e.statement(), &Some(format!("+ + {}", content)));
        assert_eq!(String::from_utf8(sink).unwrap(), "[t]\n+ r\n");
    }
}

#[test]
fn lines_of_a_forest() {
    let forest = <Model>::parse(&tref_sample()).unwrap();
    let (written, failure) = <Model>::lines(&forest);
    assert!(failure.is_none());
    assert_eq!(written, tref_sample());
    let again = <Model>::parse(&written).unwrap();
    assert_eq!(sequential_contents(&again, "test_tree"), sequential_contents(&forest, "test_tree"));
    for position in 0..7 {
        let a = forest.get_tree("test_tree").unwrap().get_node(position).unwrap();
        let b = again.get_tree("test_tree").unwrap().get_node(position).unwrap();
        assert_eq!(a.get_level(), b.get_level());
        assert_eq!(a.get_parent_position(), b.get_parent_position());
        assert_eq!(a.get_parent_children_pos(), b.get_parent_children_pos());
        assert_eq!(a.get_children_ref(), b.get_children_ref());
    }
}

#[test]
fn lines_end_at_the_first_that_does_not_read_back() {
    let mut forest: Forest<SimpleNode> = Forest::empty();
    forest.new_tree("t");
    forest.set_root("t", "r").unwrap();
    forest.link_node("t", 0, "fine").unwrap();
    forest.link_node("t", 0, "").unwrap();
    forest.link_node("t", 0, "late").unwrap();
    let (written, failure) = <Model>::lines(&forest);
    assert_eq!(written, vec!["[t]", "+ r", "+ + fine"]);
    let e = failure.unwrap();
    assert_eq!(e.line(), 3);
    assert_eq!(e.message(), "Could not parse node");
    assert_eq!(e.statement(), &Some(String::from("+ + ")));
}

#[test]
fn source_that_failed() {
    let good = lines("[t]\n+ r\n+ + a\n");
    assert!(<Model>::parse_source(&good, true).is_ok());
    let e = <Model>::parse_source(&good, false).unwrap_err();
    assert_eq!(e.line(), 4);
    assert_eq!(e.message(), "Could not read line");
    assert_eq!(e.to_string(), "`Could not read line` at line 4");
    let bad = lines("[t]\n+ r\n+ + + a\n");
    let e = <Model>::parse_source(&bad, false).unwrap_err();
    assert_eq!(e.line(), 3);
    assert_eq!(e.message(), "Invalid node level");
    let e = <Model>::parse_source(&Vec::new(), false).unwrap_err();
    assert_eq!(e.line(), 1);
    assert!(<Model>::parse_source(&Vec::new(), true).is_ok());
}

#[test]
fn sink_that_failed() {
    let e = <Model>::write_failed(String::from("[t]"), 0);
    assert_eq!(e.message(), "Could not write Tree ID");
    assert_eq!(e.line(), 0);
    assert_eq!(e.statement(), &Some(String::from("[t]")));
    let e = <Model>::write_failed(String::from("+ + a"), 5);
    assert_eq!(e.message(), "Could not write node");
    assert_eq!(e.line(), 5);
    let e = <Model>::flush_failed(9);
    assert_eq!(e.message(), "Writer flush failed");
    assert_eq!(e.line(), 9);
    assert_eq!(e.statement(), &None);
}

#[test]
fn forest_from_a_source_that_failed() {
    let good = lines("[t]\n+ r\n+ + a\n");
    let forest = Forest::<SimpleNode>::new_source(&good, true, true).unwrap();
    assert!(forest.tree("t").unwrap().get_levels().is_some());
    let e = Forest::<SimpleNode>::new_source(&good, false, true).unwrap_err();
    assert_eq!(e.line(), 4);
    assert_eq!(e.message(), "Could not read line");
    let e = Forest::<SimpleNode>::new_source(&lines("[t]\n+ + a\n"), false, false).unwrap_err();
    assert_eq!(e.line(), 2);
    assert_eq!(e.message(), "Invalid node level");
    assert!(Forest::<SimpleNode>::build_source(&good, true).is_ok());
    assert_eq!(
        Forest::<SimpleNode>::build_source(&good, false).unwrap_err(),
        "Could not read line at line 4"
    );
    let with_index = Forest::<SimpleNode>::build_levels_source(&good, true).unwrap();
    assert_eq!(with_index.tree("t").unwrap().get_levels().unwrap().len(), 2);
    assert_eq!(
        Forest::<SimpleNode>::build_levels_source(&Vec::new(), false).unwrap_err(),
        "Could not read line at line 1"
    );
    assert_eq!(
        Forest::<SimpleNode>::build_levels_source(&lines("x"), false).unwrap_err(),
        "Invalid statement at line 1"
    );
}
