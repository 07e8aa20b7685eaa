use regex::Regex;
use tref::text::to_decimal;
use tref::{ParseTreeError, SerializeTreeError, TreeParser, TreeStatement};

fn kind(statement: &str) -> String {
    match TreeParser::new().parse_statement(statement) {
        TreeStatement::TreeID(id) => format!("tree {}", id),
        TreeStatement::Node(content, level) => format!("node {} {}", level, content),
        TreeStatement::Comment => String::from("comment"),
        TreeStatement::Empty => String::from("empty"),
        TreeStatement::Invalid => String::from("invalid"),
    }
}

#[test]
fn headers() {
    assert_eq!(kind("[my_tree]"), "tree my_tree");
    assert_eq!(kind("[a]"), "tree a");
    assert_eq!(kind("[with space-and.dots]"), "tree with space-and.dots");
    assert_eq!(kind("[\u{e9}t\u{e9}]"), "tree \u{e9}t\u{e9}");
    assert_eq!(kind("[]"), "invalid");
    assert_eq!(kind("[a]]"), "invalid");
    assert_eq!(kind("[[a]"), "invalid");
    assert_eq!(kind("[a] "), "invalid");
    assert_eq!(kind(" [a]"), "invalid");
    assert_eq!(kind("[a"), "invalid");
    assert_eq!(kind("a]"), "invalid");
    assert_eq!(kind("[a\nb]"), "invalid");
}

#[test]
fn nodes() {
    assert_eq!(kind("+ root"), "node 1 root");
    assert_eq!(kind("+ + + deep down"), "node 3 deep down");
    assert_eq!(kind("+ a+ b"), "node 1 a+ b");
    assert_eq!(kind("+ a + b"), "node 1 a + b");
    assert_eq!(kind("+ [x]"), "node 1 [x]");
    assert_eq!(kind("+ #x"), "node 1 #x");
    assert_eq!(kind("+ \u{4e2d}\u{6587} + "), "node 1 \u{4e2d}\u{6587} + ");
    assert_eq!(kind("+ + \tx"), "node 2 \tx");
    assert_eq!(kind("+"), "invalid");
    assert_eq!(kind("+ "), "invalid");
    assert_eq!(kind("+ + "), "invalid");
    assert_eq!(kind("+ +"), "invalid");
    assert_eq!(kind("+  x"), "invalid");
    assert_eq!(kind("+ +x"), "invalid");
    assert_eq!(kind("+x"), "invalid");
    assert_eq!(kind(" + x"), "invalid");
    assert_eq!(kind("+ x\ny"), "invalid");
    assert_eq!(kind("x"), "invalid");
}

#[test]
fn comments_and_blanks() {
    assert_eq!(kind("#"), "comment");
    assert_eq!(kind("# A simple tree."), "comment");
    assert_eq!(kind("#[a]"), "comment");
    assert_eq!(kind(" # not at the start"), "invalid");
    assert_eq!(kind("#a\nb"), "invalid");
    assert_eq!(kind(""), "empty");
    assert_eq!(kind("   "), "empty");
    assert_eq!(kind(" \t\r"), "empty");
    assert_eq!(kind("\n"), "empty");
    assert_eq!(kind("\u{a0}\u{2003}\u{3000}\u{85}\u{1680}\u{2028}\u{2029}\u{202f}\u{205f}"), "empty");
    assert_eq!(kind("\u{200b}"), "invalid");
    assert_eq!(kind("\u{feff}"), "invalid");
    assert_eq!(kind(" . "), "invalid");
}

#[test]
fn white_space_is_what_char_says() {
    for code in 0..0x11000u32 {
        if let Some(c) = char::from_u32(code) {
            assert_eq!(tref::parser::char_is_space(c), c.is_whitespace(), "U+{:04X}", code);
        }
    }
}

#[test]
fn grammar_agrees_with_its_regular_expressions() {
    let node = Regex::new(r"^(\+ )+[^\+ \n].*$").unwrap();
    let marks = Regex::new(r"^(\+ )+").unwrap();
    let tree_id = Regex::new(r"^\[[^\[\]\n]+\]$").unwrap();
    let comment = Regex::new(r"^#.*$").unwrap();
    let alphabet = ['+', ' ', '[', ']', '#', 'a', '\n', '\t'];
    let mut cases: Vec<String> = vec![String::new()];
    let mut last: Vec<String> = vec![String::new()];
    for _ in 0..5 {
        let mut next = Vec::new();
        for s in &last {
            for c in alphabet {
                let mut longer = s.clone();
                longer.push(c);
                next.push(longer);
            }
        }
        cases.extend(next.iter().cloned());
        last = next;
    }
    assert_eq!(cases.len(), 1 + 8 + 64 + 512 + 4096 + 32768);
    for s in &cases {
        let expected = if node.is_match(s) {
            let end = marks.find(s).unwrap().end();
            format!("node {} {}", end / 2, &s[end..])
        } else if tree_id.is_match(s) {
            format!("tree {}", &s[1..s.len() - 1])
        } else if comment.is_match(s) {
            String::from("comment")
        } else if s.trim().is_empty() {
            String::from("empty")
        } else {
            String::from("invalid")
        };
        assert_eq!(kind(s), expected, "{:?}", s);
    }
}

#[test]
fn parse_error_in_words() {
    let e = ParseTreeError::new("Invalid statement", 1);
    assert_eq!(e.line(), 1);
    assert_eq!(e.message(), "Invalid statement");
    assert_eq!(e.to_string(), "`Invalid statement` at line 1");
    let e = ParseTreeError::new("Invalid node level", 42);
    assert_eq!(e.to_string(), "`Invalid node level` at line 42");
    let e = ParseTreeError::new("far", usize::MAX);
    assert_eq!(e.to_string(), format!("`far` at line {}", usize::MAX));
    let e = ParseTreeError::at_index("Invalid statement", 0);
    assert_eq!(e.line(), 1);
    assert_eq!(e.message(), "Invalid statement");
    let e = ParseTreeError::at_index("Invalid node level", 41);
    assert_eq!(e.line(), 42);
    let e = ParseTreeError::at_index("far", usize::MAX - 1);
    assert_eq!(e.line(), usize::MAX);
    let e = ParseTreeError::at_index("farther", usize::MAX);
    assert_eq!(e.line(), usize::MAX);
}

#[test]
fn serialize_error_in_words() {
    let e = SerializeTreeError::new("Could not parse node", 7, Some(String::from("+ + ")));
    assert_eq!(e.line(), 7);
    assert_eq!(e.message(), "Could not parse node");
    assert_eq!(e.statement(), &Some(String::from("+ + ")));
    assert_eq!(e.to_string(), "`Could not parse node` at line 7 with statement + + ");
    let e = SerializeTreeError::new("Writer flush failed", 120, None);
    assert_eq!(e.statement(), &None);
    assert_eq!(e.to_string(), "`Writer flush failed` at line 120");
}

#[test]
fn numbers_in_decimal() {
    assert_eq!(to_decimal(0), "0");
    assert_eq!(to_decimal(7), "7");
    assert_eq!(to_decimal(10), "10");
    assert_eq!(to_decimal(1234567890), "1234567890");
    assert_eq!(to_decimal(u128::MAX), u128::MAX.to_string());
}
