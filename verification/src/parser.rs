//! The statements of a document: what one line of text says.

use crate::text::to_chars;
use vstd::prelude::*;

verus! {

/// One line of a document, classified.
#[derive(Debug)]
pub enum TreeStatement {
    /// The header of a tree, with the tree's name.
    TreeID(String),
    /// A node, with its content and its depth.
    Node(String, usize),
    /// A comment.
    Comment,
    /// A blank line.
    Empty,
    /// Anything else.
    Invalid,
}

/// A classified line as the contracts see it.
pub ghost enum StatementView {
    TreeID(Seq<char>),
    Node(Seq<char>, nat),
    Comment,
    Empty,
    Invalid,
}

impl View for TreeStatement {
    type V = StatementView;

    open spec fn view(&self) -> StatementView {
        match self {
            TreeStatement::TreeID(id) => StatementView::TreeID(id@),
            TreeStatement::Node(content, level) => StatementView::Node(content@, *level as nat),
            TreeStatement::Comment => StatementView::Comment,
            TreeStatement::Empty => StatementView::Empty,
            TreeStatement::Invalid => StatementView::Invalid,
        }
    }
}

/// White space, as Unicode defines it.
pub open spec fn is_space(c: char) -> bool {
    let u = c as u32;
    ||| 0x09 <= u <= 0x0d
    ||| u == 0x20
    ||| u == 0x85
    ||| u == 0xa0
    ||| u == 0x1680
    ||| 0x2000 <= u <= 0x200a
    ||| u == 0x2028
    ||| u == 0x2029
    ||| u == 0x202f
    ||| u == 0x205f
    ||| u == 0x3000
}

/// The number of depth markers, `"+ "`, that follow each other from
/// position `i` of the line on.
pub open spec fn markers(s: Seq<char>, i: int) -> nat
    decreases s.len() - i,
{
    if 0 <= i && i + 1 < s.len() && s[i] == '+' && s[i + 1] == ' ' {
        1 + markers(s, i + 2)
    } else {
        0
    }
}

/// The text is one line: it holds no line feed.
pub open spec fn one_line(s: Seq<char>) -> bool {
    forall|i: int| 0 <= i < s.len() ==> s[i] != '\n'
}

/// A node line: one or more depth markers, then a content that starts with
/// neither `'+'` nor a space.
pub open spec fn is_node(s: Seq<char>) -> bool {
    let d = markers(s, 0) as int;
    &&& d >= 1
    &&& 2 * d < s.len()
    &&& s[2 * d] != '+'
    &&& s[2 * d] != ' '
    &&& one_line(s)
}

/// A header line: a name of one or more characters, none of them a square
/// bracket, between `'['` and `']'`.
pub open spec fn is_tree_id(s: Seq<char>) -> bool {
    &&& s.len() >= 3
    &&& s[0] == '['
    &&& s[s.len() - 1] == ']'
    &&& forall|i: int| 1 <= i < s.len() - 1 ==> s[i] != '[' && s[i] != ']'
    &&& one_line(s)
}

/// A comment line: it starts with `'#'`.
pub open spec fn is_comment(s: Seq<char>) -> bool {
    s.len() >= 1 && s[0] == '#' && one_line(s)
}

/// A blank line: nothing but white space.
pub open spec fn is_blank(s: Seq<char>) -> bool {
    forall|i: int| 0 <= i < s.len() ==> is_space(#[trigger] s[i])
}

/// What a line of text says.
pub open spec fn classify(s: Seq<char>) -> StatementView {
    if is_node(s) {
        StatementView::Node(s.skip(2 * (markers(s, 0) as int)), markers(s, 0))
    } else if is_tree_id(s) {
        StatementView::TreeID(s.subrange(1, s.len() - 1))
    } else if is_comment(s) {
        StatementView::Comment
    } else if is_blank(s) {
        StatementView::Empty
    } else {
        StatementView::Invalid
    }
}

/// A text that can stand in a header: one or more characters, none of them
/// a square bracket or a line feed.
pub open spec fn valid_name(name: Seq<char>) -> bool {
    &&& name.len() >= 1
    &&& forall|i: int| 0 <= i < name.len() ==> name[i] != '[' && name[i] != ']' && name[i] != '\n'
}

/// A text that can stand in a node line: one or more characters, the first
/// of them neither `'+'` nor a space, none of them a line feed.
pub open spec fn valid_content(content: Seq<char>) -> bool {
    &&& content.len() >= 1
    &&& content[0] != '+'
    &&& content[0] != ' '
    &&& one_line(content)
}

/// The name that a header line holds is a text that can stand in a header.
pub proof fn lemma_header_holds_valid_name(s: Seq<char>)
    requires
        is_tree_id(s),
    ensures
        valid_name(s.subrange(1, s.len() - 1)),
{
}

/// The content that a node line holds is a text that can stand in a node
/// line.
pub proof fn lemma_node_holds_valid_content(s: Seq<char>)
    requires
        is_node(s),
    ensures
        valid_content(s.skip(2 * (markers(s, 0) as int))),
{
    lemma_markers_bound(s, 0);
}

/// A valid name between square brackets reads as a header of that name.
pub proof fn lemma_classify_header(name: Seq<char>)
    requires
        valid_name(name),
    ensures
        classify(seq!['['] + name + seq![']']) == StatementView::TreeID(name),
{
    let s = seq!['['] + name + seq![']'];
    assert(markers(s, 0) == 0);
    assert(s.subrange(1, s.len() - 1) =~= name);
    assert forall|i: int| 1 <= i < s.len() - 1 implies s[i] != '[' && s[i] != ']' by {
        assert(s[i] == name[i - 1]);
    }
    assert forall|i: int| 0 <= i < s.len() implies s[i] != '\n' by {
        if 1 <= i < s.len() - 1 {
            assert(s[i] == name[i - 1]);
        }
    }
}

/// Whether a character is white space.
pub fn char_is_space(c: char) -> (r: bool)
    ensures
        r == is_space(c),
{
    let u = c as u32;
    (0x09 <= u && u <= 0x0d) || u == 0x20 || u == 0x85 || u == 0xa0 || u == 0x1680 || (0x2000 <= u
        && u <= 0x200a) || u == 0x2028 || u == 0x2029 || u == 0x202f || u == 0x205f || u == 0x3000
}

/// The marker count is bounded by the text behind the position.
pub proof fn lemma_markers_bound(s: Seq<char>, i: int)
    requires
        0 <= i <= s.len(),
    ensures
        i + 2 * markers(s, i) <= s.len(),
    decreases s.len() - i,
{
    if i + 1 < s.len() && s[i] == '+' && s[i + 1] == ' ' {
        lemma_markers_bound(s, i + 2);
    }
}

/// The classifier of lines.
#[derive(Debug)]
pub struct TreeParser {}

impl TreeParser {
    /// A classifier.
    pub fn new() -> (r: Self) {
        TreeParser {}
    }

    /// Classifies one line of a document.
    pub fn parse_statement(&self, statement: &str) -> (r: TreeStatement)
        ensures
            r@ == classify(statement@),
            r matches TreeStatement::Node(_, level) ==> level == markers(statement@, 0) >= 1,
    {
        let chars = to_chars(statement);
        let n = chars.len();
        let ghost s = statement@;
        // One pass for what the whole line is made of.
        let mut single = true;
        let mut blank = true;
        let mut inner = true;
        let mut j: usize = 0;
        while j < n
            invariant
                j <= n,
                n == s.len(),
                chars@ == s,
                single == (forall|i: int| 0 <= i < j ==> s[i] != '\n'),
                blank == (forall|i: int| 0 <= i < j ==> is_space(#[trigger] s[i])),
                inner == (forall|i: int| 1 <= i < j && i < n - 1 ==> s[i] != '[' && s[i] != ']'),
            decreases n - j,
        {
            let c = chars[j];
            if c == '\n' {
                single = false;
            }
            if !char_is_space(c) {
                blank = false;
            }
            if 1 <= j && j < n - 1 && (c == '[' || c == ']') {
                inner = false;
            }
            j = j + 1;
        }
        // The depth markers at the start.
        let mut depth: usize = 0;
        let mut i: usize = 0;
        while i + 1 < n && chars[i] == '+' && chars[i + 1] == ' '
            invariant
                i <= n,
                n == s.len(),
                chars@ == s,
                i == 2 * depth,
                markers(s, 0) == depth + markers(s, i as int),
            decreases n - i,
        {
            depth = depth + 1;
            i = i + 2;
        }
        assert(markers(s, i as int) == 0);
        if depth >= 1 && i < n && chars[i] != '+' && chars[i] != ' ' && single {
            let content = statement.substring_char(i, n);
            assert(s.subrange(i as int, n as int) == s.skip(i as int));
            TreeStatement::Node(String::from_str(content), depth)
        } else if n >= 3 && chars[0] == '[' && chars[n - 1] == ']' && inner && single {
            let id = statement.substring_char(1, n - 1);
            TreeStatement::TreeID(String::from_str(id))
        } else if n >= 1 && chars[0] == '#' && single {
            TreeStatement::Comment
        } else if blank {
            TreeStatement::Empty
        } else {
            TreeStatement::Invalid
        }
    }
}

} // verus!
