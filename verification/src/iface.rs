//! Reading and writing documents.

use crate::error::{ParseTreeError, SerializeTreeError};
use crate::forest::{Forest, ForestView};
use crate::fresh::forest_as_read;
use crate::iter::PreDfsIter;
use crate::order::pre_order;
use crate::parser::{classify, TreeParser, TreeStatement};
use crate::reading::{read, read_source};
use crate::shape::texts;
use crate::tree::{NodeContent, SimpleNode};
use crate::writing::{
    bytes_of, defect, document, forest_lines, header_line, lemma_lines_prefix,
    lemma_sound_prefix_push, lemma_sound_prefix_stops, lemma_written_at, marks, node_line,
    reads_back, sound_prefix, statements, written_at, written_texts, Written, LINE_FEED,
};
use std::marker::PhantomData;
use vstd::prelude::*;

verus! {

/// The way in and out of documents, for trees with payloads of type `T`.
pub struct Model<T: NodeContent = SimpleNode> {
    phantom: PhantomData<T>,
}

/// Puts a line and a line feed behind what the sink holds.
fn put_line(writer: &mut Vec<u8>, line: &str)
    ensures
        final(writer)@ == old(writer)@ + vstd::utf8::encode_utf8(line@).push(LINE_FEED),
{
    let bytes = line.as_bytes();
    let mut k: usize = 0;
    while k < bytes.len()
        invariant
            k <= bytes@.len(),
            bytes@ == vstd::utf8::encode_utf8(line@),
            writer@ == old(writer)@ + bytes@.take(k as int),
        decreases bytes@.len() - k,
    {
        writer.push(bytes[k]);
        assert(bytes@.take(k + 1) =~= bytes@.take(k as int).push(bytes@[k as int]));
        k = k + 1;
    }
    writer.push(LINE_FEED);
    assert(bytes@.take(k as int) =~= bytes@);
    assert(writer@ =~= old(writer)@ + vstd::utf8::encode_utf8(line@).push(LINE_FEED));
}

/// The text of a header line.
fn header_text(name: &String) -> (r: String)
    ensures
        r@ == header_line(name@).text,
{
    proof {
        reveal_strlit("[");
        reveal_strlit("]");
    }
    let mut line = String::from_str("[");
    line.append(name.as_str());
    line.append("]");
    assert(line@ =~= header_line(name@).text);
    line
}

/// The text of a node line.
fn node_text(level: usize, content: &String) -> (r: String)
    ensures
        r@ == marks(level as nat) + content@,
{
    proof {
        reveal_strlit("+ ");
    }
    let mut line = String::new();
    let mut k: usize = 0;
    while k < level
        invariant
            k <= level,
            line@ == marks(k as nat),
            "+ "@ == seq!['+', ' '],
        decreases level - k,
    {
        line.append("+ ");
        assert(line@ =~= marks((k + 1) as nat));
        k = k + 1;
    }
    line.append(content.as_str());
    line
}

/// The lines kept are the lines `cur`, all of which read back.
spec fn kept(lines: Seq<String>, cur: Seq<Written>) -> bool {
    &&& texts(lines) == written_texts(cur)
    &&& sound_prefix(cur) == cur.len()
}

/// Writing the forest `f` has stopped with the error `e` at the first line
/// that does not read back, with the lines before it kept.
spec fn stopped_at(f: ForestView, lines: Seq<String>, e: SerializeTreeError) -> bool {
    let ws = statements(f);
    let k = sound_prefix(ws);
    &&& 0 <= k < ws.len()
    &&& texts(lines) == document(f).take(k)
    &&& e.line_count() == k
    &&& e.message_text() == defect(ws[k])
    &&& e.statement_text() == Some(ws[k].text)
}

/// Keeps a line that reads back; reports one that does not.
fn keep_checked(
    lines: &mut Vec<String>,
    statement: String,
    sound: bool,
    message: &str,
    Ghost(cur): Ghost<Seq<Written>>,
    Ghost(w): Ghost<Written>,
) -> (r: Result<(), SerializeTreeError>)
    requires
        kept(old(lines)@, cur),
        statement@ == w.text,
        sound == reads_back(w),
    ensures
        sound ==> r is Ok && kept(final(lines)@, cur.push(w)),
        !sound ==> final(lines)@ == old(lines)@ && sound_prefix(cur.push(w)) == cur.len() && (
        r matches Err(e) && e.line_count() == cur.len() && e.message_text() == message@
            && e.statement_text() == Some(w.text)),
{
    proof {
        lemma_sound_prefix_push(cur, w);
        assert(texts(lines@).len() == written_texts(cur).len());
    }
    if !sound {
        return Err(SerializeTreeError::new(message, lines.len(), Some(statement)));
    }
    lines.push(statement);
    proof {
        assert forall|j: int| 0 <= j < lines@.len() implies texts(lines@)[j] == written_texts(
            cur.push(w),
        )[j] by {
            if j < cur.len() {
                assert(texts(old(lines)@)[j] == written_texts(cur)[j]);
            }
        }
        assert(texts(lines@) =~= written_texts(cur.push(w)));
    }
    Ok(())
}

/// Where writing stops at the line behind `cur`, it has stopped at the
/// first line of the forest that does not read back.
proof fn lemma_stopped(f: ForestView, cur: Seq<Written>, w: Written)
    requires
        cur.len() < statements(f).len(),
        statements(f).take(cur.len() as int) == cur,
        statements(f)[cur.len() as int] == w,
        sound_prefix(cur.push(w)) == cur.len(),
    ensures
        sound_prefix(statements(f)) == cur.len(),
        written_texts(cur) == document(f).take(cur.len() as int),
{
    let ws = statements(f);
    assert(ws.take(cur.len() as int + 1) =~= cur.push(w));
    lemma_sound_prefix_stops(ws, cur.len() as int + 1);
    assert(written_texts(cur) =~= document(f).take(cur.len() as int));
}

impl<T: NodeContent> Model<T> {
    /// A model.
    pub fn new() -> (r: Self) {
        Model { phantom: PhantomData }
    }

    /// Reads a document, given as its lines, into a forest.
    ///
    /// On failure the error holds the number, from 1, of the line at which
    /// reading stopped.
    pub fn parse(lines: &Vec<String>) -> (r: Result<Forest<T>, ParseTreeError>)
        ensures
            match read::<T>(texts(lines@), false) {
                Ok(f) => r matches Ok(forest) && forest.wf() && forest@ == f && forest_as_read(f),
                Err(e) => r matches Err(error) && error.message_text() == e.message
                    && error.line_number() == e.line,
            },
    {
        Forest::new(lines, false)
    }

    /// Reads a document from a source that may have failed: `lines` are the
    /// lines that could be read, and `complete` says whether they are all.
    ///
    /// A failure in the lines that were read comes first. Where there is
    /// none and the lines are not all, the error is that the line behind
    /// them could not be read.
    pub fn parse_source(lines: &Vec<String>, complete: bool) -> (r: Result<
        Forest<T>,
        ParseTreeError,
    >)
        ensures
            match read_source::<T>(texts(lines@), complete, false) {
                Ok(f) => r matches Ok(forest) && forest.wf() && forest@ == f && forest_as_read(f),
                Err(e) => r matches Err(error) && error.message_text() == e.message
                    && error.line_number() == e.line,
            },
    {
        Forest::new_source(lines, complete, false)
    }

    /// Keeps the lines of the nodes of tree `i`, behind its header.
    fn node_lines(forest: &Forest<T>, i: usize, lines: &mut Vec<String>) -> (r: Result<
        (),
        SerializeTreeError,
    >)
        requires
            forest.wf(),
            i < forest@.trees.len(),
            kept(old(lines)@, written_at(forest@, i as int, 0)),
        ensures
            r is Ok ==> kept(final(lines)@, forest_lines(forest@, i + 1)),
            r matches Err(e) ==> stopped_at(forest@, final(lines)@, e),
    {
        let parser = TreeParser::new();
        let ghost f = forest@;
        let model = forest.model_at(i);
        let ghost t = f.trees[i as int];
        let ghost order = pre_order(t, false);
        let mut walker = PreDfsIter::new(&model);
        let ghost mut j: int = 0;
        proof {
            assert(order.skip(0) =~= order);
        }
        loop
            invariant
                forest.wf(),
                f == forest@,
                i < f.trees.len(),
                t == f.trees[i as int],
                order == pre_order(t, false),
                model.nodes() == t,
                walker.wf(),
                walker.model() == &model,
                0 <= j <= order.len(),
                walker.remaining() == order.skip(j),
                kept(lines@, written_at(f, i as int, j)),
            ensures
                kept(lines@, forest_lines(f, i + 1)),
            decreases order.len() - j,
        {
            let ghost so_far = written_at(f, i as int, j);
            let (node, position) = match walker.next() {
                Some(found) => found,
                None => {
                    proof {
                        lemma_written_at(f, i as int, j);
                    }
                    break ;
                },
            };
            let content = node.get_content_ref().get_content();
            let level = node.get_level();
            let node_statement = node_text(level, content);
            let ghost w = node_line(t[position as int]);
            proof {
                assert(order.skip(j)[0] == order[j]);
                assert(order.skip(j).drop_first() =~= order.skip(j + 1));
                lemma_written_at(f, i as int, j);
                assert(order.take(j + 1) =~= order.take(j).push(order[j]));
                assert(written_at(f, i as int, j + 1) =~= so_far.push(w));
            }
            let sound = match parser.parse_statement(node_statement.as_str()) {
                TreeStatement::Node(read_content, read_level) => read_level == level
                    && read_content == *content,
                _ => false,
            };
            match keep_checked(
                lines,
                node_statement,
                sound,
                "Could not parse node",
                Ghost(so_far),
                Ghost(w),
            ) {
                Ok(_) => {},
                Err(e) => {
                    proof {
                        lemma_stopped(f, so_far, w);
                    }
                    return Err(e);
                },
            }
            proof {
                j = j + 1;
            }
        }
        Ok(())
    }

    /// The lines that a forest is written as: for each tree the header and
    /// the nodes in pre-order.
    ///
    /// Each line is read back before it is kept. At the first line that
    /// does not read back as the header or node that it was written for,
    /// the lines end, and an error comes with them: it holds the number of
    /// lines before that line, and its text.
    pub fn lines(forest: &Forest<T>) -> (r: (Vec<String>, Option<SerializeTreeError>))
        requires
            forest.wf(),
        ensures
            ({
                let ws = statements(forest@);
                let k = sound_prefix(ws);
                &&& 0 <= k <= ws.len()
                &&& texts(r.0@) == document(forest@).take(k)
                &&& k == ws.len() ==> r.1 is None
                &&& k < ws.len() ==> (r.1 matches Some(e) && e.line_count() == k && e.message_text()
                    == defect(ws[k]) && e.statement_text() == Some(ws[k].text))
            }),
    {
        let parser = TreeParser::new();
        let mut lines: Vec<String> = Vec::new();
        let ghost f = forest@;
        let n = forest.len();
        let mut i: usize = 0;
        proof {
            assert(texts(lines@) =~= written_texts(forest_lines(f, 0)));
        }
        while i < n
            invariant
                forest.wf(),
                f == forest@,
                n == f.trees.len(),
                i <= n,
                kept(lines@, forest_lines(f, i as int)),
            decreases n - i,
        {
            let ghost done = forest_lines(f, i as int);
            let tree_id_statement = header_text(forest.name_at(i));
            let ghost head = header_line(f.names[i as int]);
            proof {
                lemma_written_at(f, i as int, 0);
                assert(pre_order(f.trees[i as int], false).take(0) =~= Seq::empty());
                assert(written_at(f, i as int, 0) =~= done.push(head));
                let s = head.text;
                assert(s.subrange(1, s.len() - 1) =~= f.names[i as int]);
            }
            let sound = match parser.parse_statement(tree_id_statement.as_str()) {
                TreeStatement::TreeID(_) => true,
                _ => false,
            };
            match keep_checked(
                &mut lines,
                tree_id_statement,
                sound,
                "Could not parse Tree ID",
                Ghost(done),
                Ghost(head),
            ) {
                Ok(_) => {},
                Err(e) => {
                    proof {
                        lemma_lines_prefix(f, i as int, n as int);
                        lemma_stopped(f, done, head);
                    }
                    return (lines, Some(e));
                },
            }
            match Self::node_lines(forest, i, &mut lines) {
                Ok(_) => {},
                Err(e) => {
                    return (lines, Some(e));
                },
            }
            i = i + 1;
        }
        proof {
            let ws = statements(f);
            assert(ws.take(ws.len() as int) =~= ws);
            assert(document(f).take(ws.len() as int) =~= document(f));
        }
        (lines, None)
    }

    /// The error for a line that a sink did not take, after `lines_written`
    /// lines that it took.
    pub fn write_failed(statement: String, lines_written: usize) -> (r: SerializeTreeError)
        ensures
            r.line_count() == lines_written,
            r.statement_text() == Some(statement@),
            r.message_text() == (if classify(statement@) is TreeID {
                "Could not write Tree ID"@
            } else {
                "Could not write node"@
            }),
    {
        let parser = TreeParser::new();
        match parser.parse_statement(statement.as_str()) {
            TreeStatement::TreeID(_) => SerializeTreeError::new(
                "Could not write Tree ID",
                lines_written,
                Some(statement),
            ),
            _ => SerializeTreeError::new("Could not write node", lines_written, Some(statement)),
        }
    }

    /// The error for a sink that took `lines_written` lines and could not be
    /// flushed.
    pub fn flush_failed(lines_written: usize) -> (r: SerializeTreeError)
        ensures
            r.line_count() == lines_written,
            r.statement_text() == None::<Seq<char>>,
            r.message_text() == "Writer flush failed"@,
    {
        SerializeTreeError::new("Writer flush failed", lines_written, None)
    }

    /// Writes a forest as a document into `writer`: the lines that
    /// [`Model::lines`] gives, each with a line feed behind it.
    ///
    /// Where all lines of the forest were written, their number is returned;
    /// else the error that came with the lines.
    pub fn serialize(forest: &Forest<T>, writer: &mut Vec<u8>) -> (r: Result<
        usize,
        SerializeTreeError,
    >)
        requires
            forest.wf(),
        ensures
            ({
                let ws = statements(forest@);
                let k = sound_prefix(ws);
                &&& 0 <= k <= ws.len()
                &&& final(writer)@ == old(writer)@ + bytes_of(document(forest@).take(k))
                &&& k == ws.len() ==> r == Ok::<usize, SerializeTreeError>(k as usize)
                &&& k < ws.len() ==> (r matches Err(e) && e.line_count() == k && e.message_text()
                    == defect(ws[k]) && e.statement_text() == Some(ws[k].text))
            }),
    {
        let (lines, failure) = Self::lines(forest);
        let ghost first = writer@;
        let ghost all = texts(lines@);
        let mut j: usize = 0;
        proof {
            assert(all.take(0) =~= Seq::empty());
        }
        while j < lines.len()
            invariant
                j <= lines@.len(),
                all == texts(lines@),
                writer@ == first + bytes_of(all.take(j as int)),
            decreases lines@.len() - j,
        {
            put_line(writer, lines[j].as_str());
            proof {
                assert(all.take(j + 1).drop_last() =~= all.take(j as int));
                assert(all.take(j + 1).last() == lines@[j as int]@);
            }
            j = j + 1;
        }
        proof {
            assert(all.take(lines@.len() as int) =~= all);
        }
        match failure {
            Some(e) => Err(e),
            None => Ok(lines.len()),
        }
    }
}

} // verus!
