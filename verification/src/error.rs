//! What reading and writing a document can fail with.

use crate::text::{decimal, to_decimal};
use vstd::prelude::*;

verus! {

/// The number of the line at index `index` of a document: lines are counted
/// from 1. Numbers end at the largest that fits.
pub open spec fn line_number_at(index: int) -> usize {
    if index < usize::MAX {
        (index + 1) as usize
    } else {
        usize::MAX
    }
}

/// The failure to read a document: a message and the number of the line,
/// counted from 1, at which reading stopped.
#[derive(Debug)]
pub struct ParseTreeError {
    message: String,
    line: usize,
}

impl ParseTreeError {
    /// An error with a message at the line of a number.
    pub fn new(msg: &str, line: usize) -> (r: Self)
        ensures
            r.message_text() == msg@,
            r.line_number() == line,
    {
        ParseTreeError { message: String::from_str(msg), line }
    }

    /// An error with a message at the line that stands at `index`, counted
    /// from 0, in the document.
    pub fn at_index(msg: &str, index: usize) -> (r: Self)
        ensures
            r.message_text() == msg@,
            r.line_number() == line_number_at(index as int),
    {
        let line = if index < usize::MAX {
            index + 1
        } else {
            usize::MAX
        };
        ParseTreeError { message: String::from_str(msg), line }
    }

    /// The message.
    pub closed spec fn message_text(&self) -> Seq<char> {
        self.message@
    }

    /// The number of the line, counted from 1.
    pub closed spec fn line_number(&self) -> usize {
        self.line
    }

    /// The text that `to_string` gives: the message between backquotes, and
    /// the number of the line.
    pub open spec fn display(&self) -> Seq<char> {
        "`"@ + self.message_text() + "` at line "@ + decimal(self.line_number() as nat)
    }

    /// The number of the line, counted from 1.
    pub fn line(&self) -> (r: usize)
        ensures
            r == self.line_number(),
    {
        self.line
    }

    /// The message.
    pub fn message(&self) -> (r: &String)
        ensures
            r@ == self.message_text(),
    {
        &self.message
    }

    /// The error in words.
    pub fn to_string(&self) -> (r: String)
        ensures
            r@ == self.display(),
    {
        let mut s = String::from_str("`");
        s.append(self.message.as_str());
        s.append("` at line ");
        let number = to_decimal(self.line as u128);
        s.append(number.as_str());
        s
    }
}

/// The failure to write a forest: a message, the number of lines written
/// before it, and the statement that could not be written.
#[derive(Debug)]
pub struct SerializeTreeError {
    message: String,
    line: usize,
    statement: Option<String>,
}

/// The text of an optional string.
pub open spec fn opt_text(s: Option<String>) -> Option<Seq<char>> {
    match s {
        Some(t) => Some(t@),
        None => None,
    }
}

impl SerializeTreeError {
    /// An error with a message, the number of lines written, and the
    /// statement at fault.
    pub fn new(message: &str, line: usize, statement: Option<String>) -> (r: Self)
        ensures
            r.message_text() == message@,
            r.line_count() == line,
            r.statement_text() == opt_text(statement),
    {
        SerializeTreeError { message: String::from_str(message), line, statement }
    }

    /// The message.
    pub closed spec fn message_text(&self) -> Seq<char> {
        self.message@
    }

    /// The number of lines written before the failure.
    pub closed spec fn line_count(&self) -> usize {
        self.line
    }

    /// The statement at fault.
    pub closed spec fn statement_text(&self) -> Option<Seq<char>> {
        opt_text(self.statement)
    }

    /// The text that `to_string` gives.
    pub open spec fn display(&self) -> Seq<char> {
        let head = "`"@ + self.message_text() + "` at line "@ + decimal(self.line_count() as nat);
        match self.statement_text() {
            Some(t) => head + " with statement "@ + t,
            None => head,
        }
    }

    /// The number of lines written before the failure.
    pub fn line(&self) -> (r: usize)
        ensures
            r == self.line_count(),
    {
        self.line
    }

    /// The message.
    pub fn message(&self) -> (r: &String)
        ensures
            r@ == self.message_text(),
    {
        &self.message
    }

    /// The statement at fault.
    pub fn statement(&self) -> (r: &Option<String>)
        ensures
            opt_text(*r) == self.statement_text(),
    {
        &self.statement
    }

    /// The error in words.
    pub fn to_string(&self) -> (r: String)
        ensures
            r@ == self.display(),
    {
        let mut s = String::from_str("`");
        s.append(self.message.as_str());
        s.append("` at line ");
        let number = to_decimal(self.line as u128);
        s.append(number.as_str());
        match &self.statement {
            Some(t) => {
                s.append(" with statement ");
                s.append(t.as_str());
            },
            None => {},
        }
        s
    }
}

} // verus!
