//! The input as a parser sees it: the text, a cursor into it and a line count.

use std::rc::Rc;
use vstd::prelude::*;

verus! {

/// Marks the end of the input; the entry point appends it to every text.
pub const EOT: char = '\u{3}';

/// A snapshot of the input and of how far parsing has come. Parsers never
/// change a state; they build the next one.
pub struct State {
    /// Identifies where the text came from.
    pub file: Rc<String>,
    /// The characters to parse, with the end marker last.
    pub text: Rc<Vec<char>>,
    /// Offset of the next character to read.
    pub index: usize,
    /// Line of the next character to read, counted from one.
    pub line: usize,
}

/// What a [`State`] stands for in contracts.
pub struct Position {
    pub file: Seq<char>,
    pub text: Seq<char>,
    pub index: nat,
    pub line: nat,
}

impl Position {
    /// The cursor lies inside the text or just behind it.
    pub open spec fn wf(self) -> bool {
        self.index <= self.text.len()
    }

    /// `self` is a position over the same input as `from`, at or behind the
    /// cursor of `from`.
    pub open spec fn extends(self, from: Position) -> bool {
        &&& self.file == from.file
        &&& self.text == from.text
        &&& from.index <= self.index <= self.text.len()
    }

    /// The same input and line with the cursor moved to `index`.
    pub open spec fn at(self, index: nat) -> Position {
        Position { index, ..self }
    }
}

/// The number of line feeds among the characters of `text` from `from` up
/// to, and not including, `to`.
pub open spec fn line_feeds(text: Seq<char>, from: int, to: int) -> nat
    decreases to - from,
{
    if to <= from {
        0
    } else {
        line_feeds(text, from, to - 1) + if text[to - 1] == '\n' {
            1nat
        } else {
            0nat
        }
    }
}

impl View for State {
    type V = Position;

    open spec fn view(&self) -> Position {
        Position {
            file: self.file@,
            text: self.text@,
            index: self.index as nat,
            line: self.line as nat,
        }
    }
}

impl State {
    /// A second handle on the same snapshot; the text is shared, not copied.
    pub fn duplicate(&self) -> (r: State)
        ensures
            r == *self,
    {
        State {
            file: Rc::clone(&self.file),
            text: Rc::clone(&self.text),
            index: self.index,
            line: self.line,
        }
    }

    /// The state behind the next `count` characters. The line count goes up
    /// by one for each line feed among them, and for nothing else.
    pub fn advance(&self, count: usize) -> (r: State)
        requires
            self.index + count <= self.text@.len(),
            self.line + count <= usize::MAX,
        ensures
            r@ == (Position {
                index: self@.index + count as nat,
                line: self@.line + line_feeds(
                    self.text@,
                    self.index as int,
                    self.index + count,
                ),
                ..self@
            }),
    {
        let length = self.text.len();
        let mut line = self.line;
        let mut done: usize = 0;
        while done < count
            invariant
                done <= count,
                length == self.text@.len(),
                self.index + count <= self.text@.len(),
                self.line + count <= usize::MAX,
                line == self.line + line_feeds(
                    self.text@,
                    self.index as int,
                    self.index + done,
                ),
                line <= self.line + done,
            decreases count - done,
        {
            if self.text[self.index + done] == '\n' {
                line = line + 1;
            }
            done = done + 1;
        }
        State {
            file: Rc::clone(&self.file),
            text: Rc::clone(&self.text),
            index: self.index + count,
            line,
        }
    }

    /// The same input and line with the cursor at `index`.
    pub fn with_index(&self, index: usize) -> (r: State)
        ensures
            r@ == self@.at(index as nat),
    {
        State {
            file: Rc::clone(&self.file),
            text: Rc::clone(&self.text),
            index,
            line: self.line,
        }
    }
}

} // verus!
