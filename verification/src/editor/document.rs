//! Positions, ranges, command results, errors and the edited document.
use crate::text::lemma_encode_utf8_concat;
use vstd::prelude::*;
use vstd::string::*;
use vstd::utf8::*;

verus! {

/// A byte offset into the document.
#[derive(Clone, Copy, Debug, PartialEq, Eq, Structural)]
pub struct Position {
    /// Offset in bytes from the start of the document.
    pub offset: usize,
}

impl Position {
    /// A position at `offset`.
    pub fn new(offset: usize) -> (position: Self)
        ensures
            position.offset == offset,
    {
        Position { offset }
    }
}

/// A span of the document between two positions.
#[derive(Clone, Copy, Debug, PartialEq, Eq, Structural)]
pub struct Range {
    /// Where the span begins.
    pub start: Position,
    /// Where the span ends.
    pub end: Position,
}

impl Range {
    /// The span from `start` to `end`.
    pub fn new(start: Position, end: Position) -> (range: Self)
        ensures
            range.start == start,
            range.end == end,
    {
        Range { start, end }
    }

    /// The smallest span that covers both spans.
    pub fn union(&self, other: &Range) -> (range: Range)
        ensures
            range.start.offset == if self.start.offset <= other.start.offset {
                self.start.offset
            } else {
                other.start.offset
            },
            range.end.offset == if self.end.offset >= other.end.offset {
                self.end.offset
            } else {
                other.end.offset
            },
    {
        let start = if self.start.offset <= other.start.offset {
            self.start
        } else {
            other.start
        };
        let end = if self.end.offset >= other.end.offset {
            self.end
        } else {
            other.end
        };
        Range { start, end }
    }
}

/// What a command reports after it ran.
#[derive(Clone, Debug)]
pub struct CommandResult {
    /// The command did what it was asked.
    pub success: bool,
    /// A note for the user.
    pub message: Option<String>,
    /// The part of the document that changed.
    pub modified_range: Option<Range>,
    /// Where the cursor goes.
    pub new_cursor: Option<Position>,
    /// The document's text changed.
    pub content_changed: bool,
}

impl CommandResult {
    /// Success without a change of the text.
    pub fn success() -> (result: Self)
        ensures
            result.success,
            result.message is None,
            result.modified_range is None,
            result.new_cursor is None,
            !result.content_changed,
    {
        CommandResult {
            success: true,
            message: None,
            modified_range: None,
            new_cursor: None,
            content_changed: false,
        }
    }

    /// Success that changed `range` and moves the cursor to `cursor`.
    pub fn success_with_change(range: Range, cursor: Position) -> (result: Self)
        ensures
            result.success,
            result.message is None,
            result.modified_range == Some(range),
            result.new_cursor == Some(cursor),
            result.content_changed,
    {
        CommandResult {
            success: true,
            message: None,
            modified_range: Some(range),
            new_cursor: Some(cursor),
            content_changed: true,
        }
    }

    /// The same result with `message` attached.
    pub fn with_message(self, message: String) -> (result: Self)
        ensures
            result.success == self.success,
            result.message == Some(message),
            result.modified_range == self.modified_range,
            result.new_cursor == self.new_cursor,
            result.content_changed == self.content_changed,
    {
        CommandResult { message: Some(message), ..self }
    }
}

/// Why an editing operation or command failed.
#[derive(Clone, Debug, PartialEq, Eq)]
pub enum EditorError {
    /// The range is reversed, runs past the end, or cuts a character.
    InvalidRange { start: usize, end: usize, length: usize },
    /// A command could not do what it was asked.
    CommandFailed { message: String },
}

impl EditorError {
    /// A command failure with `message`.
    pub fn command_failed(message: String) -> (error: Self)
        ensures
            error == (EditorError::CommandFailed { message }),
    {
        EditorError::CommandFailed { message }
    }
}

/// `start..end` can be cut out of or replaced in `bytes` without splitting a character.
pub open spec fn valid_edit_range(bytes: Seq<u8>, start: int, end: int) -> bool {
    &&& 0 <= start <= end <= bytes.len()
    &&& is_char_boundary(bytes, start)
    &&& is_char_boundary(bytes, end)
}

/// `bytes` with `start..end` replaced by `insert`.
pub open spec fn splice(bytes: Seq<u8>, start: int, end: int, insert: Seq<u8>) -> Seq<u8> {
    bytes.subrange(0, start) + insert + bytes.subrange(end, bytes.len() as int)
}

/// The text of a subtitle script being edited.
pub struct EditorDocument {
    text: String,
}

impl View for EditorDocument {
    type V = Seq<u8>;

    /// The document's bytes in UTF-8.
    closed spec fn view(&self) -> Seq<u8> {
        encode_utf8(self.text@)
    }
}

impl EditorDocument {
    /// The document's bytes are valid UTF-8.
    pub proof fn lemma_valid_utf8(&self)
        ensures
            valid_utf8(self@),
    {
        encode_utf8_valid_utf8(self.text@);
    }

    /// A document holding `content`.
    pub fn from_content(content: &str) -> (document: Self)
        ensures
            document@ == content.spec_bytes(),
    {
        EditorDocument { text: content.to_owned() }
    }

    /// A copy of the document's text.
    pub fn text(&self) -> (text: String)
        ensures
            encode_utf8(text@) == self@,
    {
        self.text.clone()
    }

    /// The document's length in bytes.
    pub fn len_bytes(&self) -> (length: usize)
        ensures
            length == self@.len(),
    {
        self.text.as_str().as_bytes().len()
    }

    /// Removes `range`; fails, leaving the text as it was, where the range is reversed,
    /// runs past the end or cuts a character.
    pub fn delete(&mut self, range: Range) -> (result: Result<(), EditorError>)
        ensures
            valid_edit_range(old(self)@, range.start.offset as int, range.end.offset as int) ==> {
                &&& result is Ok
                &&& final(self)@ == splice(
                    old(self)@,
                    range.start.offset as int,
                    range.end.offset as int,
                    Seq::empty(),
                )
            },
            !valid_edit_range(old(self)@, range.start.offset as int, range.end.offset as int)
                ==> {
                &&& result == Err::<(), EditorError>(
                    EditorError::InvalidRange {
                        start: range.start.offset,
                        end: range.end.offset,
                        length: old(self)@.len() as usize,
                    },
                )
                &&& final(self)@ == old(self)@
            },
    {
        let nothing = "";
        proof {
            reveal_strlit("");
            assert(nothing@ =~= Seq::<char>::empty());
            assert(nothing.spec_bytes() =~= Seq::<u8>::empty());
        }
        self.replace(range, nothing)
    }

    /// Replaces `range` by `text`; fails, leaving the text as it was, where the range is
    /// reversed, runs past the end or cuts a character.
    pub fn replace(&mut self, range: Range, text: &str) -> (result: Result<(), EditorError>)
        ensures
            valid_edit_range(old(self)@, range.start.offset as int, range.end.offset as int) ==> {
                &&& result is Ok
                &&& final(self)@ == splice(
                    old(self)@,
                    range.start.offset as int,
                    range.end.offset as int,
                    text.spec_bytes(),
                )
            },
            !valid_edit_range(old(self)@, range.start.offset as int, range.end.offset as int)
                ==> {
                &&& result == Err::<(), EditorError>(
                    EditorError::InvalidRange {
                        start: range.start.offset,
                        end: range.end.offset,
                        length: old(self)@.len() as usize,
                    },
                )
                &&& final(self)@ == old(self)@
            },
    {
        let start = range.start.offset;
        let end = range.end.offset;
        let current = self.text.as_str();
        let length = current.as_bytes().len();
        if start > end || end > length || !current.is_char_boundary(start)
            || !current.is_char_boundary(end) {
            return Err(EditorError::InvalidRange { start, end, length });
        }
        let (left, _) = current.split_at(start);
        let (_, right) = current.split_at(end);
        let mut updated = left.to_owned();
        updated.append(text);
        updated.append(right);
        proof {
            let bytes = current.spec_bytes();
            assert(left.spec_bytes() =~= bytes.subrange(0, start as int));
            assert(right.spec_bytes() =~= bytes.subrange(end as int, bytes.len() as int));
            lemma_encode_utf8_concat(left@, text@);
            lemma_encode_utf8_concat(left@ + text@, right@);
            assert(updated@ == left@ + text@ + right@);
        }
        self.text = updated;
        Ok(())
    }
}

} // verus!
