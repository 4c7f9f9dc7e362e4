//! Command to delete a single event from an ASS document.
use crate::editor::commands::common::{count_message, counted_message};
use crate::editor::document::{
    splice, CommandResult, EditorDocument, EditorError, Position, Range,
};
use crate::editor::lines::{
    collect_event_lines, event_lines, lemma_event_lines_shape, no_events_message, span_shaped,
    spans_of, EventLine,
};
use crate::editor::texts::{event_texts, lemma_remove_one_event};
use crate::text::{lemma_boundary_near_ascii, lemma_str_bytes};
use vstd::prelude::*;
use vstd::string::*;
use vstd::utf8::*;

verus! {

/// Command to delete a single event from the ASS document
///
/// Removes an event (Dialogue or Comment) at the specified index from the `[Events]` section.
/// The index is 0-based and includes both Dialogue and Comment events.
#[derive(Debug, Clone, PartialEq, Eq, Structural)]
pub struct DeleteEventCommand {
    /// Index of the event to delete
    pub event_index: usize,
}

/// Where the event line numbered `index` is among `lines`, if it is there.
pub fn find_event(lines: &Vec<EventLine>, index: usize) -> (found: Option<usize>)
    ensures
        match found {
            Some(k) => k < lines@.len() && lines@[k as int].index == index && forall|j: int|
                0 <= j < k ==> lines@[j].index != index,
            None => forall|j: int| 0 <= j < lines@.len() ==> lines@[j].index != index,
        },
{
    let mut k: usize = 0;
    while k < lines.len()
        invariant
            0 <= k <= lines@.len(),
            forall|j: int| 0 <= j < k ==> lines@[j].index != index,
        decreases lines@.len() - k,
    {
        if lines[k].index == index {
            return Some(k);
        }
        k = k + 1;
    }
    None
}

impl DeleteEventCommand {
    /// Create a new delete event command
    pub fn new(event_index: usize) -> (command: Self)
        ensures
            command.event_index == event_index,
    {
        Self { event_index }
    }

    /// Removes the event line numbered `event_index`, with its line break.
    ///
    /// Fails, leaving the document as it was, where the script has no events section or
    /// fewer events than the index needs. Otherwise that event's text leaves the event
    /// texts, the others staying in order, and the result reports an empty changed
    /// range at the start of the removed line and puts the cursor there.
    pub fn execute(&self, document: &mut EditorDocument) -> (result: Result<
        CommandResult,
        EditorError,
    >)
        ensures
            match event_lines(old(document)@) {
                None => {
                    &&& result matches Err(EditorError::CommandFailed { message })
                    &&& message@ == no_events_message()
                    &&& final(document)@ == old(document)@
                },
                Some(spans) => if self.event_index < spans.len() {
                    let span = spans[self.event_index as int];
                    let at = Position { offset: span.start as usize };
                    &&& final(document)@ == splice(
                        old(document)@,
                        span.start,
                        span.end_with_newline,
                        Seq::empty(),
                    )
                    &&& event_texts(final(document)@) == Some(
                        event_texts(old(document)@).unwrap().remove(self.event_index as int),
                    )
                    &&& result matches Ok(outcome)
                    &&& outcome.success
                    &&& outcome.content_changed
                    &&& outcome.message is None
                    &&& outcome.modified_range == Some(Range { start: at, end: at })
                    &&& outcome.new_cursor == Some(at)
                } else {
                    &&& result matches Err(EditorError::CommandFailed { message })
                    &&& counted_message(message@, "Event index "@, self.event_index, " not found"@)
                    &&& final(document)@ == old(document)@
                },
            },
    {
        let content = document.text();
        let text = content.as_str();
        let ghost b = document@;
        let ghost spans = event_lines(b).unwrap();
        proof {
            lemma_str_bytes(text);
            lemma_event_lines_shape(b);
        }
        let event_lines = collect_event_lines(text)?;
        proof {
            assert(spans_of(event_lines@).len() == event_lines@.len());
            assert forall|j: int| 0 <= j < event_lines@.len() implies event_lines@[j].index
                == j by {
                assert(event_lines@[j].span() == spans[j]);
                assert(span_shaped(b, spans[j], 0 + j, 0));
            }
        }
        let delete_range = match find_event(&event_lines, self.event_index) {
            Some(k) => {
                let event_line = &event_lines[k];
                proof {
                    assert(k == self.event_index);
                    assert(event_line.span() == spans[k as int]);
                    assert(span_shaped(b, spans[k as int], 0 + k, 0));
                }
                Some(
                    Range::new(
                        Position::new(event_line.start),
                        Position::new(event_line.end_with_newline),
                    ),
                )
            },
            None => {
                proof {
                    if self.event_index < spans.len() {
                        assert(event_lines@[self.event_index as int].index == self.event_index);
                    }
                }
                None
            },
        };
        if let Some(range) = delete_range {
            proof {
                let span = spans[self.event_index as int];
                lemma_boundary_near_ascii(b, span.start);
                lemma_boundary_near_ascii(b, span.end_with_newline);
            }
            document.delete(range)?;
            proof {
                lemma_remove_one_event(b, self.event_index as int);
            }
            Ok(
                CommandResult::success_with_change(
                    Range::new(range.start, range.start),
                    range.start,
                ),
            )
        } else {
            Err(
                EditorError::command_failed(
                    count_message("Event index ", self.event_index, " not found"),
                ),
            )
        }
    }

    /// What the command does, for the user.
    pub fn description(&self) -> (text: &str)
        ensures
            text@ == "Delete event"@,
    {
        "Delete event"
    }

    /// An estimate of the memory the command holds, in bytes.
    pub fn memory_usage(&self) -> (bytes: usize)
        ensures
            bytes == core::mem::size_of::<Self>(),
    {
        core::mem::size_of::<Self>()
    }
}

} // verus!
