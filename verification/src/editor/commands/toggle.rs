//! Command to toggle event type between Dialogue and Comment.
use crate::editor::commands::common::{
    byte_len, contains_index, count_message, counted_message, is_selected,
};
use crate::editor::document::{CommandResult, EditorDocument, EditorError, Position, Range};
use crate::editor::edits::{
    apply_edits, edit_anchored, edit_view, edits_anchored, edits_view, replace_spans, EditSpec, LineEdit,
};
use crate::editor::lines::{
    collect_event_lines, comment_tag, dialogue_tag, dialogue_tag_bytes, event_lines,
    lemma_event_lines_shape, lines_found, matches_at, spans_of, no_events_message, span_shaped,
    spans_well_shaped, LineSpan, LINE_FEED,
};
use crate::editor::fields::{event_fields, lemma_fields_after_tag, tag_length};
use crate::editor::layout::{
    lemma_interleave, lemma_replace_keeps_gaps, lemma_well_shaped_in_order, line_gaps,
};
use crate::editor::rewrites::{
    lemma_replace_event_texts, picks_line_texts, replaced_texts, span_edits,
};
use crate::editor::texts::{
    event_texts, fits_event_line, lemma_event_texts_of_lines, lemma_span_text, span_texts,
};
use crate::text::{
    has_prefix_at, is_ascii_byte, lemma_boundary_near_ascii, lemma_encode_utf8_concat,
    lemma_str_bytes, str_slice,
};
use vstd::prelude::*;
use vstd::string::*;
use vstd::utf8::*;

verus! {

/// Command to toggle event type between Dialogue and Comment
#[derive(Debug, Clone)]
pub struct ToggleEventTypeCommand {
    /// Indices of the events to toggle; empty means all events.
    pub event_indices: Vec<usize>,
    /// A description that replaces the default one.
    pub description: Option<String>,
}

/// The event line `line` with its type switched: `Dialogue:` becomes `Comment:`, and
/// `Comment:` becomes `Dialogue:`.
pub open spec fn toggled_line(line: Seq<u8>) -> Seq<u8> {
    if has_prefix_at(line, 0, dialogue_tag()) {
        comment_tag() + line.skip(dialogue_tag().len() as int)
    } else {
        dialogue_tag() + line.skip(comment_tag().len() as int)
    }
}

/// Toggling an event line gives an event line, and toggling it again gives the line
/// back.
pub proof fn lemma_toggle_twice(line: Seq<u8>)
    requires
        has_prefix_at(line, 0, dialogue_tag()) || has_prefix_at(line, 0, comment_tag()),
    ensures
        has_prefix_at(toggled_line(line), 0, dialogue_tag()) || has_prefix_at(
            toggled_line(line),
            0,
            comment_tag(),
        ),
        toggled_line(toggled_line(line)) == line,
{
    let once = toggled_line(line);
    if has_prefix_at(line, 0, dialogue_tag()) {
        assert(once.subrange(0, 8) =~= comment_tag());
        assert(!has_prefix_at(once, 0, dialogue_tag())) by {
            if has_prefix_at(once, 0, dialogue_tag()) {
                assert(once.subrange(0, 9)[0] == dialogue_tag()[0]);
            }
        }
        assert(once.skip(8) =~= line.skip(9));
        assert(line =~= dialogue_tag() + line.skip(9));
    } else {
        assert(once.subrange(0, 9) =~= dialogue_tag());
        assert(once.skip(9) =~= line.skip(8));
        assert(line =~= comment_tag() + line.skip(8));
    }
}

/// Toggling an event line switches its type and keeps every one of its fields.
pub proof fn lemma_toggle_keeps_fields(line: Seq<u8>)
    requires
        has_prefix_at(line, 0, dialogue_tag()) || has_prefix_at(line, 0, comment_tag()),
    ensures
        has_prefix_at(toggled_line(line), 0, dialogue_tag()) != has_prefix_at(
            line,
            0,
            dialogue_tag(),
        ),
        event_fields(toggled_line(line)) == event_fields(line),
{
    let once = toggled_line(line);
    lemma_toggle_twice(line);
    let t = tag_length(line);
    let by = tag_length(once) - t;
    if has_prefix_at(line, 0, dialogue_tag()) {
        assert(once.subrange(0, 8) =~= comment_tag());
        assert(!has_prefix_at(once, 0, dialogue_tag())) by {
            if has_prefix_at(once, 0, dialogue_tag()) {
                assert(once.subrange(0, 9)[0] == dialogue_tag()[0]);
                assert(once.subrange(0, 8)[0] == comment_tag()[0]);
            }
        }
        assert(tag_length(once) == 8);
    } else {
        assert(once.subrange(0, 9) =~= dialogue_tag());
        assert(tag_length(once) == 9);
        assert(t == 8);
    }
    assert forall|j: int| t <= j < line.len() implies #[trigger] line[j] == once[j + by] by {}
    lemma_fields_after_tag(once, line);
}

/// The replacement of one event line of `b` by its toggled text.
pub open spec fn toggle_edit(b: Seq<u8>, span: LineSpan) -> EditSpec {
    EditSpec {
        start: span.start,
        end: span.end,
        insert: toggled_line(b.subrange(span.start, span.end)),
    }
}

/// The replacements that toggle the selected ones among the event lines `spans` of `b`,
/// in order.
pub open spec fn toggle_edits(b: Seq<u8>, spans: Seq<LineSpan>, indices: Seq<usize>) -> Seq<
    EditSpec,
>
    decreases spans.len(),
{
    if spans.len() == 0 {
        Seq::empty()
    } else {
        let earlier = toggle_edits(b, spans.drop_last(), indices);
        if is_selected(indices, spans.last().index) {
            earlier.push(toggle_edit(b, spans.last()))
        } else {
            earlier
        }
    }
}

/// Where the last of the changed spans ends once replaced: the furthest end of an edit's
/// start plus the length of its insert.
pub open spec fn changed_end(edits: Seq<EditSpec>) -> int
    decreases edits.len(),
{
    if edits.len() == 0 {
        0
    } else {
        let here = edits.last().start + edits.last().insert.len();
        let before = changed_end(edits.drop_last());
        if edits.len() == 1 || here > before {
            here
        } else {
            before
        }
    }
}

/// The event texts after toggling the selected ones among the event lines `spans` of `b`:
/// each selected text toggled, the others as they were.
pub open spec fn toggled_texts(b: Seq<u8>, spans: Seq<LineSpan>, indices: Seq<usize>) -> Seq<
    Seq<u8>,
> {
    Seq::new(
        spans.len(),
        |k: int|
            if is_selected(indices, k as nat) {
                toggled_line(b.subrange(spans[k].start, spans[k].end))
            } else {
                b.subrange(spans[k].start, spans[k].end)
            },
    )
}

/// The edit that toggles an event line of `b` where `indices` selects it.
pub open spec fn toggle_pick(b: Seq<u8>, indices: Seq<usize>) -> spec_fn(LineSpan) -> Option<
    EditSpec,
> {
    |span: LineSpan|
        if is_selected(indices, span.index) {
            Some(toggle_edit(b, span))
        } else {
            None
        }
}

/// The toggling edits are those that [`toggle_pick`] gives, line by line.
proof fn lemma_toggle_edits_pick(b: Seq<u8>, spans: Seq<LineSpan>, indices: Seq<usize>)
    ensures
        toggle_edits(b, spans, indices) == span_edits(spans, toggle_pick(b, indices)),
    decreases spans.len(),
{
    if spans.len() > 0 {
        lemma_toggle_edits_pick(b, spans.drop_last(), indices);
    }
}

/// The toggled text of an event line's text fits the line in its place.
proof fn lemma_toggled_fits(line: Seq<u8>)
    requires
        has_prefix_at(line, 0, dialogue_tag()) || has_prefix_at(line, 0, comment_tag()),
        forall|j: int| 0 <= j < line.len() ==> line[j] != LINE_FEED,
    ensures
        fits_event_line(toggled_line(line), line.last()),
{
    let toggled = toggled_line(line);
    lemma_toggle_twice(line);
    if has_prefix_at(line, 0, dialogue_tag()) {
        let rest = line.skip(9);
        assert forall|j: int| 0 <= j < toggled.len() implies toggled[j] != LINE_FEED by {
            if j >= 8 {
                assert(toggled[j] == line[j + 1]);
            }
        }
        if rest.len() == 0 {
            assert(line.last() == line.subrange(0, 9)[8]);
        } else {
            assert(toggled.last() == line[line.len() - 1]);
        }
    } else {
        let rest = line.skip(8);
        assert forall|j: int| 0 <= j < toggled.len() implies toggled[j] != LINE_FEED by {
            if j >= 9 {
                assert(toggled[j] == line[j - 1]);
            }
        }
        if rest.len() == 0 {
            assert(line.last() == line.subrange(0, 8)[7]);
        } else {
            assert(toggled.last() == line[line.len() - 1]);
        }
    }
}

/// Each toggling edit replaces an event line's text by a text that fits there.
proof fn lemma_toggle_pick_fits(b: Seq<u8>, indices: Seq<usize>)
    requires
        event_lines(b) is Some,
    ensures
        picks_line_texts(b, event_lines(b).unwrap(), toggle_pick(b, indices)),
        toggle_edits(b, event_lines(b).unwrap(), indices) == span_edits(
            event_lines(b).unwrap(),
            toggle_pick(b, indices),
        ),
{
    let spans = event_lines(b).unwrap();
    let pick = toggle_pick(b, indices);
    lemma_event_lines_shape(b);
    lemma_toggle_edits_pick(b, spans, indices);
    assert forall|k: int| 0 <= k < spans.len() && (#[trigger] pick(spans[k])) is Some implies {
        let edit = pick(spans[k]).unwrap();
        &&& edit.start == spans[k].start
        &&& edit.end == spans[k].end
        &&& fits_event_line(edit.insert, b[spans[k].end - 1])
    } by {
        assert(span_shaped(b, spans[k], 0 + k, 0));
        lemma_span_text(b, spans[k], 0 + k, 0);
        lemma_toggled_fits(b.subrange(spans[k].start, spans[k].end));
    }
}

/// Toggling the selected event lines of a script gives the selected events their toggled
/// texts and leaves the texts of the others, their number, and every byte around the
/// event texts as they were.
pub proof fn lemma_toggle_texts(b: Seq<u8>, indices: Seq<usize>)
    requires
        event_lines(b) is Some,
    ensures
        ({
            let spans = event_lines(b).unwrap();
            let after = apply_edits(b, toggle_edits(b, spans, indices), 0);
            &&& event_texts(after) == Some(toggled_texts(b, spans, indices))
            &&& event_lines(after) matches Some(moved) && line_gaps(after, moved) == line_gaps(
                b,
                spans,
            )
        }),
{
    let spans = event_lines(b).unwrap();
    let pick = toggle_pick(b, indices);
    lemma_event_lines_shape(b);
    lemma_toggle_pick_fits(b, indices);
    lemma_replace_event_texts(b, pick);
    lemma_replace_keeps_gaps(b, pick);
    assert forall|k: int| 0 <= k < spans.len() implies spans[k].index == k by {
        assert(span_shaped(b, spans[k], 0 + k, 0));
    }
    assert(replaced_texts(b, spans, pick, 0) =~= toggled_texts(b, spans, indices));
}

/// Toggling the same events twice gives every event its text back.
pub proof fn lemma_toggle_twice_restores(b: Seq<u8>, indices: Seq<usize>)
    requires
        event_lines(b) is Some,
    ensures
        ({
            let once = apply_edits(b, toggle_edits(b, event_lines(b).unwrap(), indices), 0);
            &&& event_lines(once) is Some
            &&& event_texts(apply_edits(
                once,
                toggle_edits(once, event_lines(once).unwrap(), indices),
                0,
            )) == event_texts(b)
        }),
{
    let spans = event_lines(b).unwrap();
    let once = apply_edits(b, toggle_edits(b, spans, indices), 0);
    lemma_toggle_texts(b, indices);
    lemma_event_texts_of_lines(once);
    lemma_event_texts_of_lines(b);
    let spans2 = event_lines(once).unwrap();
    lemma_toggle_texts(once, indices);
    lemma_event_lines_shape(b);
    let first = toggled_texts(b, spans, indices);
    assert(span_texts(once, spans2) == first);
    assert(spans2.len() == spans.len()) by {
        assert(span_texts(once, spans2).len() == spans2.len());
    }
    assert(toggled_texts(once, spans2, indices) =~= span_texts(b, spans)) by {
        assert forall|k: int| 0 <= k < spans.len() implies #[trigger] toggled_texts(
            once,
            spans2,
            indices,
        )[k] == span_texts(b, spans)[k] by {
            assert(span_texts(once, spans2)[k] == first[k]);
            if is_selected(indices, k as nat) {
                assert(span_shaped(b, spans[k], 0 + k, 0));
                lemma_span_text(b, spans[k], 0 + k, 0);
                lemma_toggle_twice(b.subrange(spans[k].start, spans[k].end));
            }
        }
    }
}

/// What toggling does to each event: event `k` is toggled exactly when the index list is
/// empty or lists `k` (its `Dialogue:` tag becomes `Comment:`, and a `Comment:` tag becomes
/// `Dialogue:`, the rest of its text staying), and every other event keeps its text.
pub proof fn lemma_toggle_selects_listed(b: Seq<u8>, indices: Seq<usize>)
    requires
        event_lines(b) is Some,
    ensures
        ({
            let after_doc = apply_edits(b, toggle_edits(b, event_lines(b).unwrap(), indices), 0);
            let before = event_texts(b).unwrap();
            let after = event_texts(after_doc).unwrap();
            &&& event_texts(b) is Some
            &&& event_texts(after_doc) is Some
            &&& after.len() == before.len()
            &&& forall|k: int|
                0 <= k < before.len() ==> #[trigger] after[k] == if indices.len() == 0
                    || indices.contains(k as usize) {
                    if has_prefix_at(before[k], 0, dialogue_tag()) {
                        comment_tag() + before[k].skip(9)
                    } else {
                        dialogue_tag() + before[k].skip(8)
                    }
                } else {
                    before[k]
                }
        }),
{
    let spans = event_lines(b).unwrap();
    lemma_toggle_texts(b, indices);
    lemma_event_texts_of_lines(b);
    let before = event_texts(b).unwrap();
    let after = toggled_texts(b, spans, indices);
    assert forall|k: int| 0 <= k < before.len() implies #[trigger] after[k] == if indices.len()
        == 0 || indices.contains(k as usize) {
        if has_prefix_at(before[k], 0, dialogue_tag()) {
            comment_tag() + before[k].skip(9)
        } else {
            dialogue_tag() + before[k].skip(8)
        }
    } else {
        before[k]
    } by {
        assert((k as nat) as usize == k as usize);
    }
}

/// Toggling the selected events of a script keeps every field of every event.
pub proof fn lemma_toggle_keeps_event_fields(b: Seq<u8>, indices: Seq<usize>)
    requires
        event_lines(b) is Some,
    ensures
        ({
            let after = apply_edits(b, toggle_edits(b, event_lines(b).unwrap(), indices), 0);
            let before_texts = event_texts(b).unwrap();
            let after_texts = event_texts(after).unwrap();
            &&& event_texts(b) is Some
            &&& event_texts(after) is Some
            &&& after_texts.len() == before_texts.len()
            &&& forall|k: int|
                0 <= k < before_texts.len() ==> event_fields(#[trigger] after_texts[k])
                    == event_fields(before_texts[k])
        }),
{
    let spans = event_lines(b).unwrap();
    lemma_toggle_texts(b, indices);
    lemma_event_texts_of_lines(b);
    lemma_event_lines_shape(b);
    let before_texts = event_texts(b).unwrap();
    let after_texts = toggled_texts(b, spans, indices);
    assert forall|k: int| 0 <= k < before_texts.len() implies event_fields(
        #[trigger] after_texts[k],
    ) == event_fields(before_texts[k]) by {
        assert(span_shaped(b, spans[k], 0 + k, 0));
        lemma_span_text(b, spans[k], 0 + k, 0);
        if is_selected(indices, k as nat) {
            lemma_toggle_keeps_fields(b.subrange(spans[k].start, spans[k].end));
        }
    }
}

/// Toggling the same events twice gives the script back, byte for byte.
pub proof fn lemma_toggle_twice_restores_script(b: Seq<u8>, indices: Seq<usize>)
    requires
        event_lines(b) is Some,
    ensures
        ({
            let once = apply_edits(b, toggle_edits(b, event_lines(b).unwrap(), indices), 0);
            &&& event_lines(once) is Some
            &&& apply_edits(once, toggle_edits(once, event_lines(once).unwrap(), indices), 0)
                == b
        }),
{
    let spans = event_lines(b).unwrap();
    let once = apply_edits(b, toggle_edits(b, spans, indices), 0);
    lemma_toggle_pick_fits(b, indices);
    lemma_replace_keeps_gaps(b, toggle_pick(b, indices));
    let spans1 = event_lines(once).unwrap();
    let twice = apply_edits(once, toggle_edits(once, spans1, indices), 0);
    lemma_toggle_pick_fits(once, indices);
    lemma_replace_keeps_gaps(once, toggle_pick(once, indices));
    let spans2 = event_lines(twice).unwrap();
    lemma_toggle_twice_restores(b, indices);
    lemma_event_texts_of_lines(b);
    lemma_event_texts_of_lines(twice);
    lemma_event_lines_shape(b);
    lemma_well_shaped_in_order(b, spans);
    lemma_interleave(b, spans);
    lemma_interleave(twice, spans2);
}

/// The range that a command reports as changed by `edits`: from the first edit's start to
/// [`changed_end`].
pub open spec fn changed_range(edits: Seq<EditSpec>) -> Range {
    Range {
        start: Position { offset: edits[0].start as usize },
        end: Position { offset: changed_end(edits) as usize },
    }
}

/// The text of the event line `line` with its type toggled.
fn toggle_line_text(line: &str) -> (toggled: String)
    requires
        has_prefix_at(line.spec_bytes(), 0, dialogue_tag()) || has_prefix_at(
            line.spec_bytes(),
            0,
            comment_tag(),
        ),
    ensures
        encode_utf8(toggled@) == toggled_line(line.spec_bytes()),
{
    let bytes = line.as_bytes();
    let n = bytes.len();
    proof {
        lemma_str_bytes(line);
    }
    if matches_at(bytes, 0, dialogue_tag_bytes()) {
        let tag = "Comment:";
        proof {
            reveal_strlit("Comment:");
            is_ascii_spec_bytes(tag);
            assert(tag.spec_bytes() =~= comment_tag());
            assert(bytes@[8] == bytes@.subrange(0, 9)[8]);
            lemma_boundary_near_ascii(bytes@, 9);
            lemma_boundary_near_ascii(bytes@, n as int);
        }
        let rest = str_slice(line, 9, n);
        let mut toggled = tag.to_owned();
        toggled.append(rest);
        proof {
            lemma_encode_utf8_concat(tag@, rest@);
            assert(rest.spec_bytes() =~= bytes@.skip(9));
        }
        toggled
    } else {
        let tag = "Dialogue:";
        proof {
            reveal_strlit("Dialogue:");
            is_ascii_spec_bytes(tag);
            assert(tag.spec_bytes() =~= dialogue_tag());
            assert(bytes@[7] == bytes@.subrange(0, 8)[7]);
            lemma_boundary_near_ascii(bytes@, 8);
            lemma_boundary_near_ascii(bytes@, n as int);
        }
        let rest = str_slice(line, 8, n);
        let mut toggled = tag.to_owned();
        toggled.append(rest);
        proof {
            lemma_encode_utf8_concat(tag@, rest@);
            assert(rest.spec_bytes() =~= bytes@.skip(8));
        }
        toggled
    }
}

impl ToggleEventTypeCommand {
    /// Create a new event type toggle command
    pub fn new(event_indices: Vec<usize>) -> (command: Self)
        ensures
            command.event_indices == event_indices,
            command.description is None,
    {
        Self { event_indices, description: None }
    }

    /// Toggle a single event
    pub fn single(event_index: usize) -> (command: Self)
        ensures
            command.event_indices@ == seq![event_index],
            command.description is None,
    {
        let mut event_indices = Vec::new();
        event_indices.push(event_index);
        Self::new(event_indices)
    }

    /// Toggle all events
    pub fn all() -> (command: Self)
        ensures
            command.event_indices@.len() == 0,
            command.description is None,
    {
        Self::new(Vec::new())  // Empty means all events

    }

    /// Set a custom description for this command
    #[must_use]
    pub fn with_description(self, description: String) -> (command: Self)
        ensures
            command.event_indices == self.event_indices,
            command.description == Some(description),
    {
        let mut command = self;
        command.description = Some(description);
        command
    }

    /// Switches the type of the selected events of the `[Events]` section between
    /// `Dialogue` and `Comment`, all in one change.
    ///
    /// Fails, leaving the document as it was, where the script has no events section.
    /// Otherwise each selected event gets its toggled text and every other event keeps
    /// its own, and the result reports the changed range, from the first toggled line to
    /// the furthest end of a toggled line measured at its old start, puts the cursor at
    /// the end of the document, and says how many events were toggled.
    pub fn execute(&self, document: &mut EditorDocument) -> (result: Result<
        CommandResult,
        EditorError,
    >)
        requires
            old(document)@.len() < usize::MAX,
        ensures
            match event_lines(old(document)@) {
                None => {
                    &&& result matches Err(EditorError::CommandFailed { message })
                    &&& message@ == no_events_message()
                    &&& final(document)@ == old(document)@
                },
                Some(spans) => {
                    let edits = toggle_edits(old(document)@, spans, self.event_indices@);
                    &&& final(document)@ == apply_edits(old(document)@, edits, 0)
                    &&& event_texts(final(document)@) == Some(
                        toggled_texts(old(document)@, spans, self.event_indices@),
                    )
                    &&& event_texts(final(document)@) matches Some(after) && after.len()
                        == event_texts(old(document)@).unwrap().len() && forall|k: int|
                        0 <= k < after.len() ==> #[trigger] after[k] == {
                            let before = event_texts(old(document)@).unwrap()[k];
                            if self.event_indices@.len() == 0 || self.event_indices@.contains(
                                k as usize,
                            ) {
                                if has_prefix_at(before, 0, dialogue_tag()) {
                                    comment_tag() + before.skip(9)
                                } else {
                                    dialogue_tag() + before.skip(8)
                                }
                            } else {
                                before
                            }
                        }
                    &&& result matches Ok(outcome)
                    &&& outcome.success
                    &&& if edits.len() > 0 {
                        &&& outcome.content_changed
                        &&& outcome.modified_range == Some(changed_range(edits))
                        &&& outcome.new_cursor == Some(
                            Position { offset: final(document)@.len() as usize },
                        )
                        &&& outcome.message matches Some(message) && counted_message(
                            message@,
                            "Toggled type for "@,
                            edits.len() as usize,
                            " events"@,
                        )
                    } else {
                        &&& !outcome.content_changed
                        &&& outcome.modified_range is None
                        &&& outcome.new_cursor is None
                        &&& outcome.message matches Some(message) && message@
                            == "No events were toggled"@
                    }
                },
            },
    {
        let content = document.text();
        let text = content.as_str();
        let ghost b = document@;
        proof {
            lemma_str_bytes(text);
        }
        let ghost spans = event_lines(b).unwrap();
        let event_lines = collect_event_lines(text)?;
        let ghost indices = self.event_indices@;
        proof {
            lemma_event_lines_shape(b);
        }
        let mut replacements: Vec<LineEdit> = Vec::new();
        let mut total_range: Option<Range> = None;
        let mut k: usize = 0;
        while k < event_lines.len()
            invariant
                0 <= k <= event_lines@.len(),
                b == text.spec_bytes(),
                b.len() < usize::MAX,
                indices == self.event_indices@,
                lines_found(event_lines@, spans, b),
                spans_well_shaped(b, spans, 0, 0),
                edits_view(replacements@) == toggle_edits(b, spans.take(k as int), indices),
                edits_anchored(b, edits_view(replacements@)),
                replacements@.len() > 0 && k < spans.len() ==> replacements@.last().end
                    < spans[k as int].start,
                replacements@.len() == 0 ==> total_range is None,
                replacements@.len() > 0 ==> total_range == Some(
                    changed_range(edits_view(replacements@)),
                ),
                replacements@.len() > 0 ==> replacements@[0].start <= replacements@.last().start,
                replacements@.len() > 0 ==> 0 <= changed_end(edits_view(replacements@))
                    <= usize::MAX,
            decreases event_lines@.len() - k,
        {
            let event_line = &event_lines[k];
            let ghost span = spans[k as int];
            let ghost before = edits_view(replacements@);
            proof {
                assert(spans_of(event_lines@).len() == event_lines@.len());
                assert(spans.len() == event_lines@.len());
                assert(span_shaped(b, span, 0 + k, 0));
                assert(event_line.span() == span);
                assert(spans.take(k + 1).drop_last() =~= spans.take(k as int));
                assert(spans.take(k + 1).last() == span);
            }
            if self.event_indices.len() == 0 || contains_index(
                &self.event_indices,
                event_line.index,
            ) {
                proof {
                    let line = event_line.line.spec_bytes();
                    if has_prefix_at(b, span.start, dialogue_tag()) {
                        assert(line.subrange(0, 9) =~= b.subrange(span.start, span.start + 9));
                    } else {
                        assert(line.subrange(0, 8) =~= b.subrange(span.start, span.start + 8));
                    }
                }
                let new_line = toggle_line_text(event_line.line);
                let new_len = byte_len(new_line.as_str());
                proof {
                    assert(new_len <= event_line.end - event_line.start + 1);
                }
                let ghost here = event_line.start + new_len;
                proof {
                    assert(new_len == toggle_edit(b, span).insert.len());
                }
                let change_range = Range::new(
                    Position::new(event_line.start),
                    Position::new(event_line.start + new_len),
                );
                total_range =
                    Some(
                    match total_range {
                        Some(existing) => existing.union(&change_range),
                        None => change_range,
                    },
                );
                let edit = LineEdit { start: event_line.start, end: event_line.end, text: new_line };
                let ghost old_replacements = replacements@;
                replacements.push(edit);
                proof {
                    let after = edits_view(replacements@);
                    assert(after =~= before.push(toggle_edit(b, span)));
                    assert(edit_anchored(b, toggle_edit(b, span)));
                    assert forall|j: int| 0 <= j < after.len() implies #[trigger] edit_anchored(
                        b,
                        after[j],
                    ) by {
                        if j < before.len() {
                            assert(after[j] == before[j]);
                        }
                    }
                    assert forall|j: int| 0 <= j < after.len() - 1 implies {
                        &&& #[trigger] after[j].end <= after[j + 1].start
                        &&& after[j].end == after[j + 1].start ==> 0 < after[j].end
                            && is_ascii_byte(b[after[j].end - 1])
                    } by {
                        assert(after[j] == before[j]);
                        if j + 1 < before.len() {
                            assert(after[j + 1] == before[j + 1]);
                        }
                    }
                    assert(after.drop_last() =~= before);
                    if k + 1 < spans.len() {
                        assert(span_shaped(b, spans[k + 1], 0 + (k + 1), 0));
                        assert(span.end_with_newline <= spans[k + 1].start);
                    }
                    assert(after[0].start == replacements@[0].start);
                    assert(after.last() == toggle_edit(b, span));
                    assert(changed_end(after) == if after.len() == 1 || here > changed_end(
                        before,
                    ) {
                        here
                    } else {
                        changed_end(before)
                    });
                    assert(replacements@.last().start == span.start);
                    if before.len() == 0 {
                        assert(replacements@.len() == 1);
                        assert(replacements@[0] == replacements@.last());
                    }
                    if before.len() > 0 {
                        assert(replacements@[0] == old_replacements[0]);
                        assert(before.last() == edit_view(old_replacements.last()));
                        assert(old_replacements[0].start <= old_replacements.last().start);
                        assert(edit_anchored(b, before[before.len() - 1]));
                        assert(old_replacements.last().start <= old_replacements.last().end);
                        assert(before[0] == after[0]);
                        assert(before[0].start <= before.last().start);
                        assert(before.last().end <= span.start);
                    }
                }
            } else {
                proof {
                    if replacements@.len() > 0 && k + 1 < spans.len() {
                        assert(span_shaped(b, spans[k + 1], 0 + (k + 1), 0));
                        assert(span.end_with_newline <= spans[k + 1].start);
                    }
                }
            }
            k = k + 1;
        }
        proof {
            assert(spans.take(k as int) =~= spans);
        }
        replace_spans(document, &replacements)?;
        proof {
            lemma_toggle_texts(b, indices);
            lemma_toggle_selects_listed(b, indices);
        }
        let changes_made = replacements.len();
        if changes_made > 0 {
            let range = match total_range {
                Some(range) => range,
                None => Range::new(Position::new(0), Position::new(0)),
            };
            let message = count_message("Toggled type for ", changes_made, " events");
            Ok(
                CommandResult::success_with_change(
                    range,
                    Position::new(document.len_bytes()),
                ).with_message(message),
            )
        } else {
            let message = "No events were toggled".to_owned();
            Ok(CommandResult::success().with_message(message))
        }
    }

    /// What the command does, for the user.
    pub fn description(&self) -> (text: &str)
        ensures
            text@ == match self.description {
                Some(description) => description@,
                None => "Toggle event type"@,
            },
    {
        match &self.description {
            Some(description) => description.as_str(),
            None => "Toggle event type",
        }
    }

    /// An estimate of the memory the command holds, in bytes.
    pub fn memory_usage(&self) -> (bytes: usize)
        requires
            core::mem::size_of::<Self>() + self.event_indices@.len() * core::mem::size_of::<usize>()
                + match self.description {
                Some(description) => encode_utf8(description@).len(),
                None => 0,
            } <= usize::MAX,
        ensures
            bytes == core::mem::size_of::<Self>() + self.event_indices@.len()
                * core::mem::size_of::<usize>() + match self.description {
                Some(description) => encode_utf8(description@).len(),
                None => 0,
            },
    {
        let description_len = match &self.description {
            Some(description) => byte_len(description.as_str()),
            None => 0,
        };
        core::mem::size_of::<Self>() + self.event_indices.len() * core::mem::size_of::<usize>()
            + description_len
    }
}

} // verus!
