//! Command to delete multiple events from an ASS document.
use crate::editor::commands::common::contains_index;
use crate::editor::document::{
    splice, CommandResult, EditorDocument, EditorError, Position, Range,
};
use crate::editor::edits::{
    apply_edits, edit_anchored, edits_anchored, lemma_apply_edits_step, EditSpec,
};
use crate::editor::lines::{
    collect_event_lines, event_lines, lemma_event_lines_shape, lines_found, no_events_message,
    span_shaped, spans_of, spans_well_shaped, LineSpan,
};
use crate::editor::rewrites::{kept_texts, lemma_remove_event_lines, span_edits};
use crate::editor::texts::{event_texts, lemma_event_texts_of_lines};
use crate::text::{is_ascii_byte, lemma_str_bytes};
use vstd::prelude::*;
use vstd::string::*;
use vstd::utf8::*;

verus! {

/// Command to delete multiple events from the ASS document
///
/// Removes multiple events (Dialogue or Comment) at the specified indices from the `[Events]` section.
/// The event lines are walked in order and the listed ones are removed from the last to
/// the first, so that the offsets of those not yet removed stay valid; the order of the
/// indices and how often each appears do not matter. All indices are 0-based and include
/// both Dialogue and Comment events.
#[derive(Debug, Clone, PartialEq, Eq)]
pub struct BatchDeleteEventsCommand {
    /// Indices of events to delete, in any order, repeats allowed
    pub event_indices: Vec<usize>,
}

/// The removal of one event line with its line break.
pub open spec fn removal(span: LineSpan) -> EditSpec {
    EditSpec { start: span.start, end: span.end_with_newline, insert: Seq::empty() }
}

/// The removals of the event lines among `spans` that `indices` lists, in order.
pub open spec fn removals(spans: Seq<LineSpan>, indices: Seq<usize>) -> Seq<EditSpec>
    decreases spans.len(),
{
    if spans.len() == 0 {
        Seq::empty()
    } else {
        let earlier = removals(spans.drop_last(), indices);
        if indices.contains(spans.last().index as usize) {
            earlier.push(removal(spans.last()))
        } else {
            earlier
        }
    }
}

/// The texts of the event lines among `spans` of `b` whose number `indices` does not list,
/// in order.
pub open spec fn unlisted_texts(b: Seq<u8>, spans: Seq<LineSpan>, indices: Seq<usize>) -> Seq<
    Seq<u8>,
>
    decreases spans.len(),
{
    if spans.len() == 0 {
        Seq::empty()
    } else {
        let rest = unlisted_texts(b, spans.drop_first(), indices);
        if indices.contains(spans[0].index as usize) {
            rest
        } else {
            seq![b.subrange(spans[0].start, spans[0].end)] + rest
        }
    }
}

/// The removal of an event line where `indices` lists it.
pub open spec fn removal_pick(indices: Seq<usize>) -> spec_fn(LineSpan) -> Option<EditSpec> {
    |span: LineSpan|
        if indices.contains(span.index as usize) {
            Some(removal(span))
        } else {
            None
        }
}

/// The removals are those that [`removal_pick`] gives, line by line, and the texts left
/// are those it keeps.
proof fn lemma_removals_pick(b: Seq<u8>, spans: Seq<LineSpan>, indices: Seq<usize>)
    ensures
        removals(spans, indices) == span_edits(spans, removal_pick(indices)),
        unlisted_texts(b, spans, indices) == kept_texts(b, spans, removal_pick(indices)),
    decreases spans.len(),
{
    if spans.len() > 0 {
        lemma_removals_pick(b, spans.drop_last(), indices);
        lemma_removals_pick(b, spans.drop_first(), indices);
    }
}

/// Deleting the listed events of a script leaves the texts of the events it does not
/// list, in order.
pub proof fn lemma_batch_delete_texts(b: Seq<u8>, indices: Seq<usize>)
    requires
        event_lines(b) is Some,
    ensures
        ({
            let spans = event_lines(b).unwrap();
            event_texts(apply_edits(b, removals(spans, indices), 0)) == Some(
                unlisted_texts(b, spans, indices),
            )
        }),
{
    let spans = event_lines(b).unwrap();
    lemma_removals_pick(b, spans, indices);
    lemma_remove_event_lines(b, removal_pick(indices));
}

/// The texts left of two runs of event lines, one after the other, are those left of the
/// first, then those left of the second.
proof fn lemma_unlisted_concat(
    b: Seq<u8>,
    first: Seq<LineSpan>,
    second: Seq<LineSpan>,
    indices: Seq<usize>,
)
    ensures
        unlisted_texts(b, first + second, indices) == unlisted_texts(b, first, indices)
            + unlisted_texts(b, second, indices),
    decreases first.len(),
{
    if first.len() == 0 {
        assert(first + second =~= second);
        assert(Seq::<Seq<u8>>::empty() + unlisted_texts(b, second, indices) =~= unlisted_texts(
            b,
            second,
            indices,
        ));
    } else {
        assert((first + second).drop_first() =~= first.drop_first() + second);
        assert((first + second)[0] == first[0]);
        lemma_unlisted_concat(b, first.drop_first(), second, indices);
        let rest = unlisted_texts(b, first.drop_first(), indices);
        let tail = unlisted_texts(b, second, indices);
        let t = seq![b.subrange(first[0].start, first[0].end)];
        assert(t + (rest + tail) =~= t + rest + tail);
    }
}

/// Among event lines numbered from zero, the texts left are those of the numbers below `m`
/// that the indices do not list, in order.
proof fn lemma_unlisted_as_filter(b: Seq<u8>, spans: Seq<LineSpan>, indices: Seq<usize>, m: int)
    requires
        spans_well_shaped(b, spans, 0, 0),
        0 <= m <= spans.len(),
    ensures
        unlisted_texts(b, spans.take(m), indices) == Seq::new(m as nat, |k: int| k).filter(
            |k: int| !indices.contains(k as usize),
        ).map_values(|k: int| b.subrange(spans[k].start, spans[k].end)),
    decreases m,
{
    let pred = |k: int| !indices.contains(k as usize);
    let text = |k: int| b.subrange(spans[k].start, spans[k].end);
    let numbers = Seq::new(m as nat, |k: int| k);
    reveal(Seq::filter);
    if m == 0 {
        assert(spans.take(0) =~= Seq::<LineSpan>::empty());
        assert(numbers.filter(pred) =~= Seq::<int>::empty());
        assert(numbers.filter(pred).map_values(text) =~= Seq::<Seq<u8>>::empty());
    } else {
        lemma_unlisted_as_filter(b, spans, indices, m - 1);
        let span = spans[m - 1];
        assert(span_shaped(b, span, 0 + (m - 1), 0));
        assert(spans.take(m) =~= spans.take(m - 1) + seq![span]);
        lemma_unlisted_concat(b, spans.take(m - 1), seq![span], indices);
        assert(seq![span].drop_first() =~= Seq::<LineSpan>::empty());
        assert(seq![span][0] == span);
        assert(unlisted_texts(b, seq![span].drop_first(), indices) == Seq::<Seq<u8>>::empty());
        assert(numbers.drop_last() =~= Seq::new((m - 1) as nat, |k: int| k));
        assert(numbers.last() == m - 1);
        let earlier = Seq::new((m - 1) as nat, |k: int| k).filter(pred);
        assert((span.index as usize) == ((m - 1) as usize));
        if indices.contains((m - 1) as usize) {
            assert(unlisted_texts(b, seq![span], indices) =~= Seq::<Seq<u8>>::empty());
            assert(numbers.filter(pred) == earlier);
            assert(earlier.map_values(text) + Seq::<Seq<u8>>::empty() =~= earlier.map_values(
                text,
            ));
        } else {
            assert(unlisted_texts(b, seq![span], indices) =~= seq![text(m - 1)]);
            assert(numbers.filter(pred) == earlier.push(m - 1));
            assert(earlier.push(m - 1).map_values(text) =~= earlier.map_values(text) + seq![
                text(m - 1),
            ]);
        }
    }
}

/// What a batch delete leaves: exactly the texts of the events whose numbers the indices
/// do not list, in their order.
pub proof fn lemma_batch_delete_keeps_unlisted(b: Seq<u8>, indices: Seq<usize>)
    requires
        event_lines(b) is Some,
    ensures
        ({
            let after_doc = apply_edits(b, removals(event_lines(b).unwrap(), indices), 0);
            let before = event_texts(b).unwrap();
            &&& event_texts(b) is Some
            &&& event_texts(after_doc) == Some(
                Seq::new(before.len(), |k: int| k).filter(
                    |k: int| !indices.contains(k as usize),
                ).map_values(|k: int| before[k]),
            )
        }),
{
    let spans = event_lines(b).unwrap();
    lemma_batch_delete_texts(b, indices);
    lemma_event_texts_of_lines(b);
    lemma_event_lines_shape(b);
    lemma_unlisted_as_filter(b, spans, indices, spans.len() as int);
    assert(spans.take(spans.len() as int) =~= spans);
    let before = event_texts(b).unwrap();
    let kept = Seq::new(before.len(), |k: int| k).filter(|k: int| !indices.contains(k as usize));
    assert(kept.map_values(|k: int| before[k]) =~= kept.map_values(
        |k: int| b.subrange(spans[k].start, spans[k].end),
    )) by {
        lemma_numbers_filter_in_range(
            before.len() as int,
            |k: int| !indices.contains(k as usize),
            kept,
        );
    }
}

/// The numbers below `n` that `keep` keeps are numbers below `n`.
proof fn lemma_numbers_filter_in_range(n: int, keep: spec_fn(int) -> bool, kept: Seq<int>)
    requires
        0 <= n,
        kept == Seq::new(n as nat, |k: int| k).filter(keep),
    ensures
        forall|j: int| 0 <= j < kept.len() ==> 0 <= #[trigger] kept[j] < n,
    decreases n,
{
    reveal(Seq::filter);
    if n > 0 {
        let numbers = Seq::new(n as nat, |k: int| k);
        let smaller = Seq::new((n - 1) as nat, |k: int| k);
        assert(numbers.drop_last() =~= smaller);
        assert(numbers.last() == n - 1);
        lemma_numbers_filter_in_range(n - 1, keep, smaller.filter(keep));
    }
}

/// Only which numbers the indices list matters, not their order or how often each
/// appears: two lists that list the same numbers remove the same lines.
pub proof fn lemma_removals_ignore_order(
    spans: Seq<LineSpan>,
    first: Seq<usize>,
    second: Seq<usize>,
)
    requires
        forall|index: usize| first.contains(index) == second.contains(index),
    ensures
        removals(spans, first) == removals(spans, second),
    decreases spans.len(),
{
    if spans.len() > 0 {
        lemma_removals_ignore_order(spans.drop_last(), first, second);
        assert(first.contains(spans.last().index as usize) == second.contains(
            spans.last().index as usize,
        ));
    }
}

/// Among event lines numbered from zero, a list of the one number `index` removes the
/// line numbered `index` alone, where there is one.
proof fn lemma_removals_of_one(b: Seq<u8>, spans: Seq<LineSpan>, index: usize, m: int)
    requires
        spans_well_shaped(b, spans, 0, 0),
        0 <= m <= spans.len(),
        spans.len() <= usize::MAX,
    ensures
        removals(spans.take(m), seq![index]) == if index < m {
            seq![removal(spans[index as int])]
        } else {
            Seq::<EditSpec>::empty()
        },
    decreases m,
{
    if m > 0 {
        let part = spans.take(m);
        assert(part.drop_last() =~= spans.take(m - 1));
        lemma_removals_of_one(b, spans, index, m - 1);
        assert(span_shaped(b, spans[m - 1], 0 + (m - 1), 0));
        assert(part.last() == spans[m - 1]);
        assert(seq![index].contains((m - 1) as usize) == (index == m - 1)) by {
            if index == m - 1 {
                assert(seq![index][0] == index);
            }
        }
    } else {
        assert(spans.take(0) =~= Seq::<LineSpan>::empty());
    }
}

/// Well-shaped event lines begin one after the other, so there are no more of them than
/// bytes.
proof fn lemma_spans_count(b: Seq<u8>, spans: Seq<LineSpan>, k: int)
    requires
        spans_well_shaped(b, spans, 0, 0),
        0 <= k < spans.len(),
    ensures
        spans[k].start >= k,
        spans[k].start < b.len(),
    decreases k,
{
    assert(span_shaped(b, spans[k], 0 + k, 0));
    if k > 0 {
        lemma_spans_count(b, spans, k - 1);
        assert(span_shaped(b, spans[k - 1], 0 + (k - 1), 0));
        assert(spans[k - 1].end_with_newline <= spans[k].start);
    }
}

/// Deleting a batch that lists one existing event's number does to the document what
/// deleting that event alone does.
pub proof fn lemma_batch_of_one(b: Seq<u8>, index: usize)
    requires
        event_lines(b) matches Some(spans) && index < spans.len(),
        b.len() <= usize::MAX,
    ensures
        ({
            let spans = event_lines(b).unwrap();
            let span = spans[index as int];
            apply_edits(b, removals(spans, seq![index]), 0) == splice(
                b,
                span.start,
                span.end_with_newline,
                Seq::empty(),
            )
        }),
{
    let spans = event_lines(b).unwrap();
    lemma_event_lines_shape(b);
    lemma_spans_count(b, spans, spans.len() - 1);
    lemma_removals_of_one(b, spans, index, spans.len() as int);
    assert(spans.take(spans.len() as int) =~= spans);
    let edit = removal(spans[index as int]);
    let edits = seq![edit];
    assert(edits.drop_first() =~= Seq::<EditSpec>::empty());
    assert(apply_edits(b, edits, 0) == b.subrange(0, edit.start) + edit.insert + apply_edits(
        b,
        Seq::<EditSpec>::empty(),
        edit.end,
    ));
    assert(b.subrange(0, edit.start) + Seq::<u8>::empty() =~= b.subrange(0, edit.start));
}

/// The removals as byte ranges.
pub open spec fn ranges_view(ranges: Seq<(usize, usize)>) -> Seq<EditSpec> {
    Seq::new(
        ranges.len(),
        |k: int| EditSpec { start: ranges[k].0 as int, end: ranges[k].1 as int, insert: Seq::empty() },
    )
}

impl BatchDeleteEventsCommand {
    /// Create a new batch delete events command
    pub fn new(event_indices: Vec<usize>) -> (command: Self)
        ensures
            command.event_indices == event_indices,
    {
        Self { event_indices }
    }

    /// Removes every event line whose number `event_indices` lists, each with its line
    /// break; numbers that no event has are passed over.
    ///
    /// With no indices it succeeds at once and changes nothing. Otherwise it fails,
    /// leaving the document as it was, where the script has no events section; where it
    /// has one, the texts of the events it does not list are left, in order, and where it
    /// removes lines, the result reports an empty changed range at the start of the first
    /// removed line and puts the cursor there.
    pub fn execute(&self, document: &mut EditorDocument) -> (result: Result<
        CommandResult,
        EditorError,
    >)
        ensures
            self.event_indices@.len() == 0 ==> {
                &&& result matches Ok(outcome)
                &&& outcome.success && !outcome.content_changed
                &&& outcome.message is None && outcome.modified_range is None
                &&& outcome.new_cursor is None
                &&& final(document)@ == old(document)@
            },
            self.event_indices@.len() > 0 ==> match event_lines(old(document)@) {
                None => {
                    &&& result matches Err(EditorError::CommandFailed { message })
                    &&& message@ == no_events_message()
                    &&& final(document)@ == old(document)@
                },
                Some(spans) => {
                    let edits = removals(spans, self.event_indices@);
                    &&& final(document)@ == apply_edits(old(document)@, edits, 0)
                    &&& event_texts(final(document)@) == Some(
                        unlisted_texts(old(document)@, spans, self.event_indices@),
                    )
                    &&& event_texts(final(document)@) == Some(
                        Seq::new(event_texts(old(document)@).unwrap().len(), |k: int| k).filter(
                            |k: int| !self.event_indices@.contains(k as usize),
                        ).map_values(|k: int| event_texts(old(document)@).unwrap()[k]),
                    )
                    &&& result matches Ok(outcome)
                    &&& outcome.success
                    &&& outcome.message is None
                    &&& if edits.len() > 0 {
                        let at = Position { offset: edits[0].start as usize };
                        &&& outcome.content_changed
                        &&& outcome.modified_range == Some(Range { start: at, end: at })
                        &&& outcome.new_cursor == Some(at)
                    } else {
                        &&& !outcome.content_changed
                        &&& outcome.modified_range is None
                        &&& outcome.new_cursor is None
                    }
                },
            },
    {
        if self.event_indices.len() == 0 {
            return Ok(CommandResult::success());
        }
        let content = document.text();
        let text = content.as_str();
        let ghost b = document@;
        let ghost spans = event_lines(b).unwrap();
        let ghost indices = self.event_indices@;
        proof {
            lemma_str_bytes(text);
            lemma_event_lines_shape(b);
        }
        let event_positions = collect_event_lines(text)?;
        proof {
            assert(spans_of(event_positions@).len() == event_positions@.len());
        }
        // The ranges to delete, in order of position.
        let mut ranges: Vec<(usize, usize)> = Vec::new();
        let mut k: usize = 0;
        while k < event_positions.len()
            invariant
                0 <= k <= event_positions@.len(),
                spans.len() == event_positions@.len(),
                indices == self.event_indices@,
                lines_found(event_positions@, spans, b),
                spans_well_shaped(b, spans, 0, 0),
                ranges_view(ranges@) == removals(spans.take(k as int), indices),
                edits_anchored(b, ranges_view(ranges@)),
                ranges@.len() > 0 && k < spans.len() ==> ranges@.last().1 <= spans[k as int].start,
            decreases event_positions@.len() - k,
        {
            let event_line = &event_positions[k];
            let ghost span = spans[k as int];
            let ghost before = ranges_view(ranges@);
            proof {
                assert(span_shaped(b, span, 0 + k, 0));
                assert(event_line.span() == span);
                assert(spans.take(k + 1).drop_last() =~= spans.take(k as int));
                assert(spans.take(k + 1).last() == span);
                if k + 1 < spans.len() {
                    assert(span_shaped(b, spans[k + 1], 0 + (k + 1), 0));
                    assert(span.end_with_newline <= spans[k + 1].start);
                }
            }
            if contains_index(&self.event_indices, event_line.index) {
                let ghost old_ranges = ranges@;
                ranges.push((event_line.start, event_line.end_with_newline));
                proof {
                    let after = ranges_view(ranges@);
                    assert(after =~= before.push(removal(span)));
                    assert(edit_anchored(b, removal(span)));
                    assert forall|j: int| 0 <= j < after.len() implies #[trigger] edit_anchored(
                        b,
                        after[j],
                    ) by {
                        if j < before.len() {
                            assert(after[j] == before[j]);
                        }
                    }
                    assert forall|j: int| 0 <= j < after.len() - 1 implies {
                        &&& #[trigger] after[j].end <= after[j + 1].start
                        &&& after[j].end == after[j + 1].start ==> 0 < after[j].end
                            && is_ascii_byte(b[after[j].end - 1])
                    } by {
                        assert(after[j] == before[j]);
                        if j + 1 < before.len() {
                            assert(after[j + 1] == before[j + 1]);
                        } else {
                            assert(old_ranges.last() == old_ranges[j]);
                            assert(edit_anchored(b, before[j]));
                        }
                    }
                }
            }
            k = k + 1;
        }
        proof {
            assert(spans.take(k as int) =~= spans);
        }
        // Delete events in reverse order to avoid index shifting
        let ghost all = ranges_view(ranges@);
        let mut total_deleted: usize = 0;
        let mut first_delete_pos = Position::new(text.as_bytes().len());
        let mut j = ranges.len();
        proof {
            assert(all.skip(j as int) =~= Seq::<EditSpec>::empty());
            assert(b.subrange(0, b.len() as int) =~= b);
        }
        while j > 0
            invariant
                0 <= j <= ranges@.len(),
                all == ranges_view(ranges@),
                edits_anchored(b, all),
                document@ == apply_edits(b, all.skip(j as int), 0),
                total_deleted == ranges@.len() - j,
                total_deleted == 0 ==> first_delete_pos.offset == b.len(),
                total_deleted > 0 ==> first_delete_pos.offset == ranges@[j as int].0,
            decreases j,
        {
            let (start, end) = ranges[j - 1];
            proof {
                document.lemma_valid_utf8();
                lemma_apply_edits_step(b, all, j as int, document@);
                assert(all[j - 1].start == start && all[j - 1].end == end);
                assert(edit_anchored(b, all[j - 1]));
                if total_deleted > 0 {
                    assert(all[j - 1].end <= all[j as int].start);
                    assert(edit_anchored(b, all[j as int]));
                }
            }
            let range = Range::new(Position::new(start), Position::new(end));
            document.delete(range)?;
            total_deleted = total_deleted + 1;
            // Track the earliest deletion position
            if range.start.offset < first_delete_pos.offset {
                first_delete_pos = range.start;
            }
            j = j - 1;
        }
        proof {
            assert(all.skip(0) =~= all);
            lemma_batch_delete_texts(b, indices);
            lemma_batch_delete_keeps_unlisted(b, indices);
        }
        if total_deleted > 0 {
            Ok(
                CommandResult::success_with_change(
                    Range::new(first_delete_pos, first_delete_pos),
                    first_delete_pos,
                ),
            )
        } else {
            Ok(CommandResult::success())
        }
    }

    /// What the command does, for the user.
    pub fn description(&self) -> (text: &str)
        ensures
            text@ == "Delete multiple events"@,
    {
        "Delete multiple events"
    }

    /// An estimate of the memory the command holds, in bytes.
    pub fn memory_usage(&self) -> (bytes: usize)
        requires
            core::mem::size_of::<Self>() + self.event_indices@.len() * core::mem::size_of::<usize>()
                <= usize::MAX,
        ensures
            bytes == core::mem::size_of::<Self>() + self.event_indices@.len()
                * core::mem::size_of::<usize>(),
    {
        core::mem::size_of::<Self>() + self.event_indices.len() * core::mem::size_of::<usize>()
    }
}

} // verus!
