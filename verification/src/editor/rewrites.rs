//! Rewriting many event lines at once: the edits of the lines, applied from the last, and
//! what they leave of the event texts.
use crate::editor::document::splice;
use crate::editor::edits::{apply_edits, lemma_apply_edits_split, EditSpec};
use crate::editor::lines::{
    event_lines, events_body_start, lemma_event_lines_shape, lemma_line_end, line_end,
    line_text_end, next_line_start, section_lines, span_shaped, spans_well_shaped, LineSpan,
};
use crate::editor::texts::{
    agree, event_line_in_section, event_texts, fits_event_line, lemma_line_agree,
    lemma_remove_event_line, lemma_replace_event_text, lemma_section_texts_of_lines,
    lemma_spans_reached, lemma_walk_agree, lemma_walk_split, section_texts, span_texts,
    texts_before,
};
use vstd::prelude::*;

verus! {

/// The edits that `pick` gives for each of `spans`, in order, passing over the spans for
/// which it gives none.
pub open spec fn span_edits(spans: Seq<LineSpan>, pick: spec_fn(LineSpan) -> Option<EditSpec>) -> Seq<
    EditSpec,
>
    decreases spans.len(),
{
    if spans.len() == 0 {
        Seq::empty()
    } else {
        let earlier = span_edits(spans.drop_last(), pick);
        match pick(spans.last()) {
            Some(edit) => earlier.push(edit),
            None => earlier,
        }
    }
}

/// The edits for two runs of spans, one after the other, are those of the first run, then
/// those of the second.
pub proof fn lemma_span_edits_concat(
    first: Seq<LineSpan>,
    second: Seq<LineSpan>,
    pick: spec_fn(LineSpan) -> Option<EditSpec>,
)
    ensures
        span_edits(first + second, pick) == span_edits(first, pick) + span_edits(second, pick),
    decreases second.len(),
{
    if second.len() == 0 {
        assert(first + second =~= first);
        assert(span_edits(first, pick) + Seq::<EditSpec>::empty() =~= span_edits(first, pick));
    } else {
        let all = first + second;
        assert(all.drop_last() =~= first + second.drop_last());
        assert(all.last() == second.last());
        lemma_span_edits_concat(first, second.drop_last(), pick);
        let a = span_edits(first, pick);
        let c = span_edits(second.drop_last(), pick);
        if let Some(edit) = pick(second.last()) {
            assert((a + c).push(edit) =~= a + c.push(edit));
        }
    }
}

/// Every edit that `pick` gives for `spans` is what it gives for one of them.
proof fn lemma_span_edits_origin(spans: Seq<LineSpan>, pick: spec_fn(LineSpan) -> Option<EditSpec>)
    ensures
        forall|i: int|
            0 <= i < span_edits(spans, pick).len() ==> exists|j: int|
                0 <= j < spans.len() && #[trigger] pick(spans[j]) == Some(
                    #[trigger] span_edits(spans, pick)[i],
                ),
    decreases spans.len(),
{
    if spans.len() > 0 {
        let rest = spans.drop_last();
        lemma_span_edits_origin(rest, pick);
        let earlier = span_edits(rest, pick);
        let all = span_edits(spans, pick);
        assert forall|i: int| 0 <= i < all.len() implies exists|j: int|
            0 <= j < spans.len() && #[trigger] pick(spans[j]) == Some(#[trigger] all[i]) by {
            if i < earlier.len() {
                assert(all[i] == earlier[i]);
                let j = choose|j: int| 0 <= j < rest.len() && #[trigger] pick(rest[j]) == Some(earlier[i]);
                assert(rest[j] == spans[j]);
            } else {
                assert(pick(spans[spans.len() - 1]) == Some(all[i]));
            }
        }
    }
}

/// Every edit that `pick` gives for an event line replaces that line's text by a text that
/// fits an event line there.
pub open spec fn picks_line_texts(
    b: Seq<u8>,
    spans: Seq<LineSpan>,
    pick: spec_fn(LineSpan) -> Option<EditSpec>,
) -> bool {
    forall|k: int|
        0 <= k < spans.len() && (#[trigger] pick(spans[k])) is Some ==> {
            let edit = pick(spans[k]).unwrap();
            &&& edit.start == spans[k].start
            &&& edit.end == spans[k].end
            &&& fits_event_line(edit.insert, b[spans[k].end - 1])
        }
}

/// The text of each event line of `spans` after the edits that `pick` gives from the
/// `from`-th line on: the insert of its edit where it has one, its old text elsewhere.
pub open spec fn replaced_texts(
    b: Seq<u8>,
    spans: Seq<LineSpan>,
    pick: spec_fn(LineSpan) -> Option<EditSpec>,
    from: int,
) -> Seq<Seq<u8>> {
    Seq::new(
        spans.len(),
        |k: int|
            if k >= from && pick(spans[k]) is Some {
                pick(spans[k]).unwrap().insert
            } else {
                b.subrange(spans[k].start, spans[k].end)
            },
    )
}

/// The event lines of `b`, whose section begins at `q`, with what follows from their shape.
pub open spec fn section_of(b: Seq<u8>, q: int, spans: Seq<LineSpan>) -> bool {
    &&& events_body_start(b, 0) == Some(q)
    &&& spans == section_lines(b, q, 0)
    &&& spans_well_shaped(b, spans, 0, 0)
}

/// What the edits of the lines from `m` on leave in front: the text up to the start of the
/// line at `m`, unchanged.
proof fn lemma_edits_from_keep_front(
    b: Seq<u8>,
    q: int,
    spans: Seq<LineSpan>,
    pick: spec_fn(LineSpan) -> Option<EditSpec>,
    m: int,
)
    requires
        section_of(b, q, spans),
        0 <= m <= spans.len(),
        forall|k: int|
            0 <= k < spans.len() && (#[trigger] pick(spans[k])) is Some ==> pick(
                spans[k],
            ).unwrap().start == spans[k].start,
    ensures
        ({
            let x = if m < spans.len() {
                spans[m].start
            } else {
                b.len() as int
            };
            let later = span_edits(spans.skip(m), pick);
            &&& 0 <= x <= b.len()
            &&& later.len() > 0 ==> x <= later[0].start < b.len()
            &&& apply_edits(b, later, 0) == b.subrange(0, x) + apply_edits(b, later, x)
        }),
{
    let x = if m < spans.len() {
        spans[m].start
    } else {
        b.len() as int
    };
    let rest = spans.skip(m);
    let later = span_edits(rest, pick);
    if m < spans.len() {
        assert(span_shaped(b, spans[m], 0 + m, 0));
    }
    if later.len() > 0 {
        lemma_span_edits_origin(rest, pick);
        assert(exists|j: int| 0 <= j < rest.len() && #[trigger] pick(rest[j]) == Some(later[0]));
        let j = choose|j: int| 0 <= j < rest.len() && #[trigger] pick(rest[j]) == Some(later[0]);
        assert(rest[j] == spans[m + j]);
        assert(span_shaped(b, spans[m + j], 0 + (m + j), 0));
        if j > 0 {
            assert(spans[m].end_with_newline <= spans[m + j].start);
        }
    }
    lemma_apply_edits_split(b, later, 0, x);
}

/// The line at `m` of a section is read the same in a text that keeps every byte of the
/// section up to the start of the next line, or in the text itself; there it is an event
/// line, its text ends where it did, and the walk from the section's start passes the
/// same texts to it.
proof fn lemma_line_kept(b: Seq<u8>, q: int, spans: Seq<LineSpan>, m: int, c: Seq<u8>, x: int)
    requires
        section_of(b, q, spans),
        0 <= m < spans.len(),
        x == if m + 1 < spans.len() {
            spans[m + 1].start
        } else {
            b.len() as int
        },
        c == b || (agree(b, c, x) && line_end(b, spans[m].start) < x),
        events_body_start(c, 0) == Some(q),
    ensures
        event_line_in_section(c, q, spans[m].start),
        line_text_end(c, spans[m].start) == spans[m].end,
        next_line_start(c, spans[m].start) == spans[m].end_with_newline,
        c[spans[m].end - 1] == b[spans[m].end - 1],
        texts_before(c, q, spans[m].start) == texts_before(b, q, spans[m].start),
        texts_before(b, q, spans[m].start).len() == m,
{
    let span = spans[m];
    let s = span.start;
    assert(span_shaped(b, span, 0 + m, 0));
    lemma_spans_reached(b, q, 0);
    assert(spans[m] == section_lines(b, q, 0)[m]);
    lemma_walk_split(b, q, s);
    if c != b {
        assert(agree(b, c, s));
        lemma_walk_agree(b, c, q, s);
        lemma_line_agree(b, c, x, s);
        lemma_line_end(b, s);
        assert(span.end - 1 < x);
    }
}

/// The edits of the lines from `m` on are the edit of the line at `m`, where it has one,
/// then those of the lines after it.
pub proof fn lemma_span_edits_at(spans: Seq<LineSpan>, pick: spec_fn(LineSpan) -> Option<EditSpec>, m: int)
    requires
        0 <= m < spans.len(),
    ensures
        span_edits(spans.skip(m), pick) == match pick(spans[m]) {
            Some(edit) => seq![edit] + span_edits(spans.skip(m + 1), pick),
            None => span_edits(spans.skip(m + 1), pick),
        },
{
    let span = spans[m];
    assert(spans.skip(m) =~= seq![span] + spans.skip(m + 1));
    lemma_span_edits_concat(seq![span], spans.skip(m + 1), pick);
    assert(seq![span].drop_last() =~= Seq::<LineSpan>::empty());
    assert(seq![span].last() == span);
    assert(span_edits(seq![span].drop_last(), pick) == Seq::<EditSpec>::empty());
    let tail = span_edits(spans.skip(m + 1), pick);
    match pick(span) {
        Some(edit) => {
            assert(span_edits(seq![span], pick) =~= seq![edit]);
        },
        None => {
            assert(Seq::<EditSpec>::empty() + tail =~= tail);
        },
    }
}

/// Where the line at `m` has an edit, applying it after the edits of the lines after it
/// replaces that line's text, which is where it was in `b`.
pub proof fn lemma_replace_step(
    b: Seq<u8>,
    q: int,
    spans: Seq<LineSpan>,
    pick: spec_fn(LineSpan) -> Option<EditSpec>,
    m: int,
    edit: EditSpec,
)
    requires
        section_of(b, q, spans),
        picks_line_texts(b, spans, pick),
        0 <= m < spans.len(),
        pick(spans[m]) == Some(edit),
        events_body_start(apply_edits(b, span_edits(spans.skip(m + 1), pick), 0), 0) == Some(q),
    ensures
        ({
            let c = apply_edits(b, span_edits(spans.skip(m + 1), pick), 0);
            let after = apply_edits(b, seq![edit] + span_edits(spans.skip(m + 1), pick), 0);
            let span = spans[m];
            &&& events_body_start(after, 0) == Some(q)
            &&& section_texts(after, q) == section_texts(c, q).update(m, edit.insert)
            &&& after == splice(c, span.start, span.end, edit.insert)
            &&& event_line_in_section(c, q, span.start)
            &&& line_text_end(c, span.start) == span.end
            &&& fits_event_line(edit.insert, c[span.end - 1])
            &&& texts_before(c, q, span.start).len() == m
        }),
{
    let n = spans.len() as int;
    let tail = span_edits(spans.skip(m + 1), pick);
    let c = apply_edits(b, tail, 0);
    let later = seq![edit] + tail;
    let after = apply_edits(b, later, 0);
    let span = spans[m];
    assert(span_shaped(b, span, 0 + m, 0));
    assert(pick(spans[m]) is Some);
    assert(edit.start == span.start && edit.end == span.end);
    let x = if m + 1 < n {
        spans[m + 1].start
    } else {
        b.len() as int
    };
    lemma_edits_from_keep_front(b, q, spans, pick, m + 1);
    if m + 1 < n {
        assert(span.end_with_newline <= spans[m + 1].start);
        assert(span_shaped(b, spans[m + 1], 0 + (m + 1), 0));
    }
    lemma_line_end(b, span.start);
    if tail.len() == 0 {
        assert(c =~= b);
    } else {
        assert(agree(b, c, x)) by {
            assert forall|p: int| 0 <= p < x implies b[p] == c[p] by {
                assert(c[p] == b.subrange(0, x)[p]);
            }
        }
        assert(line_end(b, span.start) < x) by {
            if line_end(b, span.start) == b.len() {
                assert(m + 1 < n);
            }
        }
    }
    lemma_line_kept(b, q, spans, m, c, x);
    lemma_apply_edits_split(b, tail, 0, edit.end);
    assert(later.drop_first() =~= tail);
    assert(later[0] == edit);
    assert(after == b.subrange(0, edit.start) + edit.insert + apply_edits(b, tail, edit.end));
    assert(c.subrange(0, span.start) =~= b.subrange(0, span.start)) by {
        assert forall|p: int| 0 <= p < span.start implies c.subrange(0, span.start)[p] == b[p] by {
            assert(c[p] == b.subrange(0, edit.end)[p]);
        }
    }
    assert(c.subrange(span.end, c.len() as int) =~= apply_edits(b, tail, edit.end));
    assert(after =~= splice(c, span.start, span.end, edit.insert));
    lemma_replace_event_text(c, q, span.start, edit.insert);
}

/// Replacing the texts of event lines from the `m`-th on, each by a text that fits an
/// event line, keeps the events section where it was and replaces those texts among the
/// event texts, and nothing else.
proof fn lemma_replace_from(
    b: Seq<u8>,
    q: int,
    spans: Seq<LineSpan>,
    pick: spec_fn(LineSpan) -> Option<EditSpec>,
    m: int,
)
    requires
        section_of(b, q, spans),
        picks_line_texts(b, spans, pick),
        0 <= m <= spans.len(),
    ensures
        ({
            let after = apply_edits(b, span_edits(spans.skip(m), pick), 0);
            &&& events_body_start(after, 0) == Some(q)
            &&& section_texts(after, q) == replaced_texts(b, spans, pick, m)
        }),
    decreases spans.len() - m,
{
    let n = spans.len() as int;
    if m == n {
        assert(spans.skip(m) =~= Seq::<LineSpan>::empty());
        assert(apply_edits(b, Seq::<EditSpec>::empty(), 0) =~= b);
        lemma_section_texts_of_lines(b, q, 0);
        assert(replaced_texts(b, spans, pick, m) =~= span_texts(b, spans));
    } else {
        lemma_replace_from(b, q, spans, pick, m + 1);
        lemma_span_edits_at(spans, pick, m);
        match pick(spans[m]) {
            None => {
                assert(replaced_texts(b, spans, pick, m) =~= replaced_texts(b, spans, pick, m + 1));
            },
            Some(edit) => {
                lemma_replace_step(b, q, spans, pick, m, edit);
                assert(replaced_texts(b, spans, pick, m) =~= replaced_texts(b, spans, pick, m + 1).update(
                    m,
                    edit.insert,
                ));
            },
        }
    }
}

/// Replacing the texts of event lines, each by a text that fits an event line, keeps the
/// events and replaces those texts among the event texts, and nothing else.
pub proof fn lemma_replace_event_texts(b: Seq<u8>, pick: spec_fn(LineSpan) -> Option<EditSpec>)
    requires
        event_lines(b) matches Some(spans) && picks_line_texts(b, spans, pick),
    ensures
        ({
            let spans = event_lines(b).unwrap();
            event_texts(apply_edits(b, span_edits(spans, pick), 0)) == Some(
                replaced_texts(b, spans, pick, 0),
            )
        }),
{
    let q = events_body_start(b, 0).unwrap();
    let spans = event_lines(b).unwrap();
    lemma_event_lines_shape(b);
    lemma_replace_from(b, q, spans, pick, 0);
    assert(spans.skip(0) =~= spans);
}

/// Every edit that `pick` gives for an event line removes that line with its line break.
pub open spec fn picks_line_removals(
    spans: Seq<LineSpan>,
    pick: spec_fn(LineSpan) -> Option<EditSpec>,
) -> bool {
    forall|k: int|
        0 <= k < spans.len() && (#[trigger] pick(spans[k])) is Some ==> pick(spans[k]).unwrap()
            == EditSpec {
            start: spans[k].start,
            end: spans[k].end_with_newline,
            insert: Seq::empty(),
        }
}

/// The texts of the event lines of `spans` for which `pick` gives no edit, in order.
pub open spec fn kept_texts(
    b: Seq<u8>,
    spans: Seq<LineSpan>,
    pick: spec_fn(LineSpan) -> Option<EditSpec>,
) -> Seq<Seq<u8>>
    decreases spans.len(),
{
    if spans.len() == 0 {
        Seq::empty()
    } else {
        let rest = kept_texts(b, spans.drop_first(), pick);
        if pick(spans[0]) is Some {
            rest
        } else {
            seq![b.subrange(spans[0].start, spans[0].end)] + rest
        }
    }
}

/// Where the line at `m` has a removal, applying it after the edits of the lines after it
/// removes that line's text.
proof fn lemma_remove_step(
    b: Seq<u8>,
    q: int,
    spans: Seq<LineSpan>,
    pick: spec_fn(LineSpan) -> Option<EditSpec>,
    m: int,
    edit: EditSpec,
)
    requires
        section_of(b, q, spans),
        picks_line_removals(spans, pick),
        0 <= m < spans.len(),
        pick(spans[m]) == Some(edit),
        events_body_start(apply_edits(b, span_edits(spans.skip(m + 1), pick), 0), 0) == Some(q),
    ensures
        ({
            let c = apply_edits(b, span_edits(spans.skip(m + 1), pick), 0);
            let after = apply_edits(b, seq![edit] + span_edits(spans.skip(m + 1), pick), 0);
            &&& events_body_start(after, 0) == Some(q)
            &&& section_texts(after, q) == section_texts(c, q).remove(m)
        }),
{
    let n = spans.len() as int;
    let tail = span_edits(spans.skip(m + 1), pick);
    let c = apply_edits(b, tail, 0);
    let later = seq![edit] + tail;
    let after = apply_edits(b, later, 0);
    let span = spans[m];
    assert(span_shaped(b, span, 0 + m, 0));
    assert(pick(spans[m]) is Some);
    assert(edit.start == span.start && edit.end == span.end_with_newline);
    let x = if m + 1 < n {
        spans[m + 1].start
    } else {
        b.len() as int
    };
    assert forall|k: int|
        0 <= k < spans.len() && (#[trigger] pick(spans[k])) is Some implies pick(
            spans[k],
        ).unwrap().start == spans[k].start by {}
    lemma_edits_from_keep_front(b, q, spans, pick, m + 1);
    if m + 1 < n {
        assert(span.end_with_newline <= spans[m + 1].start);
        assert(span_shaped(b, spans[m + 1], 0 + (m + 1), 0));
    }
    lemma_line_end(b, span.start);
    if tail.len() == 0 {
        assert(c =~= b);
    } else {
        assert(agree(b, c, x)) by {
            assert forall|p: int| 0 <= p < x implies b[p] == c[p] by {
                assert(c[p] == b.subrange(0, x)[p]);
            }
        }
        assert(line_end(b, span.start) < x) by {
            if line_end(b, span.start) == b.len() {
                assert(m + 1 < n);
            }
        }
    }
    lemma_line_kept(b, q, spans, m, c, x);
    lemma_apply_edits_split(b, tail, 0, edit.end);
    assert(later.drop_first() =~= tail);
    assert(later[0] == edit);
    assert(after == b.subrange(0, edit.start) + edit.insert + apply_edits(b, tail, edit.end));
    assert(c.subrange(0, span.start) =~= b.subrange(0, span.start)) by {
        assert forall|p: int| 0 <= p < span.start implies c.subrange(0, span.start)[p] == b[p] by {
            assert(c[p] == b.subrange(0, edit.end)[p]);
        }
    }
    assert(c.subrange(edit.end, c.len() as int) =~= apply_edits(b, tail, edit.end));
    assert(after =~= splice(c, span.start, next_line_start(c, span.start), Seq::empty()));
    lemma_remove_event_line(c, q, span.start);
}

/// Removing event lines from the `m`-th on, each with its line break, keeps the events
/// section where it was and removes their texts from the event texts, and nothing else.
proof fn lemma_remove_from(
    b: Seq<u8>,
    q: int,
    spans: Seq<LineSpan>,
    pick: spec_fn(LineSpan) -> Option<EditSpec>,
    m: int,
)
    requires
        section_of(b, q, spans),
        picks_line_removals(spans, pick),
        0 <= m <= spans.len(),
    ensures
        ({
            let after = apply_edits(b, span_edits(spans.skip(m), pick), 0);
            &&& events_body_start(after, 0) == Some(q)
            &&& section_texts(after, q) == span_texts(b, spans).take(m) + kept_texts(
                b,
                spans.skip(m),
                pick,
            )
        }),
    decreases spans.len() - m,
{
    let n = spans.len() as int;
    let texts = span_texts(b, spans);
    if m == n {
        assert(spans.skip(m) =~= Seq::<LineSpan>::empty());
        assert(apply_edits(b, Seq::<EditSpec>::empty(), 0) =~= b);
        lemma_section_texts_of_lines(b, q, 0);
        assert(texts.take(m) + Seq::<Seq<u8>>::empty() =~= texts);
    } else {
        lemma_remove_from(b, q, spans, pick, m + 1);
        lemma_span_edits_at(spans, pick, m);
        let rest = spans.skip(m);
        assert(rest.drop_first() =~= spans.skip(m + 1));
        assert(rest[0] == spans[m]);
        let kept = kept_texts(b, spans.skip(m + 1), pick);
        match pick(spans[m]) {
            None => {
                assert(kept_texts(b, rest, pick) == seq![texts[m]] + kept);
                assert(texts.take(m + 1) + kept =~= texts.take(m) + (seq![texts[m]] + kept));
            },
            Some(edit) => {
                lemma_remove_step(b, q, spans, pick, m, edit);
                assert(kept_texts(b, rest, pick) == kept);
                assert((texts.take(m + 1) + kept).remove(m) =~= texts.take(m) + kept);
            },
        }
    }
}

/// Removing event lines, each with its line break, keeps the events section and removes
/// their texts from the event texts, and nothing else.
pub proof fn lemma_remove_event_lines(b: Seq<u8>, pick: spec_fn(LineSpan) -> Option<EditSpec>)
    requires
        event_lines(b) matches Some(spans) && picks_line_removals(spans, pick),
    ensures
        ({
            let spans = event_lines(b).unwrap();
            event_texts(apply_edits(b, span_edits(spans, pick), 0)) == Some(
                kept_texts(b, spans, pick),
            )
        }),
{
    let q = events_body_start(b, 0).unwrap();
    let spans = event_lines(b).unwrap();
    lemma_event_lines_shape(b);
    lemma_remove_from(b, q, spans, pick, 0);
    assert(spans.skip(0) =~= spans);
    assert(span_texts(b, spans).take(0) + kept_texts(b, spans, pick) =~= kept_texts(b, spans, pick));
}

} // verus!
