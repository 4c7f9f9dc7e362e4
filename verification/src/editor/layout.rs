//! Where the event lines lie after some of their texts are replaced, and what stays
//! between them.
use crate::editor::document::splice;
use crate::editor::edits::{apply_edits, EditSpec};
use crate::editor::lines::{
    event_lines, events_body_start, is_event_line_at, lemma_event_lines_shape, lemma_line_end,
    line_end, line_text_end, next_line_start, section_lines, span_shaped, spans_well_shaped,
    LineSpan, OPEN_BRACKET,
};
use crate::editor::rewrites::{
    lemma_replace_step, lemma_span_edits_at, picks_line_texts, section_of, span_edits,
};
use crate::editor::texts::{
    agree, event_line_in_section, fits_event_line, lemma_event_line_text, lemma_line_agree,
    lemma_line_end_skip, lemma_new_line_shape, lemma_walk_agree, reaches, span_texts,
    texts_before,
};
use vstd::prelude::*;

verus! {

/// The event lines that the walk from the line at `i` passes before `s`, numbered from
/// `index`.
pub open spec fn lines_before(b: Seq<u8>, i: int, s: int, index: nat) -> Seq<LineSpan>
    decreases b.len() - i,
{
    if i < 0 || i >= s || i >= b.len() || b[i] == OPEN_BRACKET {
        Seq::empty()
    } else {
        proof {
            lemma_line_end(b, i);
        }
        let rest_index = if is_event_line_at(b, i) {
            index + 1
        } else {
            index
        };
        let rest = lines_before(b, next_line_start(b, i), s, rest_index);
        if is_event_line_at(b, i) {
            seq![
                LineSpan {
                    index,
                    start: i,
                    end: line_text_end(b, i),
                    end_with_newline: next_line_start(b, i),
                },
            ] + rest
        } else {
            rest
        }
    }
}

/// A walk that comes to `s` passes the event lines before it, then goes on as from `s`;
/// it passes as many event lines as event texts.
pub proof fn lemma_walk_split_lines(b: Seq<u8>, i: int, s: int, index: nat)
    requires
        reaches(b, i, s),
    ensures
        i <= s,
        section_lines(b, i, index) == lines_before(b, i, s, index) + section_lines(
            b,
            s,
            index + lines_before(b, i, s, index).len(),
        ),
        lines_before(b, i, s, index).len() == texts_before(b, i, s).len(),
    decreases b.len() - i,
{
    if i == s {
        assert(lines_before(b, i, s, index) =~= Seq::<LineSpan>::empty());
        assert(Seq::<LineSpan>::empty() + section_lines(b, s, index) =~= section_lines(b, s, index));
    } else {
        lemma_line_end(b, i);
        let next = next_line_start(b, i);
        if is_event_line_at(b, i) {
            lemma_walk_split_lines(b, next, s, index + 1);
            let first = seq![
                LineSpan {
                    index,
                    start: i,
                    end: line_text_end(b, i),
                    end_with_newline: next,
                },
            ];
            let rest = lines_before(b, next, s, index + 1);
            assert(first + rest + section_lines(b, s, index + 1 + rest.len()) =~= first + (rest
                + section_lines(b, s, index + 1 + rest.len())));
        } else {
            lemma_walk_split_lines(b, next, s, index);
        }
    }
}

/// Texts that share their first `s` bytes pass the same event lines on the way to `s`.
pub proof fn lemma_walk_agree_lines(b1: Seq<u8>, b2: Seq<u8>, i: int, s: int, index: nat)
    requires
        agree(b1, b2, s),
        s < b1.len(),
        reaches(b1, i, s),
    ensures
        lines_before(b2, i, s, index) == lines_before(b1, i, s, index),
    decreases b1.len() - i,
{
    if i != s {
        lemma_line_end(b1, i);
        let next = next_line_start(b1, i);
        lemma_walk_split_lines(b1, next, s, 0);
        assert(line_end(b1, i) < s);
        lemma_line_agree(b1, b2, s, i);
        if is_event_line_at(b1, i) {
            lemma_walk_agree_lines(b1, b2, next, s, index + 1);
        } else {
            lemma_walk_agree_lines(b1, b2, next, s, index);
        }
    }
}

/// The event lines `spans` moved `by` bytes on.
pub open spec fn shifted(spans: Seq<LineSpan>, by: int) -> Seq<LineSpan> {
    Seq::new(
        spans.len(),
        |k: int|
            LineSpan {
                index: spans[k].index,
                start: spans[k].start + by,
                end: spans[k].end + by,
                end_with_newline: spans[k].end_with_newline + by,
            },
    )
}

/// Moving lines twice moves them by the sum, and moving a run of lines moves each part.
proof fn lemma_shifted(first: Seq<LineSpan>, second: Seq<LineSpan>, by: int, more: int)
    ensures
        shifted(shifted(first, by), more) == shifted(first, by + more),
        shifted(first + second, by) == shifted(first, by) + shifted(second, by),
        shifted(first, 0) == first,
{
    assert(shifted(shifted(first, by), more) =~= shifted(first, by + more));
    assert(shifted(first + second, by) =~= shifted(first, by) + shifted(second, by));
    assert(shifted(first, 0) =~= first);
}

/// Which lines are event lines, and where they lie, do not depend on the bytes before:
/// looking at `b` from `p` on finds them `p` bytes earlier.
pub proof fn lemma_section_lines_skip(b: Seq<u8>, p: int, j: int, index: nat)
    requires
        0 <= p,
        0 <= j,
        p + j <= b.len(),
    ensures
        section_lines(b, p + j, index) == shifted(section_lines(b.skip(p), j, index), p),
    decreases b.len() - p - j,
{
    let c = b.skip(p);
    let i = p + j;
    if i < b.len() {
        assert(c[j] == b[i]);
        if b[i] != OPEN_BRACKET {
            lemma_line_end(b, i);
            lemma_line_end(c, j);
            lemma_line_end_skip(b, p, j);
            let e = line_end(b, i);
            assert(line_end(c, j) == e - p);
            if e > i {
                assert(c[e - p - 1] == b[e - 1]);
            }
            assert(line_text_end(b, i) == p + line_text_end(c, j));
            assert(next_line_start(b, i) == p + next_line_start(c, j));
            assert(is_event_line_at(b, i) == is_event_line_at(c, j)) by {
                if i + 9 <= b.len() {
                    assert(b.subrange(i, i + 9) =~= c.subrange(j, j + 9));
                }
                if i + 8 <= b.len() {
                    assert(b.subrange(i, i + 8) =~= c.subrange(j, j + 8));
                }
            }
            let next_c = next_line_start(c, j);
            if is_event_line_at(b, i) {
                lemma_section_lines_skip(b, p, next_c, index + 1);
                let first = seq![
                    LineSpan {
                        index,
                        start: j,
                        end: line_text_end(c, j),
                        end_with_newline: next_c,
                    },
                ];
                lemma_shifted(first, section_lines(c, next_c, index + 1), p, 0);
                assert(shifted(first, p) =~= seq![
                    LineSpan {
                        index,
                        start: i,
                        end: line_text_end(b, i),
                        end_with_newline: next_line_start(b, i),
                    },
                ]);
            } else {
                lemma_section_lines_skip(b, p, next_c, index);
            }
        } else {
            assert(shifted(Seq::<LineSpan>::empty(), p) =~= Seq::<LineSpan>::empty());
        }
    } else {
        assert(shifted(Seq::<LineSpan>::empty(), p) =~= Seq::<LineSpan>::empty());
    }
}

/// Read from its start, a fitting text followed by what came after the old text of the
/// event line at `s` is one event line with that text and the old line's line break, then
/// the event lines after the old line, moved by the change in length.
proof fn lemma_line_with_new_text_lines(c: Seq<u8>, s: int, inserted: Seq<u8>, index: nat)
    requires
        0 <= s < c.len(),
        is_event_line_at(c, s),
        fits_event_line(inserted, c[line_text_end(c, s) - 1]),
    ensures
        ({
            let te = line_text_end(c, s);
            let next = next_line_start(c, s);
            let m = inserted.len() as int;
            section_lines(inserted + c.skip(te), 0, index) == seq![
                LineSpan { index, start: 0, end: m, end_with_newline: m + (next - te) },
            ] + shifted(section_lines(c, next, index + 1), m - te)
        }),
{
    let te = line_text_end(c, s);
    let next = next_line_start(c, s);
    let d = inserted + c.skip(te);
    let m = inserted.len() as int;
    lemma_new_line_shape(c, s, inserted);
    lemma_line_end(d, 0);
    let next_d = next_line_start(d, 0);
    assert(section_lines(d, 0, index) == seq![
        LineSpan { index, start: 0, end: m, end_with_newline: next_d },
    ] + section_lines(d, next_d, index + 1));
    lemma_section_lines_skip(d, next_d, 0, index + 1);
    lemma_section_lines_skip(c, next, 0, index + 1);
    let tail = section_lines(c.skip(next), 0, index + 1);
    lemma_shifted(tail, tail, next, next_d - next);
}

/// Replacing the text of an event line by a text that fits an event line leaves the event
/// lines before it where they were, ends that line after the new text, and moves the event
/// lines after it by the change in length.
pub proof fn lemma_replace_event_line_spans(c: Seq<u8>, q: int, s: int, inserted: Seq<u8>)
    requires
        event_line_in_section(c, q, s),
        fits_event_line(inserted, c[line_text_end(c, s) - 1]),
    ensures
        ({
            let te = line_text_end(c, s);
            let next = next_line_start(c, s);
            let changed = splice(c, s, te, inserted);
            let before = lines_before(c, q, s, 0);
            let m = before.len();
            let by = inserted.len() - (te - s);
            &&& before.len() == texts_before(c, q, s).len()
            &&& section_lines(c, q, 0) == before + seq![
                LineSpan { index: m, start: s, end: te, end_with_newline: next },
            ] + section_lines(c, next, m + 1)
            &&& section_lines(changed, q, 0) == before + seq![
                LineSpan {
                    index: m,
                    start: s,
                    end: s + inserted.len(),
                    end_with_newline: next + by,
                },
            ] + shifted(section_lines(c, next, m + 1), by)
        }),
{
    let te = line_text_end(c, s);
    let next = next_line_start(c, s);
    let changed = splice(c, s, te, inserted);
    let before = lines_before(c, q, s, 0);
    let m = before.len();
    let by = inserted.len() - (te - s);
    lemma_event_line_text(c, s);
    lemma_line_end(c, s);
    assert(changed.skip(s) =~= inserted + c.skip(te));
    assert(agree(c, changed, s));
    lemma_walk_agree(c, changed, q, s);
    lemma_walk_agree_lines(c, changed, q, s, 0);
    lemma_walk_split_lines(c, q, s, 0);
    lemma_walk_split_lines(changed, q, s, 0);
    let line = seq![LineSpan { index: m, start: s, end: te, end_with_newline: next }];
    assert(section_lines(c, s, m) == line + section_lines(c, next, m + 1));
    assert(before + (line + section_lines(c, next, m + 1)) =~= before + line + section_lines(
        c,
        next,
        m + 1,
    ));
    lemma_section_lines_skip(changed, s, 0, m);
    lemma_line_with_new_text_lines(c, s, inserted, m);
    let ins = inserted.len() as int;
    let first = seq![
        LineSpan { index: m, start: 0, end: ins, end_with_newline: ins + (next - te) },
    ];
    let rest = section_lines(c, next, m + 1);
    lemma_shifted(first, shifted(rest, ins - te), s, 0);
    lemma_shifted(rest, rest, ins - te, s);
    let new_line = seq![
        LineSpan { index: m, start: s, end: s + ins, end_with_newline: next + by },
    ];
    assert(shifted(first, s) =~= new_line);
    assert(section_lines(changed, s, m) == new_line + shifted(rest, by));
    assert(before + (new_line + shifted(rest, by)) =~= before + new_line + shifted(rest, by));
}

/// The event lines `spans` after the text of the `m`-th is replaced by one of `len` bytes:
/// the lines before it stay, it ends `len` bytes after its start, and the lines after it
/// move by the change in length.
pub open spec fn respanned(spans: Seq<LineSpan>, m: int, len: int) -> Seq<LineSpan> {
    let by = len - (spans[m].end - spans[m].start);
    Seq::new(
        spans.len(),
        |k: int|
            if k < m {
                spans[k]
            } else if k == m {
                LineSpan {
                    index: spans[m].index,
                    start: spans[m].start,
                    end: spans[m].start + len,
                    end_with_newline: spans[m].end_with_newline + by,
                }
            } else {
                LineSpan {
                    index: spans[k].index,
                    start: spans[k].start + by,
                    end: spans[k].end + by,
                    end_with_newline: spans[k].end_with_newline + by,
                }
            },
    )
}

/// The event lines `spans` lie in order in `b`: each text within `b`, and each ending at
/// or before the next begins.
pub open spec fn spans_in_order(b: Seq<u8>, spans: Seq<LineSpan>) -> bool {
    &&& forall|k: int| 0 <= k < spans.len() ==> 0 <= #[trigger] spans[k].start <= spans[k].end <= b.len()
    &&& forall|k: int, l: int| 0 <= k < l < spans.len() ==> #[trigger] spans[k].end <= #[trigger] spans[l].start
}

/// The bytes of `b` around the texts of the event lines `spans`, the first gap starting at
/// `from`: before the first text, between each text and the next, and after the last.
pub open spec fn gaps_from(b: Seq<u8>, spans: Seq<LineSpan>, from: int) -> Seq<Seq<u8>> {
    Seq::new(
        spans.len() + 1,
        |k: int|
            b.subrange(
                if k == 0 {
                    from
                } else {
                    spans[k - 1].end
                },
                if k < spans.len() {
                    spans[k].start
                } else {
                    b.len() as int
                },
            ),
    )
}

/// The bytes of `b` around the texts of its event lines `spans`.
pub open spec fn line_gaps(b: Seq<u8>, spans: Seq<LineSpan>) -> Seq<Seq<u8>> {
    gaps_from(b, spans, 0)
}

/// The texts `texts` with the gaps `gaps` around them: the first gap, the first text, the
/// second gap, and so on, ending with the last gap.
pub open spec fn interleave(gaps: Seq<Seq<u8>>, texts: Seq<Seq<u8>>) -> Seq<u8>
    decreases texts.len(),
{
    if texts.len() == 0 {
        gaps[0]
    } else {
        gaps[0] + texts[0] + interleave(gaps.drop_first(), texts.drop_first())
    }
}

/// A text is its gaps around its event lines' texts, with those texts between them.
proof fn lemma_interleave_from(b: Seq<u8>, spans: Seq<LineSpan>, from: int)
    requires
        spans_in_order(b, spans),
        0 <= from <= b.len(),
        spans.len() > 0 ==> from <= spans[0].start,
    ensures
        b.subrange(from, b.len() as int) == interleave(gaps_from(b, spans, from), span_texts(b, spans)),
    decreases spans.len(),
{
    if spans.len() == 0 {
        assert(gaps_from(b, spans, from)[0] == b.subrange(from, b.len() as int));
    } else {
        let rest = spans.drop_first();
        let first = spans[0];
        assert forall|k: int| 0 <= k < rest.len() implies 0 <= #[trigger] rest[k].start
            <= rest[k].end <= b.len() by {
            assert(rest[k] == spans[k + 1]);
        }
        assert forall|k: int, l: int| 0 <= k < l < rest.len() implies #[trigger] rest[k].end
            <= #[trigger] rest[l].start by {
            assert(rest[k] == spans[k + 1] && rest[l] == spans[l + 1]);
        }
        if rest.len() > 0 {
            assert(rest[0] == spans[1]);
            assert(spans[0].end <= spans[1].start);
        }
        assert(0 <= first.start <= first.end <= b.len());
        lemma_interleave_from(b, rest, first.end);
        assert(gaps_from(b, spans, from).drop_first() =~= gaps_from(b, rest, first.end));
        assert(span_texts(b, spans).drop_first() =~= span_texts(b, rest));
        assert(b.subrange(from, b.len() as int) =~= b.subrange(from, first.start) + b.subrange(
            first.start,
            first.end,
        ) + b.subrange(first.end, b.len() as int));
    }
}

/// A text is the interleaving of the gaps around its event lines and their texts.
pub proof fn lemma_interleave(b: Seq<u8>, spans: Seq<LineSpan>)
    requires
        spans_in_order(b, spans),
    ensures
        b == interleave(line_gaps(b, spans), span_texts(b, spans)),
{
    if spans.len() > 0 {
        assert(0 <= spans[0].start);
    }
    lemma_interleave_from(b, spans, 0);
    assert(b.subrange(0, b.len() as int) =~= b);
}

/// Replacing the text of the `m`-th of the event lines leaves every gap around the texts as
/// it was, the lines taken where they lie after the replacement.
pub proof fn lemma_gaps_after_replace(c: Seq<u8>, spans: Seq<LineSpan>, m: int, inserted: Seq<u8>)
    requires
        spans_in_order(c, spans),
        0 <= m < spans.len(),
    ensures
        line_gaps(
            splice(c, spans[m].start, spans[m].end, inserted),
            respanned(spans, m, inserted.len() as int),
        ) == line_gaps(c, spans),
{
    let n = spans.len() as int;
    let s = spans[m].start;
    let te = spans[m].end;
    let len = inserted.len() as int;
    let by = len - (te - s);
    let changed = splice(c, s, te, inserted);
    let moved = respanned(spans, m, len);
    assert(0 <= s <= te <= c.len());
    assert(changed.len() == c.len() + by);
    assert forall|p: int| 0 <= p < s implies #[trigger] changed[p] == c[p] by {}
    assert forall|p: int| s + len <= p < changed.len() implies #[trigger] changed[p] == c[p - by] by {}
    assert forall|k: int| 0 <= k <= n implies #[trigger] line_gaps(changed, moved)[k] == line_gaps(
        c,
        spans,
    )[k] by {
        let from = if k == 0 {
            0
        } else {
            spans[k - 1].end
        };
        let to = if k < n {
            spans[k].start
        } else {
            c.len() as int
        };
        if k < n {
            assert(0 <= spans[k].start <= spans[k].end <= c.len());
        }
        if k > 0 {
            assert(0 <= spans[k - 1].start <= spans[k - 1].end <= c.len());
        }
        if k <= m {
            if k > 0 && k - 1 < m {
                assert(spans[k - 1].end <= spans[m].start);
            }
            if k < m {
                assert(spans[k].end <= spans[m].start);
            }
            assert(line_gaps(changed, moved)[k] =~= line_gaps(c, spans)[k]) by {
                assert forall|t: int| 0 <= t < to - from implies line_gaps(changed, moved)[k][t]
                    == line_gaps(c, spans)[k][t] by {
                    assert(changed[from + t] == c[from + t]);
                }
            }
        } else {
            let from2 = if k == m + 1 {
                s + len
            } else {
                spans[k - 1].end + by
            };
            if k > m + 1 {
                assert(spans[m].end <= spans[k - 1].start);
            }
            if k < n {
                assert(spans[m].end <= spans[k].start);
            }
            assert(line_gaps(changed, moved)[k] =~= line_gaps(c, spans)[k]) by {
                assert forall|t: int| 0 <= t < to - from implies line_gaps(changed, moved)[k][t]
                    == line_gaps(c, spans)[k][t] by {
                    assert(changed[from2 + t] == c[from2 + t - by]);
                }
            }
        }
    }
    assert(line_gaps(changed, moved) =~= line_gaps(c, spans));
}

/// Well-shaped event lines lie in order.
pub proof fn lemma_well_shaped_in_order(b: Seq<u8>, spans: Seq<LineSpan>)
    requires
        spans_well_shaped(b, spans, 0, 0),
    ensures
        spans_in_order(b, spans),
{
    assert forall|k: int| 0 <= k < spans.len() implies 0 <= #[trigger] spans[k].start
        <= spans[k].end <= b.len() by {
        assert(span_shaped(b, spans[k], 0 + k, 0));
    }
    assert forall|k: int, l: int| 0 <= k < l < spans.len() implies #[trigger] spans[k].end
        <= #[trigger] spans[l].start by {
        assert(span_shaped(b, spans[k], 0 + k, 0));
        assert(spans[k].end_with_newline <= spans[l].start);
    }
}

/// After the edits of the event lines from the `m`-th on, each replacing a line's text by
/// one that fits an event line, there are as many event lines as before, those before the
/// `m`-th lie where they were, and the gaps around their texts are as they were.
proof fn lemma_respan_from(
    b: Seq<u8>,
    q: int,
    spans: Seq<LineSpan>,
    pick: spec_fn(LineSpan) -> Option<EditSpec>,
    m: int,
)
    requires
        section_of(b, q, spans),
        picks_line_texts(b, spans, pick),
        0 <= m <= spans.len(),
    ensures
        ({
            let after = apply_edits(b, span_edits(spans.skip(m), pick), 0);
            let moved = section_lines(after, q, 0);
            &&& events_body_start(after, 0) == Some(q)
            &&& moved.len() == spans.len()
            &&& forall|k: int| 0 <= k < m ==> #[trigger] moved[k] == spans[k]
            &&& line_gaps(after, moved) == line_gaps(b, spans)
        }),
    decreases spans.len() - m,
{
    let n = spans.len() as int;
    if m == n {
        assert(spans.skip(m) =~= Seq::<LineSpan>::empty());
        assert(apply_edits(b, Seq::<EditSpec>::empty(), 0) =~= b);
    } else {
        lemma_respan_from(b, q, spans, pick, m + 1);
        lemma_span_edits_at(spans, pick, m);
        let tail = span_edits(spans.skip(m + 1), pick);
        let c = apply_edits(b, tail, 0);
        let moved_c = section_lines(c, q, 0);
        match pick(spans[m]) {
            None => {},
            Some(edit) => {
                lemma_replace_step(b, q, spans, pick, m, edit);
                let span = spans[m];
                let after = splice(c, span.start, span.end, edit.insert);
                assert(moved_c[m] == span);
                lemma_replace_event_line_spans(c, q, span.start, edit.insert);
                let before = lines_before(c, q, span.start, 0);
                let rest = section_lines(c, next_line_start(c, span.start), (m + 1) as nat);
                let len = edit.insert.len() as int;
                let by = len - (span.end - span.start);
                let old_line = seq![
                    LineSpan {
                        index: m as nat,
                        start: span.start,
                        end: span.end,
                        end_with_newline: next_line_start(c, span.start),
                    },
                ];
                assert(moved_c == before + old_line + rest);
                assert(moved_c[m] == old_line[0]);
                assert(span.end_with_newline == next_line_start(c, span.start));
                let moved = section_lines(after, q, 0);
                assert(moved =~= respanned(moved_c, m, len)) by {
                    assert forall|k: int| 0 <= k < moved.len() implies moved[k] == respanned(
                        moved_c,
                        m,
                        len,
                    )[k] by {
                        if k < m {
                            assert(moved[k] == before[k]);
                            assert(moved_c[k] == before[k]);
                        } else if k > m {
                            assert(moved[k] == shifted(rest, by)[k - m - 1]);
                            assert(moved_c[k] == rest[k - m - 1]);
                        }
                    }
                }
                lemma_event_lines_shape(c);
                assert(event_lines(c) == Some(moved_c));
                lemma_well_shaped_in_order(c, moved_c);
                lemma_gaps_after_replace(c, moved_c, m, edit.insert);
            },
        }
    }
}

/// Replacing the texts of event lines, each by a text that fits an event line, keeps as
/// many event lines as there were and every byte around their texts: only the texts
/// change.
pub proof fn lemma_replace_keeps_gaps(b: Seq<u8>, pick: spec_fn(LineSpan) -> Option<EditSpec>)
    requires
        event_lines(b) matches Some(spans) && picks_line_texts(b, spans, pick),
    ensures
        ({
            let spans = event_lines(b).unwrap();
            let after = apply_edits(b, span_edits(spans, pick), 0);
            &&& event_lines(after) matches Some(moved) && moved.len() == spans.len()
                && line_gaps(after, moved) == line_gaps(b, spans)
                && spans_in_order(after, moved)
        }),
{
    let q = events_body_start(b, 0).unwrap();
    let spans = event_lines(b).unwrap();
    lemma_event_lines_shape(b);
    lemma_respan_from(b, q, spans, pick, 0);
    assert(spans.skip(0) =~= spans);
    let after = apply_edits(b, span_edits(spans, pick), 0);
    lemma_event_lines_shape(after);
    lemma_well_shaped_in_order(after, section_lines(after, q, 0));
}

} // verus!
