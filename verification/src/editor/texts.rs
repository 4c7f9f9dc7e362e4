//! The texts of the event lines, and how replacing or removing whole event lines
//! changes them.
use crate::editor::document::splice;
use crate::editor::lines::{
    comment_tag, dialogue_tag, event_lines, events_body_start, events_header, is_event_line_at,
    lemma_event_lines_shape, lemma_line_end, line_end, line_text_end, next_line_start,
    section_lines, span_shaped, LineSpan, CARRIAGE_RETURN, LINE_FEED, OPEN_BRACKET,
};
use crate::text::has_prefix_at;
use vstd::prelude::*;

verus! {

/// The texts of the event lines from the line at `i` to the end of the events section.
pub open spec fn section_texts(b: Seq<u8>, i: int) -> Seq<Seq<u8>>
    decreases b.len() - i,
{
    if i < 0 || i >= b.len() || b[i] == OPEN_BRACKET {
        Seq::empty()
    } else {
        proof {
            lemma_line_end(b, i);
        }
        let rest = section_texts(b, next_line_start(b, i));
        if is_event_line_at(b, i) {
            seq![b.subrange(i, line_text_end(b, i))] + rest
        } else {
            rest
        }
    }
}

/// The texts of the event lines of a script, in order, or none where it has no events
/// section.
pub open spec fn event_texts(b: Seq<u8>) -> Option<Seq<Seq<u8>>> {
    match events_body_start(b, 0) {
        Some(body) => Some(section_texts(b, body)),
        None => None,
    }
}

/// The texts of the event lines at `spans` of `b`.
pub open spec fn span_texts(b: Seq<u8>, spans: Seq<LineSpan>) -> Seq<Seq<u8>> {
    Seq::new(spans.len(), |k: int| b.subrange(spans[k].start, spans[k].end))
}

/// The texts that [`section_texts`] gives are those of the spans that
/// [`section_lines`] finds.
pub proof fn lemma_section_texts_of_lines(b: Seq<u8>, i: int, index: nat)
    ensures
        section_texts(b, i) == span_texts(b, section_lines(b, i, index)),
    decreases b.len() - i,
{
    if 0 <= i < b.len() && b[i] != OPEN_BRACKET {
        lemma_line_end(b, i);
        let next = next_line_start(b, i);
        if is_event_line_at(b, i) {
            lemma_section_texts_of_lines(b, next, index + 1);
            let rest = section_lines(b, next, index + 1);
            let all = section_lines(b, i, index);
            assert(span_texts(b, all) =~= seq![b.subrange(i, line_text_end(b, i))] + span_texts(
                b,
                rest,
            )) by {
                assert forall|k: int| 0 <= k < all.len() implies #[trigger] span_texts(b, all)[k]
                    == (seq![b.subrange(i, line_text_end(b, i))] + span_texts(b, rest))[k] by {
                    if k > 0 {
                        assert(all[k] == rest[k - 1]);
                    }
                }
            }
        } else {
            lemma_section_texts_of_lines(b, next, index);
        }
    } else {
        assert(span_texts(b, section_lines(b, i, index)) =~= Seq::<Seq<u8>>::empty());
    }
}

/// Where lines end does not depend on the bytes before: looking at `b` from `p` on.
pub proof fn lemma_line_end_skip(b: Seq<u8>, p: int, j: int)
    requires
        0 <= p,
        0 <= j,
        p + j <= b.len(),
    ensures
        line_end(b, p + j) == p + line_end(b.skip(p), j),
    decreases b.len() - p - j,
{
    let c = b.skip(p);
    if p + j < b.len() {
        assert(c[j] == b[p + j]);
        if b[p + j] != LINE_FEED {
            lemma_line_end_skip(b, p, j + 1);
        }
    }
}

/// Which lines are events, and their texts, do not depend on the bytes before: looking at
/// `b` from `p` on.
pub proof fn lemma_section_texts_skip(b: Seq<u8>, p: int, j: int)
    requires
        0 <= p,
        0 <= j,
        p + j <= b.len(),
    ensures
        section_texts(b, p + j) == section_texts(b.skip(p), j),
    decreases b.len() - p - j,
{
    let c = b.skip(p);
    let i = p + j;
    if i < b.len() {
        assert(c[j] == b[i]);
        if b[i] != OPEN_BRACKET {
            lemma_line_end(b, i);
            lemma_line_end(c, j);
            lemma_line_end_skip(b, p, j);
            let e = line_end(b, i);
            assert(line_end(c, j) == e - p);
            if e > i {
                assert(c[e - p - 1] == b[e - 1]);
            }
            assert(line_text_end(b, i) == p + line_text_end(c, j));
            assert(next_line_start(b, i) == p + next_line_start(c, j));
            assert(has_prefix_at(b, i, dialogue_tag()) == has_prefix_at(c, j, dialogue_tag())) by {
                if i + 9 <= b.len() {
                    assert(b.subrange(i, i + 9) =~= c.subrange(j, j + 9));
                }
            }
            assert(has_prefix_at(b, i, comment_tag()) == has_prefix_at(c, j, comment_tag())) by {
                if i + 8 <= b.len() {
                    assert(b.subrange(i, i + 8) =~= c.subrange(j, j + 8));
                }
            }
            assert(b.subrange(i, line_text_end(b, i)) =~= c.subrange(j, line_text_end(c, j)));
            lemma_section_texts_skip(b, p, next_line_start(c, j));
        }
    }
}

/// The walk over the lines of the events section from the line at `i` comes to the line
/// at `s`.
pub open spec fn reaches(b: Seq<u8>, i: int, s: int) -> bool
    decreases b.len() - i,
{
    if i == s {
        true
    } else if i < 0 || i > s || i >= b.len() || b[i] == OPEN_BRACKET {
        false
    } else {
        proof {
            lemma_line_end(b, i);
        }
        reaches(b, next_line_start(b, i), s)
    }
}

/// The texts of the event lines that the walk from the line at `i` passes before `s`.
pub open spec fn texts_before(b: Seq<u8>, i: int, s: int) -> Seq<Seq<u8>>
    decreases b.len() - i,
{
    if i < 0 || i >= s || i >= b.len() || b[i] == OPEN_BRACKET {
        Seq::empty()
    } else {
        proof {
            lemma_line_end(b, i);
        }
        let rest = texts_before(b, next_line_start(b, i), s);
        if is_event_line_at(b, i) {
            seq![b.subrange(i, line_text_end(b, i))] + rest
        } else {
            rest
        }
    }
}

/// A walk that comes to `s` passes the texts before it, then goes on as from `s`.
pub proof fn lemma_walk_split(b: Seq<u8>, i: int, s: int)
    requires
        reaches(b, i, s),
    ensures
        i <= s,
        section_texts(b, i) == texts_before(b, i, s) + section_texts(b, s),
    decreases b.len() - i,
{
    if i == s {
        assert(texts_before(b, i, s) =~= Seq::<Seq<u8>>::empty());
        assert(Seq::<Seq<u8>>::empty() + section_texts(b, s) =~= section_texts(b, s));
    } else {
        lemma_line_end(b, i);
        let next = next_line_start(b, i);
        lemma_walk_split(b, next, s);
        if is_event_line_at(b, i) {
            let t = seq![b.subrange(i, line_text_end(b, i))];
            assert(t + texts_before(b, next, s) + section_texts(b, s) =~= t + (texts_before(
                b,
                next,
                s,
            ) + section_texts(b, s)));
        }
    }
}

/// The walk from the line at `i` comes to each event line that [`section_lines`] finds
/// from there, and passes as many event lines before it as the line's number counts
/// past `index`.
pub proof fn lemma_spans_reached(b: Seq<u8>, i: int, index: nat)
    ensures
        forall|k: int|
            0 <= k < section_lines(b, i, index).len() ==> {
                let span = #[trigger] section_lines(b, i, index)[k];
                &&& reaches(b, i, span.start)
                &&& texts_before(b, i, span.start).len() == span.index - index
            },
    decreases b.len() - i,
{
    if 0 <= i < b.len() && b[i] != OPEN_BRACKET {
        lemma_line_end(b, i);
        let next = next_line_start(b, i);
        let all = section_lines(b, i, index);
        if is_event_line_at(b, i) {
            lemma_spans_reached(b, next, index + 1);
            let rest = section_lines(b, next, index + 1);
            assert forall|k: int| 0 <= k < all.len() implies {
                let span = #[trigger] all[k];
                &&& reaches(b, i, span.start)
                &&& texts_before(b, i, span.start).len() == span.index - index
            } by {
                if k == 0 {
                    assert(texts_before(b, i, i) =~= Seq::<Seq<u8>>::empty());
                } else {
                    assert(all[k] == rest[k - 1]);
                    let span = rest[k - 1];
                    lemma_walk_split(b, next, span.start);
                }
            }
        } else {
            lemma_spans_reached(b, next, index);
            let rest = section_lines(b, next, index);
            assert forall|k: int| 0 <= k < all.len() implies {
                let span = #[trigger] all[k];
                &&& reaches(b, i, span.start)
                &&& texts_before(b, i, span.start).len() == span.index - index
            } by {
                assert(all[k] == rest[k]);
                lemma_walk_split(b, next, rest[k].start);
            }
        }
    }
}

/// `b1` and `b2` hold the same first `n` bytes.
pub open spec fn agree(b1: Seq<u8>, b2: Seq<u8>, n: int) -> bool {
    &&& 0 <= n <= b1.len()
    &&& n <= b2.len()
    &&& forall|p: int| 0 <= p < n ==> b1[p] == b2[p]
}

/// A line end that lies inside the bytes two texts share is a line end of both.
pub proof fn lemma_line_end_agree(b1: Seq<u8>, b2: Seq<u8>, n: int, i: int)
    requires
        agree(b1, b2, n),
        0 <= i <= line_end(b1, i) < n,
    ensures
        line_end(b2, i) == line_end(b1, i),
    decreases n - i,
{
    lemma_line_end(b1, i);
    if b1[i] != LINE_FEED {
        lemma_line_end_agree(b1, b2, n, i + 1);
    }
}

/// Between a position and the end of its line, every position has the same line end.
pub proof fn lemma_line_end_within(b: Seq<u8>, i: int, j: int)
    requires
        0 <= i <= j <= line_end(b, i),
    ensures
        line_end(b, j) == line_end(b, i),
    decreases j - i,
{
    if i < j {
        lemma_line_end(b, i);
        assert(b[i] != LINE_FEED);
        lemma_line_end_within(b, i + 1, j);
    }
}

/// Whether a line starts with a pattern that holds no line feed is the same in two texts
/// that share the line.
pub proof fn lemma_prefix_agree(b1: Seq<u8>, b2: Seq<u8>, n: int, i: int, pattern: Seq<u8>)
    requires
        agree(b1, b2, n),
        0 <= i <= line_end(b1, i) < n,
        forall|j: int| 0 <= j < pattern.len() ==> pattern[j] != LINE_FEED,
    ensures
        has_prefix_at(b1, i, pattern) == has_prefix_at(b2, i, pattern),
{
    let e = line_end(b1, i);
    lemma_line_end(b1, i);
    if has_prefix_at(b1, i, pattern) {
        if i + pattern.len() > e {
            assert(b1[e] == b1.subrange(i, i + pattern.len())[e - i]);
        }
        assert(b1.subrange(i, i + pattern.len()) =~= b2.subrange(i, i + pattern.len()));
    }
    if has_prefix_at(b2, i, pattern) {
        if i + pattern.len() > e {
            assert(b2[e] == b2.subrange(i, i + pattern.len())[e - i]);
        }
        assert(b1.subrange(i, i + pattern.len()) =~= b2.subrange(i, i + pattern.len()));
    }
}

/// A line that two texts share, with its line feed, is read the same in both: same end,
/// same text, same start of the next line, and the same answer to whether it is an event.
pub proof fn lemma_line_agree(b1: Seq<u8>, b2: Seq<u8>, n: int, i: int)
    requires
        agree(b1, b2, n),
        0 <= i <= line_end(b1, i) < n,
    ensures
        line_end(b2, i) == line_end(b1, i),
        line_text_end(b2, i) == line_text_end(b1, i),
        next_line_start(b2, i) == next_line_start(b1, i),
        is_event_line_at(b2, i) == is_event_line_at(b1, i),
        has_prefix_at(b2, i, dialogue_tag()) == has_prefix_at(b1, i, dialogue_tag()),
        has_prefix_at(b2, i, events_header()) == has_prefix_at(b1, i, events_header()),
        b2.subrange(i, line_text_end(b1, i)) == b1.subrange(i, line_text_end(b1, i)),
        b2[i] == b1[i],
{
    lemma_line_end_agree(b1, b2, n, i);
    let e = line_end(b1, i);
    if e > i {
        assert(b2[e - 1] == b1[e - 1]);
    }
    lemma_prefix_agree(b1, b2, n, i, dialogue_tag());
    lemma_prefix_agree(b1, b2, n, i, comment_tag());
    lemma_prefix_agree(b1, b2, n, i, events_header());
    assert(b2.subrange(i, line_text_end(b1, i)) =~= b1.subrange(i, line_text_end(b1, i)));
}

/// Texts that share their first `n` bytes find the events section at the same place when
/// its header line lies in those bytes.
pub proof fn lemma_body_agree(b1: Seq<u8>, b2: Seq<u8>, n: int, i: int)
    requires
        agree(b1, b2, n),
        0 <= i,
        events_body_start(b1, i) matches Some(q) && q <= n && q < b1.len(),
    ensures
        events_body_start(b2, i) == events_body_start(b1, i),
    decreases b1.len() - i,
{
    lemma_line_end(b1, i);
    let e = line_end(b1, i);
    let next = next_line_start(b1, i);
    let q = events_body_start(b1, i).unwrap();
    if has_prefix_at(b1, i, events_header()) {
        assert(e < n);
        lemma_line_agree(b1, b2, n, i);
    } else {
        lemma_events_body_start_after(b1, next);
        assert(e < n);
        lemma_line_agree(b1, b2, n, i);
        lemma_body_agree(b1, b2, n, next);
    }
}

/// Where the events section is found from `i`, it begins past `i`.
proof fn lemma_events_body_start_after(b: Seq<u8>, i: int)
    requires
        0 <= i,
    ensures
        events_body_start(b, i) matches Some(q) ==> i < q <= b.len(),
    decreases b.len() - i,
{
    if 0 <= i < b.len() {
        lemma_line_end(b, i);
        if !has_prefix_at(b, i, events_header()) {
            lemma_events_body_start_after(b, next_line_start(b, i));
        }
    }
}

/// Texts that share their first `s` bytes walk the same way to `s`, passing the same
/// event texts.
pub proof fn lemma_walk_agree(b1: Seq<u8>, b2: Seq<u8>, i: int, s: int)
    requires
        agree(b1, b2, s),
        s < b1.len(),
        reaches(b1, i, s),
    ensures
        reaches(b2, i, s),
        texts_before(b2, i, s) == texts_before(b1, i, s),
    decreases b1.len() - i,
{
    if i != s {
        lemma_line_end(b1, i);
        let next = next_line_start(b1, i);
        lemma_walk_split(b1, next, s);
        assert(line_end(b1, i) < s);
        lemma_line_agree(b1, b2, s, i);
        lemma_walk_agree(b1, b2, next, s);
    }
}

/// A text that can stand as the text of an event line whose old text ends with the byte
/// `last`: it starts with an event tag, holds no line feed, and ends with `last`, so that
/// the line break after it reads the same.
pub open spec fn fits_event_line(inserted: Seq<u8>, last: u8) -> bool {
    &&& has_prefix_at(inserted, 0, dialogue_tag()) || has_prefix_at(inserted, 0, comment_tag())
    &&& forall|j: int| 0 <= j < inserted.len() ==> inserted[j] != LINE_FEED
    &&& inserted.len() > 0
    &&& inserted.last() == last
}

/// The event line at `s` of the events section, which starts at `q`.
pub open spec fn event_line_in_section(c: Seq<u8>, q: int, s: int) -> bool {
    &&& events_body_start(c, 0) == Some(q)
    &&& q <= s < c.len()
    &&& reaches(c, q, s)
    &&& is_event_line_at(c, s)
}

/// An event line's text and its line end: its text ends before its line end, the bytes
/// in between are at most one carriage return, and it holds no line feed.
pub proof fn lemma_event_line_text(c: Seq<u8>, s: int)
    requires
        0 <= s < c.len(),
        is_event_line_at(c, s),
    ensures
        s < line_text_end(c, s) <= line_end(c, s) <= c.len(),
        line_text_end(c, s) == line_end(c, s) || (line_text_end(c, s) == line_end(c, s) - 1
            && c[line_text_end(c, s)] == CARRIAGE_RETURN && line_end(c, s) < c.len()),
        line_text_end(c, s) == line_end(c, s) && line_end(c, s) < c.len() ==> c[line_end(c, s)
            - 1] != CARRIAGE_RETURN,
        c[s] != OPEN_BRACKET,
{
    lemma_line_end(c, s);
    if has_prefix_at(c, s, dialogue_tag()) {
        assert(c[s] == c.subrange(s, s + 9)[0]);
    } else {
        assert(c[s] == c.subrange(s, s + 8)[0]);
    }
    if line_end(c, s) == s {
        assert(c[s] == LINE_FEED);
    }
}

/// Read from its start, a fitting text followed by what came after the old text of the
/// event line at `s` begins with one event line, whose text is the fitting text and whose
/// line break is that of the old line, after which come the bytes after the old line.
pub proof fn lemma_new_line_shape(c: Seq<u8>, s: int, inserted: Seq<u8>)
    requires
        0 <= s < c.len(),
        is_event_line_at(c, s),
        fits_event_line(inserted, c[line_text_end(c, s) - 1]),
    ensures
        ({
            let te = line_text_end(c, s);
            let next = next_line_start(c, s);
            let d = inserted + c.skip(te);
            let m = inserted.len() as int;
            &&& s < te <= next <= c.len()
            &&& 0 < d.len()
            &&& d[0] != OPEN_BRACKET
            &&& is_event_line_at(d, 0)
            &&& line_text_end(d, 0) == m
            &&& next_line_start(d, 0) == m + (next - te)
            &&& d.subrange(0, m) == inserted
            &&& d.skip(m + (next - te)) == c.skip(next)
        }),
{
    let te = line_text_end(c, s);
    let le = line_end(c, s);
    lemma_event_line_text(c, s);
    lemma_line_end(c, s);
    let next = next_line_start(c, s);
    let r = c.skip(te);
    let d = inserted + r;
    let m = inserted.len() as int;
    lemma_line_end_within(c, s, te);
    lemma_line_end_skip(c, te, 0);
    assert(line_end(r, 0) == le - te);
    assert forall|j: int| 0 <= j < m implies d[j] != LINE_FEED by {
        assert(d[j] == inserted[j]);
    }
    lemma_line_end(d, 0);
    assert(line_end(d, 0) >= m) by {
        if line_end(d, 0) < m {
            assert(d[line_end(d, 0)] == inserted[line_end(d, 0)]);
        }
    }
    lemma_line_end_within(d, 0, m);
    lemma_line_end_skip(d, m, 0);
    assert(d.skip(m) =~= r);
    let le_d = line_end(d, 0);
    assert(le_d == m + (le - te));
    assert(d.len() == m + c.len() - te);
    if te < le {
        assert(d[le_d - 1] == r[0]);
        assert(r[0] == c[te]);
    } else {
        assert(d[le_d - 1] == inserted[m - 1]);
    }
    assert(line_text_end(d, 0) == m);
    let next_d = next_line_start(d, 0);
    assert(next_d == m + (next - te));
    assert(has_prefix_at(d, 0, dialogue_tag()) == has_prefix_at(inserted, 0, dialogue_tag())) by {
        if m >= 9 {
            assert(d.subrange(0, 9) =~= inserted.subrange(0, 9));
        }
    }
    assert(has_prefix_at(d, 0, comment_tag()) == has_prefix_at(inserted, 0, comment_tag())) by {
        if m >= 8 {
            assert(d.subrange(0, 8) =~= inserted.subrange(0, 8));
        }
    }
    if has_prefix_at(inserted, 0, dialogue_tag()) {
        assert(inserted[0] == inserted.subrange(0, 9)[0]);
    } else {
        assert(inserted[0] == inserted.subrange(0, 8)[0]);
    }
    assert(d[0] == inserted[0]);
    assert(d.subrange(0, m) =~= inserted);
    assert(d.skip(next_d) =~= c.skip(next));
}

/// Read from its start, a fitting text followed by what came after the old text of the
/// event line at `s` is one event line with that text, then the lines after the old line.
proof fn lemma_line_with_new_text(c: Seq<u8>, s: int, inserted: Seq<u8>)
    requires
        0 <= s < c.len(),
        is_event_line_at(c, s),
        fits_event_line(inserted, c[line_text_end(c, s) - 1]),
    ensures
        section_texts(inserted + c.skip(line_text_end(c, s)), 0) == seq![inserted]
            + section_texts(c, next_line_start(c, s)),
{
    let te = line_text_end(c, s);
    let next = next_line_start(c, s);
    let d = inserted + c.skip(te);
    let m = inserted.len() as int;
    lemma_new_line_shape(c, s, inserted);
    lemma_line_end(d, 0);
    let next_d = next_line_start(d, 0);
    assert(section_texts(d, 0) == seq![inserted] + section_texts(d, next_d));
    lemma_section_texts_skip(d, next_d, 0);
    lemma_section_texts_skip(c, next, 0);
}

/// Replacing the text of an event line by a text that fits an event line replaces that
/// text among the event texts, and nothing else.
pub proof fn lemma_replace_event_text(c: Seq<u8>, q: int, s: int, inserted: Seq<u8>)
    requires
        event_line_in_section(c, q, s),
        fits_event_line(inserted, c[line_text_end(c, s) - 1]),
    ensures
        ({
            let changed = splice(c, s, line_text_end(c, s), inserted);
            &&& events_body_start(changed, 0) == Some(q)
            &&& section_texts(changed, q) == section_texts(c, q).update(
                texts_before(c, q, s).len() as int,
                inserted,
            )
        }),
{
    let te = line_text_end(c, s);
    lemma_event_line_text(c, s);
    let changed = splice(c, s, te, inserted);
    assert(changed.skip(s) =~= inserted + c.skip(te));
    assert(agree(c, changed, s));
    lemma_body_agree(c, changed, s, 0);
    lemma_walk_agree(c, changed, q, s);
    lemma_walk_split(c, q, s);
    lemma_walk_split(changed, q, s);
    lemma_line_end(c, s);
    let next = next_line_start(c, s);
    let t = c.subrange(s, te);
    assert(section_texts(c, s) == seq![t] + section_texts(c, next));
    lemma_line_with_new_text(c, s, inserted);
    lemma_section_texts_skip(changed, s, 0);
    assert(section_texts(changed, s) == seq![inserted] + section_texts(c, next));
    let before = texts_before(c, q, s);
    assert(section_texts(changed, q) =~= (before + (seq![t] + section_texts(c, next))).update(
        before.len() as int,
        inserted,
    ));
}

/// Removing an event line with its line break removes its text from the event texts, and
/// nothing else.
pub proof fn lemma_remove_event_line(c: Seq<u8>, q: int, s: int)
    requires
        event_line_in_section(c, q, s),
    ensures
        ({
            let changed = splice(c, s, next_line_start(c, s), Seq::empty());
            &&& events_body_start(changed, 0) == Some(q)
            &&& section_texts(changed, q) == section_texts(c, q).remove(
                texts_before(c, q, s).len() as int,
            )
        }),
{
    lemma_event_line_text(c, s);
    let next = next_line_start(c, s);
    let changed = splice(c, s, next, Seq::empty());
    assert(agree(c, changed, s));
    lemma_body_agree(c, changed, s, 0);
    lemma_walk_agree(c, changed, q, s);
    lemma_walk_split(c, q, s);
    lemma_walk_split(changed, q, s);
    let t = c.subrange(s, line_text_end(c, s));
    assert(section_texts(c, s) == seq![t] + section_texts(c, next));
    lemma_section_texts_skip(changed, s, 0);
    lemma_section_texts_skip(c, next, 0);
    assert(changed.skip(s) =~= c.skip(next));
    let before = texts_before(c, q, s);
    assert(section_texts(changed, q) =~= (before + (seq![t] + section_texts(c, next))).remove(
        before.len() as int,
    ));
}

/// The text of a well-shaped event line starts with the tag the line starts with, is not
/// empty and holds no line feed.
pub proof fn lemma_span_text(b: Seq<u8>, span: LineSpan, index: int, from: int)
    requires
        span_shaped(b, span, index, from),
    ensures
        ({
            let text = b.subrange(span.start, span.end);
            &&& has_prefix_at(text, 0, dialogue_tag()) == has_prefix_at(b, span.start, dialogue_tag())
            &&& has_prefix_at(text, 0, comment_tag()) == has_prefix_at(b, span.start, comment_tag())
            &&& has_prefix_at(text, 0, dialogue_tag()) || has_prefix_at(text, 0, comment_tag())
            &&& text.len() > 0
            &&& forall|j: int| 0 <= j < text.len() ==> text[j] != LINE_FEED
            &&& text.last() == b[span.end - 1]
        }),
{
    let text = b.subrange(span.start, span.end);
    lemma_line_end(b, span.start);
    assert forall|j: int| 0 <= j < text.len() implies text[j] != LINE_FEED by {
        assert(text[j] == b[span.start + j]);
    }
    if span.start + 9 <= span.end {
        assert(text.subrange(0, 9) =~= b.subrange(span.start, span.start + 9));
    }
    if span.start + 8 <= span.end {
        assert(text.subrange(0, 8) =~= b.subrange(span.start, span.start + 8));
    }
}

/// A text that is the event texts of a script is what [`section_texts`] reads from the
/// section's start, and the event lines there carry those texts.
pub proof fn lemma_event_texts_of_lines(b: Seq<u8>)
    ensures
        event_texts(b) is Some == event_lines(b) is Some,
        event_lines(b) matches Some(spans) ==> event_texts(b) == Some(span_texts(b, spans)),
{
    if let Some(q) = events_body_start(b, 0) {
        lemma_section_texts_of_lines(b, q, 0);
    }
}

/// Removing the event line numbered `k`, with its line break, removes its text from the
/// event texts, and nothing else.
pub proof fn lemma_remove_one_event(b: Seq<u8>, k: int)
    requires
        event_lines(b) matches Some(spans) && 0 <= k < spans.len(),
    ensures
        ({
            let span = event_lines(b).unwrap()[k];
            event_texts(splice(b, span.start, span.end_with_newline, Seq::empty())) == Some(
                event_texts(b).unwrap().remove(k),
            )
        }),
{
    let q = events_body_start(b, 0).unwrap();
    let spans = event_lines(b).unwrap();
    let span = spans[k];
    lemma_event_lines_shape(b);
    assert(span_shaped(b, span, 0 + k, 0));
    lemma_spans_reached(b, q, 0);
    assert(spans[k] == section_lines(b, q, 0)[k]);
    lemma_walk_split(b, q, span.start);
    lemma_remove_event_line(b, q, span.start);
}

} // verus!
