//! Finding the event lines of a script.
//!
//! A script is read line by line, lines ending at a line feed (a carriage return right
//! before it is not part of the line). The events section begins after the first line
//! that starts with `[Events]` and ends before the next line that starts with `[`. In
//! it, the lines that start with `Dialogue:` or `Comment:` are the events, numbered from
//! zero in order.
use crate::editor::document::EditorError;
use crate::text::{has_prefix_at, lemma_boundary_near_ascii, lemma_str_bytes, str_slice};
use vstd::prelude::*;
use vstd::string::*;
use vstd::utf8::*;

verus! {

/// The line feed byte.
pub const LINE_FEED: u8 = 0x0a;

/// The carriage return byte.
pub const CARRIAGE_RETURN: u8 = 0x0d;

/// The byte `[`, which begins a section header.
pub const OPEN_BRACKET: u8 = 0x5b;

/// The bytes of `[Events]`.
pub open spec fn events_header() -> Seq<u8> {
    seq![
        '[' as u8,
        'E' as u8,
        'v' as u8,
        'e' as u8,
        'n' as u8,
        't' as u8,
        's' as u8,
        ']' as u8,
    ]
}

/// The bytes of `Dialogue:`.
pub open spec fn dialogue_tag() -> Seq<u8> {
    seq![
        'D' as u8,
        'i' as u8,
        'a' as u8,
        'l' as u8,
        'o' as u8,
        'g' as u8,
        'u' as u8,
        'e' as u8,
        ':' as u8,
    ]
}

/// The bytes of `Comment:`.
pub open spec fn comment_tag() -> Seq<u8> {
    seq!['C' as u8, 'o' as u8, 'm' as u8, 'm' as u8, 'e' as u8, 'n' as u8, 't' as u8, ':' as u8]
}

/// The bytes of `[Events]`.
pub fn events_header_bytes() -> (bytes: &'static [u8])
    ensures
        bytes@ == events_header(),
{
    let literal = "[Events]";
    proof {
        reveal_strlit("[Events]");
        is_ascii_spec_bytes(literal);
        assert(literal.spec_bytes() =~= events_header());
    }
    literal.as_bytes()
}

/// The bytes of `Dialogue:`.
pub fn dialogue_tag_bytes() -> (bytes: &'static [u8])
    ensures
        bytes@ == dialogue_tag(),
{
    let literal = "Dialogue:";
    proof {
        reveal_strlit("Dialogue:");
        is_ascii_spec_bytes(literal);
        assert(literal.spec_bytes() =~= dialogue_tag());
    }
    literal.as_bytes()
}

/// The bytes of `Comment:`.
pub fn comment_tag_bytes() -> (bytes: &'static [u8])
    ensures
        bytes@ == comment_tag(),
{
    let literal = "Comment:";
    proof {
        reveal_strlit("Comment:");
        is_ascii_spec_bytes(literal);
        assert(literal.spec_bytes() =~= comment_tag());
    }
    literal.as_bytes()
}

/// Whether `bytes` holds `pattern` at `at`.
pub fn matches_at(bytes: &[u8], at: usize, pattern: &[u8]) -> (found: bool)
    ensures
        found == has_prefix_at(bytes@, at as int, pattern@),
{
    let n = bytes.len();
    let m = pattern.len();
    if at > n || m > n - at {
        return false;
    }
    let mut k: usize = 0;
    while k < m
        invariant
            0 <= k <= m,
            m == pattern@.len(),
            n == bytes@.len(),
            at + m <= n,
            forall|j: int| 0 <= j < k ==> bytes@[at + j] == pattern@[j],
        decreases m - k,
    {
        if bytes[at + k] != pattern[k] {
            assert(bytes@.subrange(at as int, at + m)[k as int] != pattern@[k as int]);
            return false;
        }
        k = k + 1;
    }
    assert(bytes@.subrange(at as int, at + m) =~= pattern@);
    true
}

/// Where the line that contains position `i` ends: the first line feed at or after
/// `i`, or the end of the text.
pub open spec fn line_end(b: Seq<u8>, i: int) -> int
    decreases b.len() - i,
{
    if i < 0 || i >= b.len() || b[i] == LINE_FEED {
        i
    } else {
        line_end(b, i + 1)
    }
}

/// Where the line after the one at `i` begins: past the line feed, or the end of the
/// text.
pub open spec fn next_line_start(b: Seq<u8>, i: int) -> int {
    if line_end(b, i) < b.len() {
        line_end(b, i) + 1
    } else {
        line_end(b, i)
    }
}

/// Where the text of the line at `i` ends: before its line feed, and before a carriage
/// return that precedes that line feed.
pub open spec fn line_text_end(b: Seq<u8>, i: int) -> int {
    let e = line_end(b, i);
    if e < b.len() && e > i && b[e - 1] == CARRIAGE_RETURN {
        e - 1
    } else {
        e
    }
}

/// The line at `i` ends at the first line feed at or after `i`, or the end of the text.
pub proof fn lemma_line_end(b: Seq<u8>, i: int)
    requires
        0 <= i <= b.len(),
    ensures
        i <= line_end(b, i) <= b.len(),
        line_end(b, i) < b.len() ==> b[line_end(b, i)] == LINE_FEED,
        forall|j: int| i <= j < line_end(b, i) ==> b[j] != LINE_FEED,
    decreases b.len() - i,
{
    if i < b.len() && b[i] != LINE_FEED {
        lemma_line_end(b, i + 1);
    }
}

/// Where the lines after the `[Events]` header begin, looking at the lines from `i` on.
pub open spec fn events_body_start(b: Seq<u8>, i: int) -> Option<int>
    decreases b.len() - i,
{
    if i < 0 || i >= b.len() {
        None
    } else if has_prefix_at(b, i, events_header()) {
        Some(next_line_start(b, i))
    } else {
        proof {
            lemma_line_end(b, i);
        }
        events_body_start(b, next_line_start(b, i))
    }
}

/// The line at `i` is an event: it starts with `Dialogue:` or `Comment:`.
pub open spec fn is_event_line_at(b: Seq<u8>, i: int) -> bool {
    has_prefix_at(b, i, dialogue_tag()) || has_prefix_at(b, i, comment_tag())
}

/// Where an event line lies in the text.
pub struct LineSpan {
    /// The event's number, counting from zero.
    pub index: nat,
    /// Where the line begins.
    pub start: int,
    /// Where its text ends.
    pub end: int,
    /// Where it ends with its line break.
    pub end_with_newline: int,
}

/// The event lines from position `i` to the end of the events section, numbered from
/// `index`.
pub open spec fn section_lines(b: Seq<u8>, i: int, index: nat) -> Seq<LineSpan>
    decreases b.len() - i,
{
    if i < 0 || i >= b.len() || b[i] == OPEN_BRACKET {
        Seq::empty()
    } else {
        proof {
            lemma_line_end(b, i);
        }
        if is_event_line_at(b, i) {
            seq![
                LineSpan {
                    index,
                    start: i,
                    end: line_text_end(b, i),
                    end_with_newline: next_line_start(b, i),
                },
            ] + section_lines(b, next_line_start(b, i), index + 1)
        } else {
            section_lines(b, next_line_start(b, i), index)
        }
    }
}

/// The event lines of the script, or none where it has no events section.
pub open spec fn event_lines(b: Seq<u8>) -> Option<Seq<LineSpan>> {
    match events_body_start(b, 0) {
        Some(body) => Some(section_lines(b, body, 0)),
        None => None,
    }
}

/// `span` is a whole event line numbered `index` at or after `from`: it begins right after
/// a line feed with an event tag that lies inside its text, its text ends at the end of
/// the script or at its line break, and the line break ends at the end of the script or
/// right after a line feed.
pub open spec fn span_shaped(b: Seq<u8>, span: LineSpan, index: int, from: int) -> bool {
    &&& span.index == index
    &&& from <= span.start
    &&& 0 < span.start && b[span.start - 1] == LINE_FEED
    &&& is_event_line_at(b, span.start)
    &&& has_prefix_at(b, span.start, dialogue_tag()) ==> span.start + dialogue_tag().len()
        <= span.end
    &&& has_prefix_at(b, span.start, comment_tag()) ==> span.start + comment_tag().len()
        <= span.end
    &&& span.start < span.end <= span.end_with_newline <= b.len()
    &&& span.end == b.len() || (span.end < span.end_with_newline && (b[span.end] == LINE_FEED
        || b[span.end] == CARRIAGE_RETURN))
    &&& span.end_with_newline == b.len() || b[span.end_with_newline - 1] == LINE_FEED
    &&& span.end == line_text_end(b, span.start)
    &&& span.end_with_newline == next_line_start(b, span.start)
}

/// Every span is a whole event line (see [`span_shaped`]), numbered from `first` on,
/// and each ends with its line break before the next begins.
pub open spec fn spans_well_shaped(b: Seq<u8>, spans: Seq<LineSpan>, first: int, from: int) -> bool {
    &&& forall|k: int| 0 <= k < spans.len() ==> #[trigger] span_shaped(b, spans[k], first + k, from)
    &&& forall|k: int, l: int|
        0 <= k < l < spans.len() ==> #[trigger] spans[k].end_with_newline <= #[trigger] spans[l].start
}

/// The line at `i` starting with `tag`, which holds no line feed or carriage return,
/// has its text end after the tag.
proof fn lemma_tag_inside_line(b: Seq<u8>, i: int, tag: Seq<u8>)
    requires
        0 <= i < b.len(),
        has_prefix_at(b, i, tag),
        tag.len() > 0,
        forall|j: int| 0 <= j < tag.len() ==> tag[j] != LINE_FEED && tag[j] != CARRIAGE_RETURN,
    ensures
        i + tag.len() <= line_text_end(b, i),
{
    lemma_line_end(b, i);
    let e = line_end(b, i);
    if e < i + tag.len() {
        assert(b[e] == b.subrange(i, i + tag.len())[e - i]);
        assert(false);
    }
    if e == i + tag.len() && e < b.len() && b[e - 1] == CARRIAGE_RETURN {
        assert(b[e - 1] == b.subrange(i, i + tag.len())[e - 1 - i]);
        assert(false);
    }
}

/// The spans that [`section_lines`] finds from a line start are well shaped.
pub proof fn lemma_section_lines_shape(b: Seq<u8>, i: int, index: nat)
    requires
        0 <= i <= b.len(),
        i == b.len() || (0 < i && b[i - 1] == LINE_FEED),
    ensures
        spans_well_shaped(b, section_lines(b, i, index), index as int, i),
    decreases b.len() - i,
{
    if i < b.len() && b[i] != OPEN_BRACKET {
        lemma_line_end(b, i);
        let next = next_line_start(b, i);
        if is_event_line_at(b, i) {
            lemma_section_lines_shape(b, next, index + 1);
            let rest = section_lines(b, next, index + 1);
            let span = LineSpan {
                index,
                start: i,
                end: line_text_end(b, i),
                end_with_newline: next,
            };
            let all = seq![span] + rest;
            assert(section_lines(b, i, index) == all);
            if has_prefix_at(b, i, dialogue_tag()) {
                lemma_tag_inside_line(b, i, dialogue_tag());
            }
            if has_prefix_at(b, i, comment_tag()) {
                lemma_tag_inside_line(b, i, comment_tag());
            }
            assert(span_shaped(b, span, index as int, i));
            assert forall|k: int| 0 <= k < all.len() implies #[trigger] span_shaped(
                b,
                all[k],
                index + k,
                i,
            ) by {
                if k > 0 {
                    assert(all[k] == rest[k - 1]);
                    assert(span_shaped(b, rest[k - 1], index + 1 + (k - 1), next));
                }
            }
            assert forall|k: int, l: int|
                0 <= k < l < all.len() implies #[trigger] all[k].end_with_newline
                <= #[trigger] all[l].start by {
                assert(all[l] == rest[l - 1]);
                assert(span_shaped(b, rest[l - 1], index + 1 + (l - 1), next));
                if k > 0 {
                    assert(all[k] == rest[k - 1]);
                }
            }
        } else {
            lemma_section_lines_shape(b, next, index);
            let rest = section_lines(b, next, index);
            assert forall|k: int| 0 <= k < rest.len() implies #[trigger] span_shaped(
                b,
                rest[k],
                index + k,
                i,
            ) by {
                assert(span_shaped(b, rest[k], index + k, next));
            }
        }
    }
}

/// The events section, where there is one, begins after a line feed or at the end of the
/// script, past position `i`.
pub proof fn lemma_events_body_start(b: Seq<u8>, i: int)
    requires
        0 <= i,
    ensures
        events_body_start(b, i) matches Some(s) ==> i < s <= b.len() && (s == b.len() || b[s
            - 1] == LINE_FEED),
    decreases b.len() - i,
{
    if 0 <= i < b.len() {
        lemma_line_end(b, i);
        if !has_prefix_at(b, i, events_header()) {
            lemma_events_body_start(b, next_line_start(b, i));
        }
    }
}

/// The event lines of a script are well shaped, numbered from zero.
pub proof fn lemma_event_lines_shape(b: Seq<u8>)
    ensures
        event_lines(b) matches Some(spans) ==> spans_well_shaped(b, spans, 0, 0),
{
    lemma_events_body_start(b, 0);
    if let Some(body) = events_body_start(b, 0) {
        lemma_section_lines_shape(b, body, 0);
        let spans = section_lines(b, body, 0);
        assert forall|k: int| 0 <= k < spans.len() implies #[trigger] span_shaped(
            b,
            spans[k],
            0 + k,
            0,
        ) by {
            assert(span_shaped(b, spans[k], 0 + k, body));
        }
    }
}

/// The whole view of a list of event lines.
pub open spec fn spans_of(lines: Seq<EventLine>) -> Seq<LineSpan> {
    Seq::new(lines.len(), |k: int| lines[k].span())
}

/// An event line of a script, with its text.
#[derive(Debug)]
pub struct EventLine<'a> {
    /// The event's number, counting from zero.
    pub index: usize,
    /// Byte offset where the line begins.
    pub start: usize,
    /// Byte offset where its text ends.
    pub end: usize,
    /// Byte offset where it ends with its line break.
    pub end_with_newline: usize,
    /// The line's text.
    pub line: &'a str,
}

impl<'a> EventLine<'a> {
    /// Where the line lies.
    pub open spec fn span(&self) -> LineSpan {
        LineSpan {
            index: self.index as nat,
            start: self.start as int,
            end: self.end as int,
            end_with_newline: self.end_with_newline as int,
        }
    }
}

/// The event lines found are `spans`, each carrying its text out of `b`.
pub open spec fn lines_found(lines: Seq<EventLine>, spans: Seq<LineSpan>, b: Seq<u8>) -> bool {
    &&& spans_of(lines) == spans
    &&& forall|k: int|
        0 <= k < lines.len() ==> #[trigger] lines[k].line.spec_bytes() == b.subrange(
            lines[k].start as int,
            lines[k].end as int,
        )
}

/// The message of the error for a script without an events section.
pub open spec fn no_events_message() -> Seq<char> {
    "No [Events] section found"@
}

/// Where the line at `i` ends.
fn find_line_end(bytes: &[u8], i: usize) -> (e: usize)
    requires
        i <= bytes@.len(),
    ensures
        e == line_end(bytes@, i as int),
{
    let n = bytes.len();
    let mut j = i;
    while j < n && bytes[j] != LINE_FEED
        invariant
            i <= j <= n,
            n == bytes@.len(),
            line_end(bytes@, j as int) == line_end(bytes@, i as int),
        decreases n - j,
    {
        j = j + 1;
    }
    j
}

/// Where the lines after the `[Events]` header begin.
fn find_events_body(bytes: &[u8]) -> (body: Option<usize>)
    ensures
        match events_body_start(bytes@, 0) {
            Some(s) => body == Some(s as usize) && 0 < s <= bytes@.len() && (s == bytes@.len()
                || bytes@[s - 1] == LINE_FEED),
            None => body is None,
        },
{
    let n = bytes.len();
    let header = events_header_bytes();
    let mut i: usize = 0;
    while i < n
        invariant
            0 <= i <= n,
            n == bytes@.len(),
            header@ == events_header(),
            events_body_start(bytes@, 0) == events_body_start(bytes@, i as int),
        decreases n - i,
    {
        let e = find_line_end(bytes, i);
        proof {
            lemma_line_end(bytes@, i as int);
        }
        let next = if e < n {
            e + 1
        } else {
            e
        };
        if matches_at(bytes, i, header) {
            return Some(next);
        }
        i = next;
    }
    None
}

/// Finds the event lines of `content`, failing where it has no events section.
pub fn collect_event_lines<'a>(content: &'a str) -> (result: Result<Vec<EventLine<'a>>, EditorError>)
    ensures
        match event_lines(content.spec_bytes()) {
            Some(spans) => result matches Ok(lines) && lines_found(
                lines@,
                spans,
                content.spec_bytes(),
            ),
            None => result matches Err(EditorError::CommandFailed { message }) && message@
                == no_events_message(),
        },
{
    let bytes = content.as_bytes();
    let n = bytes.len();
    let body = match find_events_body(bytes) {
        Some(body) => body,
        None => {
            let message = "No [Events] section found".to_owned();
            return Err(EditorError::command_failed(message));
        },
    };
    let dialogue = dialogue_tag_bytes();
    let comment = comment_tag_bytes();
    let ghost b = bytes@;
    proof {
        lemma_str_bytes(content);
    }
    let mut lines: Vec<EventLine<'a>> = Vec::new();
    let mut i = body;
    let mut index: usize = 0;
    while i < n && bytes[i] != OPEN_BRACKET
        invariant
            body <= i <= n,
            n == b.len(),
            b == bytes@,
            b == content.spec_bytes(),
            valid_utf8(b),
            dialogue@ == dialogue_tag(),
            comment@ == comment_tag(),
            i == n || (0 < i && b[i - 1] == LINE_FEED),
            index <= i,
            spans_of(lines@) + section_lines(b, i as int, index as nat) == section_lines(
                b,
                body as int,
                0,
            ),
            forall|k: int|
                0 <= k < lines@.len() ==> #[trigger] lines@[k].line.spec_bytes() == b.subrange(
                    lines@[k].start as int,
                    lines@[k].end as int,
                ),
        decreases n - i,
    {
        let e = find_line_end(bytes, i);
        proof {
            lemma_line_end(b, i as int);
        }
        let next = if e < n {
            e + 1
        } else {
            e
        };
        let ghost rest_before = section_lines(b, i as int, index as nat);
        if matches_at(bytes, i, dialogue) || matches_at(bytes, i, comment) {
            let end = if e < n && e > i && bytes[e - 1] == CARRIAGE_RETURN {
                e - 1
            } else {
                e
            };
            proof {
                lemma_boundary_near_ascii(b, i as int);
                lemma_boundary_near_ascii(b, end as int);
            }
            let line = str_slice(content, i, end);
            let event = EventLine { index, start: i, end, end_with_newline: next, line };
            let ghost old_lines = lines@;
            lines.push(event);
            proof {
                assert(rest_before == seq![event.span()] + section_lines(
                    b,
                    next as int,
                    (index + 1) as nat,
                ));
                assert(spans_of(lines@) =~= spans_of(old_lines) + seq![event.span()]);
                assert(spans_of(lines@) + section_lines(b, next as int, (index + 1) as nat)
                    =~= spans_of(old_lines) + rest_before);
                assert(forall|k: int| 0 <= k < old_lines.len() ==> lines@[k] == old_lines[k]);
            }
            index = index + 1;
        }
        i = next;
    }
    proof {
        assert(section_lines(b, i as int, index as nat) =~= Seq::<LineSpan>::empty());
        assert(spans_of(lines@) + Seq::<LineSpan>::empty() =~= spans_of(lines@));
    }
    Ok(lines)
}

} // verus!
