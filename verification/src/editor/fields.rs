//! The fields of an event line.
//!
//! After its `Dialogue:` or `Comment:` tag and any spaces, an event line holds ten
//! fields separated by commas: layer, start, end, style, name, the left, right and
//! vertical margins, effect, and text. The text is the rest of the line, commas and all.
use crate::editor::lines::{
    comment_tag, comment_tag_bytes, dialogue_tag, dialogue_tag_bytes, is_event_line_at,
    matches_at,
};
use crate::text::{has_prefix_at, lemma_boundary_near_ascii, lemma_str_bytes, str_slice};
use vstd::prelude::*;
use vstd::string::*;
use vstd::utf8::*;

verus! {

/// The space byte.
pub const SPACE: u8 = 0x20;

/// The comma byte, which separates fields.
pub const COMMA: u8 = 0x2c;

/// The type of an event line.
#[derive(Clone, Copy, Debug, PartialEq, Eq, Structural)]
pub enum EventType {
    /// A line shown on screen.
    Dialogue,
    /// A line kept in the script but not shown.
    Comment,
}

/// The length of the type tag that the event line `line` starts with.
pub open spec fn tag_length(line: Seq<u8>) -> int {
    if has_prefix_at(line, 0, dialogue_tag()) {
        dialogue_tag().len() as int
    } else {
        comment_tag().len() as int
    }
}

/// The first position at or after `i` that is not a space.
pub open spec fn skip_spaces(line: Seq<u8>, i: int) -> int
    decreases line.len() - i,
{
    if 0 <= i < line.len() && line[i] == SPACE {
        skip_spaces(line, i + 1)
    } else {
        i
    }
}

/// Where the fields of the event line `line` begin: after its tag and any spaces.
pub open spec fn fields_start(line: Seq<u8>) -> int {
    skip_spaces(line, tag_length(line))
}

/// No byte of `line` from `i` to `j` is a comma.
pub open spec fn comma_free(line: Seq<u8>, i: int, j: int) -> bool {
    forall|t: int| i <= t < j ==> line[t] != COMMA
}

/// No byte of `line` between the comma `commas[k]` and the next one is a comma.
pub open spec fn gap_free(line: Seq<u8>, commas: Seq<int>, k: int) -> bool {
    comma_free(line, commas[k] + 1, commas[k + 1])
}

/// The first comma at or after `i`, if any.
pub open spec fn comma_at_or_after(line: Seq<u8>, i: int) -> Option<int>
    decreases line.len() - i,
{
    if i < 0 || i >= line.len() {
        None
    } else if line[i] == COMMA {
        Some(i)
    } else {
        comma_at_or_after(line, i + 1)
    }
}

/// The first `count` commas from `from` on, each searched for after the one before.
pub open spec fn field_commas(line: Seq<u8>, from: int, count: nat) -> Option<Seq<int>>
    decreases count,
{
    if count == 0 {
        Some(Seq::empty())
    } else {
        match comma_at_or_after(line, from) {
            None => None,
            Some(c) => match field_commas(line, c + 1, (count - 1) as nat) {
                None => None,
                Some(rest) => Some(seq![c] + rest),
            },
        }
    }
}

/// The nine commas that separate the ten fields of the event line `line`, where it has
/// them.
pub open spec fn event_commas(line: Seq<u8>) -> Option<Seq<int>> {
    field_commas(line, fields_start(line), 9)
}

/// Where field `k` of `line` begins, given its separating commas.
pub open spec fn field_begin(line: Seq<u8>, commas: Seq<int>, k: int) -> int {
    if k == 0 {
        fields_start(line)
    } else {
        commas[k - 1] + 1
    }
}

/// Where field `k` of `line` ends, given its separating commas: at the next comma, or,
/// for the text, at the end of the line.
pub open spec fn field_finish(line: Seq<u8>, commas: Seq<int>, k: int) -> int {
    if k < 9 {
        commas[k]
    } else {
        line.len() as int
    }
}

/// The first comma at or after `i` lies there, with no comma before it.
pub proof fn lemma_comma_at_or_after(line: Seq<u8>, i: int)
    requires
        0 <= i,
    ensures
        comma_at_or_after(line, i) matches Some(c) ==> i <= c < line.len() && line[c] == COMMA
            && forall|j: int| i <= j < c ==> line[j] != COMMA,
        comma_at_or_after(line, i) is None ==> forall|j: int| i <= j < line.len() ==> line[j]
            != COMMA,
    decreases line.len() - i,
{
    if 0 <= i < line.len() && line[i] != COMMA {
        lemma_comma_at_or_after(line, i + 1);
    }
}

/// The commas found are `count` commas in increasing order, from `from` on.
pub proof fn lemma_field_commas(line: Seq<u8>, from: int, count: nat)
    requires
        0 <= from,
    ensures
        field_commas(line, from, count) matches Some(cs) ==> {
            &&& cs.len() == count
            &&& forall|k: int| 0 <= k < cs.len() ==> from <= #[trigger] cs[k] < line.len() && line[cs[k]] == COMMA
            &&& forall|k: int| 0 <= k < cs.len() - 1 ==> #[trigger] cs[k] < cs[k + 1]
        },
    decreases count,
{
    if count > 0 {
        lemma_comma_at_or_after(line, from);
        if let Some(c) = comma_at_or_after(line, from) {
            lemma_field_commas(line, c + 1, (count - 1) as nat);
            if let Some(rest) = field_commas(line, c + 1, (count - 1) as nat) {
                let cs = seq![c] + rest;
                assert forall|k: int| 0 <= k < cs.len() implies from <= #[trigger] cs[k]
                    < line.len() && line[cs[k]] == COMMA by {
                    if k > 0 {
                        assert(cs[k] == rest[k - 1]);
                    }
                }
                assert forall|k: int| 0 <= k < cs.len() - 1 implies #[trigger] cs[k] < cs[k
                    + 1] by {
                    assert(cs[k + 1] == rest[k]);
                    if k > 0 {
                        assert(cs[k] == rest[k - 1]);
                    }
                }
            }
        }
    }
}

/// Between the start and the first comma found, and between each comma found and the
/// next, there is no comma.
pub proof fn lemma_field_commas_gaps(line: Seq<u8>, from: int, count: nat)
    requires
        0 <= from,
    ensures
        field_commas(line, from, count) matches Some(cs) ==> {
            &&& cs.len() > 0 ==> comma_free(line, from, cs[0])
            &&& forall|k: int| 0 <= k < cs.len() - 1 ==> #[trigger] gap_free(line, cs, k)
        },
    decreases count,
{
    if count > 0 {
        lemma_comma_at_or_after(line, from);
        if let Some(c) = comma_at_or_after(line, from) {
            lemma_field_commas_gaps(line, c + 1, (count - 1) as nat);
            if let Some(rest) = field_commas(line, c + 1, (count - 1) as nat) {
                let cs = seq![c] + rest;
                assert forall|k: int| 0 <= k < cs.len() - 1 implies #[trigger] gap_free(line, cs, k) by {
                    assert(cs[k + 1] == rest[k]);
                    if k > 0 {
                        assert(cs[k] == rest[k - 1]);
                        assert(gap_free(line, rest, k - 1));
                    } else {
                        lemma_comma_at_or_after(line, c + 1);
                    }
                }
            }
        }
    }
}

/// The fields start after the tag and spaces, inside the line.
pub proof fn lemma_skip_spaces(line: Seq<u8>, i: int)
    requires
        0 <= i <= line.len(),
    ensures
        i <= skip_spaces(line, i) <= line.len(),
        forall|j: int| i <= j < skip_spaces(line, i) ==> line[j] == SPACE,
        skip_spaces(line, i) < line.len() ==> line[skip_spaces(line, i)] != SPACE,
    decreases line.len() - i,
{
    if i < line.len() && line[i] == SPACE {
        lemma_skip_spaces(line, i + 1);
    }
}

/// The text of field `k` of `line`, given its separating commas.
pub open spec fn field_text(line: Seq<u8>, commas: Seq<int>, k: int) -> Seq<u8> {
    line.subrange(field_begin(line, commas, k), field_finish(line, commas, k))
}

/// The ten fields of the event line `line`, where it has them all.
pub open spec fn event_fields(line: Seq<u8>) -> Option<Seq<Seq<u8>>> {
    match event_commas(line) {
        Some(commas) => Some(Seq::new(10, |k: int| field_text(line, commas, k))),
        None => None,
    }
}

/// A comma with no comma between `i` and it is the first comma at or after `i`.
proof fn lemma_first_comma(line: Seq<u8>, i: int, c: int)
    requires
        0 <= i <= c < line.len(),
        line[c] == COMMA,
        comma_free(line, i, c),
    ensures
        comma_at_or_after(line, i) == Some(c),
    decreases c - i,
{
    if i < c {
        lemma_first_comma(line, i + 1, c);
    }
}

/// Commas in increasing order, each the first after the one before (the first, the first
/// from `from`), are the commas that [`field_commas`] finds.
pub proof fn lemma_commas_found(line: Seq<u8>, from: int, commas: Seq<int>)
    requires
        0 <= from,
        forall|k: int| 0 <= k < commas.len() ==> from <= #[trigger] commas[k] < line.len() && line[commas[k]] == COMMA,
        forall|k: int| 0 <= k < commas.len() - 1 ==> #[trigger] commas[k] < commas[k + 1],
        commas.len() > 0 ==> comma_free(line, from, commas[0]),
        forall|k: int| 0 <= k < commas.len() - 1 ==> #[trigger] gap_free(line, commas, k),
    ensures
        field_commas(line, from, commas.len()) == Some(commas),
    decreases commas.len(),
{
    if commas.len() > 0 {
        let c = commas[0];
        lemma_first_comma(line, from, c);
        let rest = commas.drop_first();
        assert forall|k: int| 0 <= k < rest.len() implies c + 1 <= #[trigger] rest[k] < line.len()
            && line[rest[k]] == COMMA by {
            assert(rest[k] == commas[k + 1]);
            if k > 0 {
                assert(commas[k] < commas[k + 1]);
                assert(commas[0] < commas[1]);
                lemma_increasing(commas, k);
            } else {
                assert(commas[0] < commas[1]);
            }
        }
        assert forall|k: int| 0 <= k < rest.len() - 1 implies #[trigger] rest[k] < rest[k + 1] by {
            assert(commas[k + 1] < commas[k + 2]);
        }
        if rest.len() > 0 {
            assert(gap_free(line, commas, 0));
        }
        assert forall|k: int| 0 <= k < rest.len() - 1 implies #[trigger] gap_free(line, rest, k) by {
            assert(gap_free(line, commas, k + 1));
        }
        lemma_commas_found(line, c + 1, rest);
        assert(seq![c] + rest =~= commas);
    }
}

/// In a sequence that increases step by step, each element after the first exceeds the
/// first.
proof fn lemma_increasing(commas: Seq<int>, k: int)
    requires
        forall|j: int| 0 <= j < commas.len() - 1 ==> #[trigger] commas[j] < commas[j + 1],
        0 < k < commas.len(),
    ensures
        commas[0] < commas[k],
    decreases k,
{
    if k > 1 {
        lemma_increasing(commas, k - 1);
    }
    assert(commas[k - 1] < commas[k]);
}

/// From position `from` of `y` on, `x` holds the same bytes `by` positions later, up to
/// its end.
pub open spec fn same_after(x: Seq<u8>, y: Seq<u8>, from: int, by: int) -> bool {
    &&& 0 <= from <= y.len()
    &&& 0 <= from + by
    &&& x.len() == y.len() + by
    &&& forall|j: int| from <= j < y.len() ==> #[trigger] y[j] == x[j + by]
}

/// Spaces are skipped the same way in bytes that are the same, moved.
proof fn lemma_skip_spaces_moved(x: Seq<u8>, y: Seq<u8>, from: int, by: int, i: int)
    requires
        same_after(x, y, from, by),
        from <= i <= y.len(),
    ensures
        skip_spaces(x, i + by) == skip_spaces(y, i) + by,
    decreases y.len() - i,
{
    if i < y.len() {
        assert(y[i] == x[i + by]);
        if y[i] == SPACE {
            lemma_skip_spaces_moved(x, y, from, by, i + 1);
        }
    }
}

/// Commas are found the same way in bytes that are the same, moved.
proof fn lemma_comma_moved(x: Seq<u8>, y: Seq<u8>, from: int, by: int, i: int)
    requires
        same_after(x, y, from, by),
        from <= i <= y.len(),
    ensures
        comma_at_or_after(x, i + by) == match comma_at_or_after(y, i) {
            Some(c) => Some(c + by),
            None => None::<int>,
        },
    decreases y.len() - i,
{
    if i < y.len() {
        assert(y[i] == x[i + by]);
        if y[i] != COMMA {
            lemma_comma_moved(x, y, from, by, i + 1);
        }
    }
}

/// `commas` moved `by` positions on.
pub open spec fn moved_by(commas: Seq<int>, by: int) -> Seq<int> {
    Seq::new(commas.len(), |k: int| commas[k] + by)
}

/// The commas that separate fields are found the same way in bytes that are the same,
/// moved.
proof fn lemma_field_commas_moved(x: Seq<u8>, y: Seq<u8>, from: int, by: int, i: int, count: nat)
    requires
        same_after(x, y, from, by),
        from <= i,
    ensures
        field_commas(x, i + by, count) == match field_commas(y, i, count) {
            Some(commas) => Some(moved_by(commas, by)),
            None => None::<Seq<int>>,
        },
    decreases count,
{
    if count > 0 {
        if i <= y.len() {
            lemma_comma_moved(x, y, from, by, i);
        } else {
            assert(comma_at_or_after(y, i) is None);
            assert(comma_at_or_after(x, i + by) is None);
        }
        lemma_comma_at_or_after(y, i);
        if let Some(c) = comma_at_or_after(y, i) {
            lemma_field_commas_moved(x, y, from, by, c + 1, (count - 1) as nat);
            if let Some(rest) = field_commas(y, c + 1, (count - 1) as nat) {
                assert(moved_by(seq![c] + rest, by) =~= seq![c + by] + moved_by(rest, by));
            }
        }
    } else {
        assert(moved_by(Seq::<int>::empty(), by) =~= Seq::<int>::empty());
    }
}

/// Two event lines whose tags are followed by the same bytes have the same fields.
pub proof fn lemma_fields_after_tag(x: Seq<u8>, y: Seq<u8>)
    requires
        same_after(x, y, tag_length(y), tag_length(x) - tag_length(y)),
        tag_length(y) <= y.len(),
    ensures
        event_fields(x) == event_fields(y),
{
    let by = tag_length(x) - tag_length(y);
    let t = tag_length(y);
    lemma_skip_spaces_moved(x, y, t, by, t);
    lemma_skip_spaces(y, t);
    let start = fields_start(y);
    assert(fields_start(x) == start + by);
    lemma_field_commas_moved(x, y, t, by, start, 9);
    if let Some(commas) = event_commas(y) {
        let moved = moved_by(commas, by);
        lemma_field_commas(y, start, 9);
        assert forall|k: int| 0 <= k < 10 implies #[trigger] field_text(x, moved, k) == field_text(
            y,
            commas,
            k,
        ) by {
            let begin = field_begin(y, commas, k);
            let finish = field_finish(y, commas, k);
            assert(t <= begin <= finish <= y.len()) by {
                if k > 0 {
                    assert(start <= commas[k - 1] < y.len());
                }
                if k < 9 {
                    assert(start <= commas[k] < y.len());
                }
                if 0 < k < 9 {
                    assert(commas[k - 1] < commas[k]);
                }
                if k == 0 {
                    assert(start <= commas[0]);
                }
            }
            assert(field_text(x, moved, k) =~= field_text(y, commas, k)) by {
                assert forall|j: int| 0 <= j < finish - begin implies #[trigger] field_text(
                    x,
                    moved,
                    k,
                )[j] == field_text(y, commas, k)[j] by {
                    assert(y[begin + j] == x[begin + j + by]);
                }
            }
        }
        assert(Seq::new(10, |k: int| field_text(x, moved, k)) =~= Seq::new(
            10,
            |k: int| field_text(y, commas, k),
        ));
    }
}

/// The fields of an event line.
#[derive(Debug)]
pub struct EventFields<'a> {
    /// The line's type.
    pub event_type: EventType,
    /// Layer, start, end, style, name, left, right and vertical margins, effect and text.
    pub fields: Vec<&'a str>,
}

/// `parsed` holds the fields of `line` between the separating commas `commas`.
pub open spec fn fields_parsed(line: Seq<u8>, commas: Seq<int>, parsed: EventFields) -> bool {
    &&& parsed.event_type == if has_prefix_at(line, 0, dialogue_tag()) {
        EventType::Dialogue
    } else {
        EventType::Comment
    }
    &&& parsed.fields@.len() == 10
    &&& forall|k: int|
        0 <= k < 10 ==> #[trigger] parsed.fields@[k].spec_bytes() == line.subrange(
            field_begin(line, commas, k),
            field_finish(line, commas, k),
        )
}

/// The first comma at or after `from`.
fn find_comma(bytes: &[u8], from: usize) -> (found: Option<usize>)
    ensures
        match comma_at_or_after(bytes@, from as int) {
            Some(c) => found == Some(c as usize),
            None => found is None,
        },
{
    let n = bytes.len();
    let mut i = from;
    while i < n
        invariant
            from <= i,
            n == bytes@.len(),
            comma_at_or_after(bytes@, from as int) == comma_at_or_after(bytes@, i as int),
        decreases n - i,
    {
        if bytes[i] == COMMA {
            return Some(i);
        }
        i = i + 1;
    }
    None
}

/// Splits an event line into its type and ten fields; none where the line has no event
/// tag or fewer than nine commas after it.
pub fn parse_event_line<'a>(line: &'a str) -> (parsed: Option<EventFields<'a>>)
    ensures
        match parsed {
            Some(fields) => {
                &&& is_event_line_at(line.spec_bytes(), 0)
                &&& event_commas(line.spec_bytes()) matches Some(commas)
                &&& fields_parsed(line.spec_bytes(), commas, fields)
            },
            None => !is_event_line_at(line.spec_bytes(), 0) || event_commas(
                line.spec_bytes(),
            ) is None,
        },
{
    let bytes = line.as_bytes();
    let n = bytes.len();
    let ghost b = bytes@;
    proof {
        lemma_str_bytes(line);
    }
    let (event_type, tag_len) = if matches_at(bytes, 0, dialogue_tag_bytes()) {
        (EventType::Dialogue, 9usize)
    } else if matches_at(bytes, 0, comment_tag_bytes()) {
        (EventType::Comment, 8usize)
    } else {
        return None;
    };
    proof {
        assert(tag_len == tag_length(b));
        assert(b[tag_len - 1] == b.subrange(0, tag_len as int)[tag_len - 1]);
    }
    let mut start = tag_len;
    while start < n && bytes[start] == SPACE
        invariant
            tag_len <= start <= n,
            n == b.len(),
            b == bytes@,
            skip_spaces(b, start as int) == skip_spaces(b, tag_len as int),
            b[start - 1] == SPACE || b[start - 1] == ':' as u8,
        decreases n - start,
    {
        start = start + 1;
    }
    let ghost p0 = start as int;
    let mut fields: Vec<&'a str> = Vec::new();
    let mut field_start = start;
    let mut k: usize = 0;
    let ghost mut found: Seq<int> = Seq::empty();
    while k < 9
        invariant
            0 <= k <= 9,
            p0 <= field_start <= n,
            n == b.len(),
            b == bytes@,
            b == line.spec_bytes(),
            valid_utf8(b),
            p0 == fields_start(b),
            b[field_start - 1] == SPACE || b[field_start - 1] == ':' as u8 || b[field_start - 1]
                == COMMA,
            found.len() == k,
            fields@.len() == k,
            k > 0 ==> field_start == found[k - 1] + 1,
            k == 0 ==> field_start == p0,
            event_commas(b) == match field_commas(b, field_start as int, (9 - k) as nat) {
                Some(rest) => Some(found + rest),
                None => None,
            },
            forall|j: int|
                0 <= j < k ==> #[trigger] fields@[j].spec_bytes() == b.subrange(
                    field_begin(b, found, j),
                    found[j],
                ),
        decreases 9 - k,
    {
        proof {
            lemma_comma_at_or_after(b, field_start as int);
        }
        match find_comma(bytes, field_start) {
            None => {
                return None;
            },
            Some(comma) => {
                proof {
                    lemma_boundary_near_ascii(b, field_start as int);
                    lemma_boundary_near_ascii(b, comma as int);
                }
                fields.push(str_slice(line, field_start, comma));
                proof {
                    let old_found = found;
                    found = found.push(comma as int);
                    let rest = field_commas(b, comma + 1, (9 - k - 1) as nat);
                    assert(field_commas(b, field_start as int, (9 - k) as nat) == match rest {
                        Some(r) => Some(seq![comma as int] + r),
                        None => None,
                    });
                    if let Some(r) = rest {
                        assert(old_found + (seq![comma as int] + r) =~= found + r);
                    }
                    assert(found[k as int] == comma);
                    assert(field_begin(b, found, k as int) == field_start);
                    assert forall|j: int| 0 <= j < k + 1 implies #[trigger] fields@[j].spec_bytes()
                        == b.subrange(field_begin(b, found, j), found[j]) by {
                        if j < k {
                            assert(found[j] == old_found[j]);
                            if j > 0 {
                                assert(found[j - 1] == old_found[j - 1]);
                            }
                        }
                    }
                }
                field_start = comma + 1;
            },
        }
        k = k + 1;
    }
    proof {
        lemma_boundary_near_ascii(b, field_start as int);
        lemma_boundary_near_ascii(b, n as int);
        assert(field_commas(b, field_start as int, 0) == Some(Seq::<int>::empty()));
        assert(found + Seq::<int>::empty() =~= found);
    }
    fields.push(str_slice(line, field_start, n));
    let parsed = EventFields { event_type, fields };
    proof {
        let commas = event_commas(b).unwrap();
        assert(commas == found);
        assert forall|j: int| 0 <= j < 10 implies #[trigger] parsed.fields@[j].spec_bytes()
            == b.subrange(field_begin(b, commas, j), field_finish(b, commas, j)) by {
            if j < 9 {
                assert(parsed.fields@[j] == fields@[j]);
            }
        }
    }
    Some(parsed)
}

} // verus!
