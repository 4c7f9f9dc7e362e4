//! Replacing several spans of a text at once, last span first.
use crate::editor::document::{
    splice, valid_edit_range, EditorDocument, EditorError, Position, Range,
};
use crate::text::{is_ascii_byte, lemma_boundary_near_ascii};
use vstd::prelude::*;
use vstd::string::*;
use vstd::utf8::*;

verus! {

/// A replacement of bytes `start..end` of a text by `insert`.
pub struct EditSpec {
    pub start: int,
    pub end: int,
    pub insert: Seq<u8>,
}

/// The text `b` from `from` on, with each of `edits` applied: the bytes between the
/// edits are kept, and each edit's span is replaced by its insert.
pub open spec fn apply_edits(b: Seq<u8>, edits: Seq<EditSpec>, from: int) -> Seq<u8>
    decreases edits.len(),
{
    if edits.len() == 0 {
        b.subrange(from, b.len() as int)
    } else {
        b.subrange(from, edits[0].start) + edits[0].insert + apply_edits(
            b,
            edits.drop_first(),
            edits[0].end,
        )
    }
}

/// The edit's span lies in `b`, begins before its end at the start or right after an
/// ASCII byte, and ends at the end of `b`, right after an ASCII byte or at one.
pub open spec fn edit_anchored(b: Seq<u8>, edit: EditSpec) -> bool {
    &&& 0 <= edit.start <= edit.end <= b.len()
    &&& edit.start < b.len()
    &&& edit.start == 0 || is_ascii_byte(b[edit.start - 1])
    &&& edit.end == b.len() || (0 < edit.end && is_ascii_byte(b[edit.end - 1])) || (edit.end
        < b.len() && is_ascii_byte(b[edit.end]))
}

/// Edits that can be applied one by one from the last: each is anchored, each ends at or
/// before the next begins, and where they touch the byte before the touching point is
/// ASCII.
pub open spec fn edits_anchored(b: Seq<u8>, edits: Seq<EditSpec>) -> bool {
    &&& forall|k: int| 0 <= k < edits.len() ==> #[trigger] edit_anchored(b, edits[k])
    &&& forall|k: int|
        0 <= k < edits.len() - 1 ==> {
            &&& #[trigger] edits[k].end <= edits[k + 1].start
            &&& edits[k].end == edits[k + 1].start ==> 0 < edits[k].end && is_ascii_byte(
                b[edits[k].end - 1],
            )
        }
}

/// Keeping the bytes from `from` to `x` in front splits the application at `x`.
pub proof fn lemma_apply_edits_split(b: Seq<u8>, edits: Seq<EditSpec>, from: int, x: int)
    requires
        0 <= from <= x,
        edits.len() == 0 ==> x <= b.len(),
        edits.len() > 0 ==> x <= edits[0].start <= b.len(),
    ensures
        apply_edits(b, edits, from) == b.subrange(from, x) + apply_edits(b, edits, x),
{
    if edits.len() == 0 {
        assert(b.subrange(from, b.len() as int) =~= b.subrange(from, x) + b.subrange(
            x,
            b.len() as int,
        ));
    } else {
        let rest = edits[0].insert + apply_edits(b, edits.drop_first(), edits[0].end);
        assert(b.subrange(from, edits[0].start) =~= b.subrange(from, x) + b.subrange(
            x,
            edits[0].start,
        ));
        assert(b.subrange(from, edits[0].start) + rest =~= b.subrange(from, x) + (b.subrange(
            x,
            edits[0].start,
        ) + rest));
    }
}

/// With the edits from `j` on applied, edit `j - 1` is a valid range of the text, and
/// applying it gives the text with the edits from `j - 1` on applied.
pub proof fn lemma_apply_edits_step(b: Seq<u8>, edits: Seq<EditSpec>, j: int, current: Seq<u8>)
    requires
        edits_anchored(b, edits),
        0 < j <= edits.len(),
        current == apply_edits(b, edits.skip(j), 0),
        valid_utf8(current),
    ensures
        valid_edit_range(current, edits[j - 1].start, edits[j - 1].end),
        splice(current, edits[j - 1].start, edits[j - 1].end, edits[j - 1].insert) == apply_edits(
            b,
            edits.skip(j - 1),
            0,
        ),
{
    let t = edits[j - 1];
    let later = edits.skip(j);
    let bound = if j < edits.len() {
        edits[j].start
    } else {
        b.len() as int
    };
    assert(edit_anchored(b, t));
    if j < edits.len() {
        assert(later[0] == edits[j]);
        assert(edit_anchored(b, edits[j]));
        assert(edits[j - 1].end <= edits[j].start);
    }
    lemma_apply_edits_split(b, later, 0, bound);
    lemma_apply_edits_split(b, later, 0, t.end);
    let tail = apply_edits(b, later, t.end);
    assert(current == b.subrange(0, t.end) + tail);
    assert(current == b.subrange(0, bound) + apply_edits(b, later, bound));
    assert forall|p: int| 0 <= p < bound implies current[p] == b[p] by {
        assert(current[p] == b.subrange(0, bound)[p]);
    }
    // the start of the edit
    if t.start > 0 {
        assert(current[t.start - 1] == b[t.start - 1]);
    }
    lemma_boundary_near_ascii(current, t.start);
    // the end of the edit
    if t.end == b.len() {
        if j < edits.len() {
            assert(false);
        }
        assert(later.len() == 0);
        assert(current =~= b);
        lemma_boundary_near_ascii(current, t.end);
    } else if 0 < t.end && is_ascii_byte(b[t.end - 1]) {
        assert(current[t.end - 1] == b[t.end - 1]);
        lemma_boundary_near_ascii(current, t.end);
    } else {
        assert(t.end < bound);
        assert(current[t.end] == b[t.end]);
        lemma_boundary_near_ascii(current, t.end);
    }
    // the result
    let all = edits.skip(j - 1);
    assert(all[0] == t);
    assert(all.drop_first() =~= later);
    assert(current.subrange(0, t.start) =~= b.subrange(0, t.start));
    assert(current.subrange(t.end, current.len() as int) =~= tail);
    assert(apply_edits(b, all, 0) == b.subrange(0, t.start) + t.insert + tail);
}

/// A replacement of bytes `start..end` of a text by `text`.
pub struct LineEdit {
    /// Where the replaced span begins.
    pub start: usize,
    /// Where it ends.
    pub end: usize,
    /// What replaces it.
    pub text: String,
}

/// What an edit replaces and by which bytes.
pub open spec fn edit_view(edit: LineEdit) -> EditSpec {
    EditSpec { start: edit.start as int, end: edit.end as int, insert: encode_utf8(edit.text@) }
}

/// What each edit of a list replaces and by which bytes.
pub open spec fn edits_view(edits: Seq<LineEdit>) -> Seq<EditSpec> {
    Seq::new(edits.len(), |k: int| edit_view(edits[k]))
}

/// Replaces the span of each edit in `document`, the last edit first, so that the
/// offsets of the edits not yet applied stay valid.
pub fn replace_spans(document: &mut EditorDocument, edits: &Vec<LineEdit>) -> (result: Result<
    (),
    EditorError,
>)
    requires
        edits_anchored(old(document)@, edits_view(edits@)),
    ensures
        result is Ok,
        final(document)@ == apply_edits(old(document)@, edits_view(edits@), 0),
{
    let ghost b = document@;
    let ghost all = edits_view(edits@);
    let mut j = edits.len();
    proof {
        assert(all.skip(j as int) =~= Seq::<EditSpec>::empty());
        assert(b.subrange(0, b.len() as int) =~= b);
    }
    while j > 0
        invariant
            0 <= j <= edits@.len(),
            all == edits_view(edits@),
            edits_anchored(b, all),
            document@ == apply_edits(b, all.skip(j as int), 0),
        decreases j,
    {
        let edit = &edits[j - 1];
        proof {
            document.lemma_valid_utf8();
            lemma_apply_edits_step(b, all, j as int, document@);
            assert(all[j - 1] == edit_view(*edit));
        }
        let range = Range::new(Position::new(edit.start), Position::new(edit.end));
        document.replace(range, edit.text.as_str())?;
        j = j - 1;
    }
    proof {
        assert(all.skip(0) =~= all);
    }
    Ok(())
}

} // verus!
