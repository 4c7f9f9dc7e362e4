//! How an event line written anew with a changed effect reads: it still fits its place
//! as an event line, and its fields are the old ones with the effect changed.
use crate::editor::commands::effect::{
    effect_line, event_type_name, updated_effect, EffectOperation,
};
use crate::editor::fields::{
    comma_free, event_commas, event_fields, field_begin, field_text, fields_start, gap_free,
    lemma_commas_found, lemma_field_commas, lemma_field_commas_gaps, lemma_skip_spaces,
    skip_spaces, tag_length, COMMA, SPACE,
};
use crate::editor::lines::{comment_tag, dialogue_tag, LINE_FEED};
use crate::editor::texts::fits_event_line;
use crate::text::has_prefix_at;
use vstd::prelude::*;

verus! {

/// `bytes` holds no line feed.
pub open spec fn free_of_line_feeds(bytes: Seq<u8>) -> bool {
    forall|j: int| 0 <= j < bytes.len() ==> bytes[j] != LINE_FEED
}

/// Joining texts without line feeds gives one without, and so does taking a part of one.
proof fn lemma_free_of_line_feeds(a: Seq<u8>, c: Seq<u8>)
    requires
        free_of_line_feeds(a),
        free_of_line_feeds(c),
    ensures
        free_of_line_feeds(a + c),
        forall|i: int, j: int| 0 <= i <= j <= a.len() ==> free_of_line_feeds(#[trigger] a.subrange(i, j)),
{
    assert forall|j: int| 0 <= j < (a + c).len() implies (a + c)[j] != LINE_FEED by {
        if j < a.len() {
            assert((a + c)[j] == a[j]);
        } else {
            assert((a + c)[j] == c[j - a.len()]);
        }
    }
    assert forall|i: int, j: int| 0 <= i <= j <= a.len() implies free_of_line_feeds(
        #[trigger] a.subrange(i, j),
    ) by {
        assert forall|t: int| 0 <= t < j - i implies a.subrange(i, j)[t] != LINE_FEED by {
            assert(a.subrange(i, j)[t] == a[i + t]);
        }
    }
}

/// An event line written anew with a changed effect that holds no line feed fits the line
/// in its place.
pub proof fn lemma_effect_line_fits(line: Seq<u8>, operation: EffectOperation, effect: Seq<u8>)
    requires
        has_prefix_at(line, 0, dialogue_tag()) || has_prefix_at(line, 0, comment_tag()),
        free_of_line_feeds(line),
        free_of_line_feeds(effect),
        effect_line(line, operation, effect) is Some,
    ensures
        fits_event_line(effect_line(line, operation, effect).unwrap(), line.last()),
{
    let commas = event_commas(line).unwrap();
    let start = fields_start(line);
    lemma_skip_spaces(line, tag_length(line));
    lemma_field_commas(line, start, 9);
    assert(commas[7] < commas[8]);
    let name = event_type_name(line);
    let head = name + seq![':' as u8, SPACE];
    let kept = line.subrange(start, commas[7] + 1);
    let current = line.subrange(commas[7] + 1, commas[8]);
    let updated = updated_effect(operation, current, effect);
    let tail = line.subrange(commas[8], line.len() as int);
    let inserted = head + kept + updated + tail;
    assert(effect_line(line, operation, effect).unwrap() == inserted);
    // no line feeds
    lemma_free_of_line_feeds(line, line);
    assert(free_of_line_feeds(kept));
    assert(free_of_line_feeds(current));
    assert(free_of_line_feeds(tail));
    assert(free_of_line_feeds(head));
    assert(free_of_line_feeds(seq![SPACE]));
    lemma_free_of_line_feeds(current, seq![SPACE]);
    lemma_free_of_line_feeds(current + seq![SPACE], effect);
    lemma_free_of_line_feeds(effect, seq![SPACE]);
    lemma_free_of_line_feeds(effect + seq![SPACE], current);
    assert(free_of_line_feeds(Seq::<u8>::empty()));
    assert(free_of_line_feeds(updated));
    lemma_free_of_line_feeds(head, kept);
    lemma_free_of_line_feeds(head + kept, updated);
    lemma_free_of_line_feeds(head + kept + updated, tail);
    // the tag in front
    if has_prefix_at(line, 0, dialogue_tag()) {
        assert(inserted.subrange(0, 9) =~= dialogue_tag());
    } else {
        assert(inserted.subrange(0, 8) =~= comment_tag());
    }
    // the last byte
    assert(tail.len() > 0);
    assert(inserted.last() == tail.last());
}

/// The parts of an event line written anew with a changed effect, and where they lie.
proof fn lemma_effect_line_parts(line: Seq<u8>, operation: EffectOperation, effect: Seq<u8>)
    requires
        has_prefix_at(line, 0, dialogue_tag()) || has_prefix_at(line, 0, comment_tag()),
        event_commas(line) is Some,
    ensures
        ({
            let commas = event_commas(line).unwrap();
            let start = fields_start(line);
            let head = event_type_name(line) + seq![':' as u8, SPACE];
            let h = head.len() as int;
            let kept = commas[7] + 1 - start;
            let updated = updated_effect(
                operation,
                line.subrange(commas[7] + 1, commas[8]),
                effect,
            );
            let new_line = effect_line(line, operation, effect).unwrap();
            &&& tag_length(line) <= start <= commas[0] <= commas[7]
            &&& commas[7] < commas[8] < line.len()
            &&& line[start] != SPACE
            &&& h == tag_length(line) + 1
            &&& new_line.len() == h + kept + updated.len() + line.len() - commas[8]
            &&& new_line.subrange(0, h) == head
            &&& forall|p: int| h <= p < h + kept ==> #[trigger] new_line[p] == line[p - h + start]
            &&& new_line.subrange(h + kept, h + kept + updated.len()) == updated
            &&& forall|p: int|
                h + kept + updated.len() <= p < new_line.len() ==> #[trigger] new_line[p] == line[p
                    - (h + kept + updated.len()) + commas[8]]
        }),
{
    let commas = event_commas(line).unwrap();
    let start = fields_start(line);
    lemma_skip_spaces(line, tag_length(line));
    lemma_field_commas(line, start, 9);
    assert(commas[0] < commas[1]);
    assert(commas[7] < commas[8]);
    if has_prefix_at(line, 0, dialogue_tag()) {
        assert(line[8] == line.subrange(0, 9)[8]);
    } else {
        assert(line[7] == line.subrange(0, 8)[7]);
    }
    assert(start >= tag_length(line));
    assert(commas[0] <= commas[7]) by {
        assert(commas[0] < commas[1] && commas[1] < commas[2] && commas[2] < commas[3] && commas[3] < commas[4]
            && commas[4] < commas[5] && commas[5] < commas[6] && commas[6] < commas[7]);
    }
    let head = event_type_name(line) + seq![':' as u8, SPACE];
    let h = head.len() as int;
    let kept = line.subrange(start, commas[7] + 1);
    let updated = updated_effect(operation, line.subrange(commas[7] + 1, commas[8]), effect);
    let tail = line.subrange(commas[8], line.len() as int);
    let new_line = head + kept + updated + tail;
    assert(effect_line(line, operation, effect).unwrap() == new_line);
    assert(new_line.subrange(0, h) =~= head);
    assert forall|p: int| h <= p < h + kept.len() implies #[trigger] new_line[p] == line[p - h
        + start] by {
        assert(new_line[p] == kept[p - h]);
    }
    assert(new_line.subrange(h + kept.len(), h + kept.len() + updated.len()) =~= updated);
    assert forall|p: int|
        h + kept.len() + updated.len() <= p < new_line.len() implies #[trigger] new_line[p]
        == line[p - (h + kept.len() + updated.len()) + commas[8]] by {
        assert(new_line[p] == tail[p - (h + kept.len() + updated.len())]);
    }
}

/// An event line written anew with a changed effect begins with the tag it began with.
proof fn lemma_effect_line_tag(line: Seq<u8>, operation: EffectOperation, effect: Seq<u8>)
    requires
        has_prefix_at(line, 0, dialogue_tag()) || has_prefix_at(line, 0, comment_tag()),
        event_commas(line) is Some,
    ensures
        ({
            let new_line = effect_line(line, operation, effect).unwrap();
            &&& has_prefix_at(new_line, 0, dialogue_tag()) == has_prefix_at(line, 0, dialogue_tag())
            &&& has_prefix_at(new_line, 0, comment_tag()) == has_prefix_at(line, 0, comment_tag())
            &&& fields_start(new_line) == tag_length(line) + 1
        }),
{
    let commas = event_commas(line).unwrap();
    let start = fields_start(line);
    let head = event_type_name(line) + seq![':' as u8, SPACE];
    let h = head.len() as int;
    let new_line = effect_line(line, operation, effect).unwrap();
    lemma_effect_line_parts(line, operation, effect);
    if has_prefix_at(line, 0, dialogue_tag()) {
        assert(new_line.subrange(0, 9) =~= dialogue_tag()) by {
            assert forall|t: int| 0 <= t < 9 implies new_line[t] == dialogue_tag()[t] by {
                assert(new_line[t] == new_line.subrange(0, h)[t]);
            }
        }
        assert(!has_prefix_at(new_line, 0, comment_tag())) by {
            assert(new_line[0] == new_line.subrange(0, h)[0]);
            if has_prefix_at(new_line, 0, comment_tag()) {
                assert(new_line.subrange(0, 8)[0] == comment_tag()[0]);
            }
        }
    } else {
        assert(!has_prefix_at(line, 0, dialogue_tag()));
        assert(new_line.subrange(0, 8) =~= comment_tag()) by {
            assert forall|t: int| 0 <= t < 8 implies new_line[t] == comment_tag()[t] by {
                assert(new_line[t] == new_line.subrange(0, h)[t]);
            }
        }
        assert(!has_prefix_at(new_line, 0, dialogue_tag())) by {
            assert(new_line[0] == new_line.subrange(0, h)[0]);
            if has_prefix_at(new_line, 0, dialogue_tag()) {
                assert(new_line.subrange(0, 9)[0] == dialogue_tag()[0]);
            }
        }
    }
    assert(tag_length(new_line) == h - 1);
    assert(new_line[h - 1] == new_line.subrange(0, h)[h - 1]);
    assert(new_line[h] == line[h - h + start]);
    assert(skip_spaces(new_line, h) == h);
}

/// Where the commas of an event line written anew with a changed effect lie: the first
/// eight moved with the fields before the effect, the last right after the new effect.
pub open spec fn moved_commas(line: Seq<u8>, operation: EffectOperation, effect: Seq<u8>) -> Seq<int> {
    let commas = event_commas(line).unwrap();
    let start = fields_start(line);
    let h = tag_length(line) + 1;
    let updated = updated_effect(operation, line.subrange(commas[7] + 1, commas[8]), effect);
    Seq::new(
        9,
        |k: int|
            if k < 8 {
                commas[k] - start + h
            } else {
                h + commas[7] + 1 - start + updated.len()
            },
    )
}

/// The commas of an event line written anew with a changed effect that holds no comma
/// are those of [`moved_commas`].
#[verifier::spinoff_prover]
proof fn lemma_effect_line_commas(line: Seq<u8>, operation: EffectOperation, effect: Seq<u8>)
    requires
        has_prefix_at(line, 0, dialogue_tag()) || has_prefix_at(line, 0, comment_tag()),
        event_commas(line) is Some,
        comma_free(effect, 0, effect.len() as int),
    ensures
        event_commas(effect_line(line, operation, effect).unwrap()) == Some(
            moved_commas(line, operation, effect),
        ),
{
    let commas = event_commas(line).unwrap();
    let start = fields_start(line);
    let h = tag_length(line) + 1;
    let kept = commas[7] + 1 - start;
    let current = line.subrange(commas[7] + 1, commas[8]);
    let updated = updated_effect(operation, current, effect);
    let new_line = effect_line(line, operation, effect).unwrap();
    let u = updated.len() as int;
    let found = moved_commas(line, operation, effect);
    lemma_effect_line_parts(line, operation, effect);
    lemma_effect_line_tag(line, operation, effect);
    lemma_field_commas(line, start, 9);
    lemma_field_commas_gaps(line, start, 9);
    assert(commas[0] < commas[1] && commas[1] < commas[2] && commas[2] < commas[3] && commas[3]
        < commas[4] && commas[4] < commas[5] && commas[5] < commas[6] && commas[6] < commas[7]);
    assert(comma_free(updated, 0, u)) by {
        assert(gap_free(line, commas, 7));
        assert forall|t: int| 0 <= t < u implies updated[t] != COMMA by {
            match operation {
                EffectOperation::Replace => {},
                EffectOperation::Clear => {},
                EffectOperation::Append => {
                    if current.len() > 0 {
                        let joined = current + seq![SPACE] + effect;
                        if t < current.len() {
                            assert(joined[t] == current[t]);
                        } else if t == current.len() {
                            assert(joined[t] == SPACE);
                        } else {
                            assert(joined[t] == effect[t - current.len() - 1]);
                        }
                    }
                },
                EffectOperation::Prepend => {
                    if current.len() > 0 {
                        let joined = effect + seq![SPACE] + current;
                        if t < effect.len() {
                            assert(joined[t] == effect[t]);
                        } else if t == effect.len() {
                            assert(joined[t] == SPACE);
                        } else {
                            assert(joined[t] == current[t - effect.len() - 1]);
                        }
                    }
                },
            }
        }
    }
    assert forall|k: int| 0 <= k < found.len() implies h <= #[trigger] found[k] < new_line.len()
        && new_line[found[k]] == COMMA by {
        if k < 8 {
            assert(start <= commas[k] <= commas[7]);
            assert(new_line[found[k]] == line[found[k] - h + start]);
        } else {
            assert(new_line[found[k]] == line[found[k] - (h + kept + u) + commas[8]]);
        }
    }
    assert forall|k: int| 0 <= k < found.len() - 1 implies #[trigger] found[k] < found[k + 1] by {
        if k < 7 {
            assert(commas[k] < commas[k + 1]);
        }
    }
    assert(comma_free(new_line, h, found[0])) by {
        assert forall|t: int| h <= t < found[0] implies new_line[t] != COMMA by {
            assert(new_line[t] == line[t - h + start]);
        }
    }
    assert forall|k: int| 0 <= k < found.len() - 1 implies #[trigger] gap_free(new_line, found, k) by {
        if k < 7 {
            assert(gap_free(line, commas, k));
            assert(start <= commas[k + 1] <= commas[7]);
            assert forall|t: int| found[k] + 1 <= t < found[k + 1] implies new_line[t] != COMMA by {
                assert(new_line[t] == line[t - h + start]);
            }
        } else {
            assert forall|t: int| found[k] + 1 <= t < found[k + 1] implies new_line[t] != COMMA by {
                assert(new_line.subrange(h + kept, h + kept + u)[t - h - kept] == new_line[t]);
            }
        }
    }
    lemma_commas_found(new_line, h, found);
}

/// An event line written anew with a changed effect that holds no comma reads back as
/// the same type of event, with the changed effect as its effect field and every other
/// field as it was.
pub proof fn lemma_effect_line_reads_back(line: Seq<u8>, operation: EffectOperation, effect: Seq<u8>)
    requires
        has_prefix_at(line, 0, dialogue_tag()) || has_prefix_at(line, 0, comment_tag()),
        event_commas(line) is Some,
        comma_free(effect, 0, effect.len() as int),
    ensures
        ({
            let new_line = effect_line(line, operation, effect).unwrap();
            let fields = event_fields(line).unwrap();
            &&& has_prefix_at(new_line, 0, dialogue_tag()) == has_prefix_at(line, 0, dialogue_tag())
            &&& has_prefix_at(new_line, 0, comment_tag()) == has_prefix_at(line, 0, comment_tag())
            &&& event_fields(new_line) == Some(
                fields.update(8, updated_effect(operation, fields[8], effect)),
            )
        }),
{
    let commas = event_commas(line).unwrap();
    let start = fields_start(line);
    let h = tag_length(line) + 1;
    let kept = commas[7] + 1 - start;
    let current = line.subrange(commas[7] + 1, commas[8]);
    let updated = updated_effect(operation, current, effect);
    let new_line = effect_line(line, operation, effect).unwrap();
    let u = updated.len() as int;
    let found = moved_commas(line, operation, effect);
    lemma_effect_line_parts(line, operation, effect);
    lemma_effect_line_tag(line, operation, effect);
    lemma_effect_line_commas(line, operation, effect);
    lemma_field_commas(line, start, 9);
    assert(commas[0] < commas[1] && commas[1] < commas[2] && commas[2] < commas[3] && commas[3]
        < commas[4] && commas[4] < commas[5] && commas[5] < commas[6] && commas[6] < commas[7]);
    let fields = event_fields(line).unwrap();
    assert(fields[8] == current);
    assert forall|k: int| 0 <= k < 10 implies #[trigger] field_text(new_line, found, k) == fields.update(
        8,
        updated,
    )[k] by {
        if k < 8 {
            let b0 = field_begin(line, commas, k);
            assert(start <= b0 <= commas[k] <= commas[7]);
            assert(field_text(new_line, found, k) =~= field_text(line, commas, k)) by {
                assert forall|t: int| 0 <= t < commas[k] - b0 implies field_text(new_line, found, k)[t]
                    == field_text(line, commas, k)[t] by {
                    assert(new_line[b0 - start + h + t] == line[b0 - start + h + t - h + start]);
                }
            }
        } else if k == 8 {
            assert(field_text(new_line, found, k) =~= updated);
        } else {
            assert(field_text(new_line, found, k) =~= field_text(line, commas, k)) by {
                assert forall|t: int| 0 <= t < line.len() - commas[8] - 1 implies field_text(
                    new_line,
                    found,
                    k,
                )[t] == field_text(line, commas, k)[t] by {
                    let p = h + kept + u + 1 + t;
                    assert(new_line[p] == line[p - (h + kept + u) + commas[8]]);
                }
            }
        }
    }
    assert(Seq::new(10, |k: int| field_text(new_line, found, k)) =~= fields.update(8, updated));
}

/// Setting or clearing the effect of an event line that was just written anew the same
/// way, with an effect that holds no comma, writes the same line again.
pub proof fn lemma_effect_line_idempotent(line: Seq<u8>, operation: EffectOperation, effect: Seq<u8>)
    requires
        has_prefix_at(line, 0, dialogue_tag()) || has_prefix_at(line, 0, comment_tag()),
        event_commas(line) is Some,
        comma_free(effect, 0, effect.len() as int),
        operation == EffectOperation::Replace || operation == EffectOperation::Clear,
    ensures
        effect_line(effect_line(line, operation, effect).unwrap(), operation, effect) == Some(
            effect_line(line, operation, effect).unwrap(),
        ),
{
    let commas = event_commas(line).unwrap();
    let start = fields_start(line);
    let h = tag_length(line) + 1;
    let kept = commas[7] + 1 - start;
    let current = line.subrange(commas[7] + 1, commas[8]);
    let updated = updated_effect(operation, current, effect);
    let new_line = effect_line(line, operation, effect).unwrap();
    let u = updated.len() as int;
    let found = moved_commas(line, operation, effect);
    lemma_effect_line_parts(line, operation, effect);
    lemma_effect_line_tag(line, operation, effect);
    lemma_effect_line_commas(line, operation, effect);
    assert(event_type_name(new_line) == event_type_name(line));
    let kept_new = new_line.subrange(h, found[7] + 1);
    let kept_old = line.subrange(start, commas[7] + 1);
    assert(kept_new =~= kept_old) by {
        assert forall|t: int| 0 <= t < kept implies #[trigger] kept_new[t] == kept_old[t] by {
            assert(new_line[h + t] == line[h + t - h + start]);
        }
    }
    assert(updated_effect(operation, new_line.subrange(found[7] + 1, found[8]), effect) == updated);
    let tail_new = new_line.subrange(found[8], new_line.len() as int);
    let tail_old = line.subrange(commas[8], line.len() as int);
    assert(tail_new =~= tail_old) by {
        assert forall|t: int| 0 <= t < line.len() - commas[8] implies #[trigger] tail_new[t]
            == tail_old[t] by {
            let p = h + kept + u + t;
            assert(new_line[p] == line[p - (h + kept + u) + commas[8]]);
        }
    }
}

} // verus!
