//! Command to set, clear, append to or prepend to the effect field of events.
use crate::editor::commands::common::{
    byte_len, contains_index, count_message, counted_message, is_selected,
};
use crate::editor::commands::toggle::{changed_end, changed_range};
use crate::editor::document::{CommandResult, EditorDocument, EditorError, Position, Range};
use crate::editor::edits::{
    apply_edits, edit_anchored, edit_view, edits_anchored, edits_view, replace_spans, EditSpec,
    LineEdit,
};
use crate::editor::commands::effect_line::{
    free_of_line_feeds, lemma_effect_line_fits, lemma_effect_line_idempotent,
    lemma_effect_line_reads_back,
};
use crate::editor::fields::{
    comma_free, event_commas, event_fields, field_begin, fields_parsed, fields_start,
    lemma_field_commas, lemma_skip_spaces, parse_event_line, tag_length, EventFields, EventType,
    COMMA, SPACE,
};
use crate::editor::lines::{
    collect_event_lines, dialogue_tag, event_lines, is_event_line_at, lemma_event_lines_shape,
    lines_found, no_events_message, span_shaped, spans_of, spans_well_shaped, LineSpan,
};
use crate::editor::layout::{
    lemma_interleave, lemma_replace_keeps_gaps, lemma_well_shaped_in_order, line_gaps,
};
use crate::editor::rewrites::{lemma_replace_event_texts, replaced_texts, span_edits};
use crate::editor::texts::{
    event_texts, fits_event_line, lemma_event_texts_of_lines, lemma_span_text, span_texts,
};
use crate::text::{has_prefix_at, is_ascii_byte, lemma_encode_utf8_concat, lemma_str_bytes};
use vstd::prelude::*;
use vstd::string::*;
use vstd::utf8::*;

verus! {

/// How the effect field changes.
#[derive(Clone, Copy, Debug, PartialEq, Eq, Structural)]
pub enum EffectOperation {
    /// Replace the effect.
    Replace,
    /// Empty the effect.
    Clear,
    /// Add the effect after the current one, separated by a space.
    Append,
    /// Add the effect before the current one, separated by a space.
    Prepend,
}

/// Command to change the effect field of events
#[derive(Debug, Clone)]
pub struct EventEffectCommand {
    /// Indices of the events to change; empty means all events.
    pub event_indices: Vec<usize>,
    /// The effect text to set, append or prepend.
    pub effect: String,
    /// How the effect field changes.
    pub operation: EffectOperation,
    /// A description that replaces the default one.
    pub description: Option<String>,
}

/// The effect field after `operation` with `effect` on the field `current`.
pub open spec fn updated_effect(operation: EffectOperation, current: Seq<u8>, effect: Seq<u8>) -> Seq<
    u8,
> {
    match operation {
        EffectOperation::Replace => effect,
        EffectOperation::Clear => Seq::empty(),
        EffectOperation::Append => if current.len() == 0 {
            effect
        } else {
            current + seq![SPACE] + effect
        },
        EffectOperation::Prepend => if current.len() == 0 {
            effect
        } else {
            effect + seq![SPACE] + current
        },
    }
}

/// The name of the event type of the event line `line`.
pub open spec fn event_type_name(line: Seq<u8>) -> Seq<u8> {
    if has_prefix_at(line, 0, dialogue_tag()) {
        seq!['D' as u8, 'i' as u8, 'a' as u8, 'l' as u8, 'o' as u8, 'g' as u8, 'u' as u8, 'e' as u8]
    } else {
        seq!['C' as u8, 'o' as u8, 'm' as u8, 'm' as u8, 'e' as u8, 'n' as u8, 't' as u8]
    }
}

/// The event line `line` written anew with its effect field changed: its type name, a
/// colon and a space, its first eight fields and their commas as they were, the new
/// effect, then the comma and text as they were. None where `line` lacks fields.
pub open spec fn effect_line(line: Seq<u8>, operation: EffectOperation, effect: Seq<u8>) -> Option<
    Seq<u8>,
> {
    match event_commas(line) {
        None => None,
        Some(commas) => Some(
            event_type_name(line) + seq![':' as u8, SPACE] + line.subrange(
                fields_start(line),
                commas[7] + 1,
            ) + updated_effect(operation, line.subrange(commas[7] + 1, commas[8]), effect)
                + line.subrange(commas[8], line.len() as int),
        ),
    }
}

/// The replacements that change the effect of the selected ones among the event lines
/// `spans` of `b`, in order, passing over lines that lack fields.
pub open spec fn effect_edits(
    b: Seq<u8>,
    spans: Seq<LineSpan>,
    indices: Seq<usize>,
    operation: EffectOperation,
    effect: Seq<u8>,
) -> Seq<EditSpec>
    decreases spans.len(),
{
    if spans.len() == 0 {
        Seq::empty()
    } else {
        let earlier = effect_edits(b, spans.drop_last(), indices, operation, effect);
        let span = spans.last();
        let rewritten = effect_line(b.subrange(span.start, span.end), operation, effect);
        if is_selected(indices, span.index) && rewritten is Some {
            earlier.push(EditSpec { start: span.start, end: span.end, insert: rewritten.unwrap() })
        } else {
            earlier
        }
    }
}

/// The event texts after changing the effect of the selected ones among the event lines
/// `spans` of `b`: each selected event that has all its fields gets its line written anew
/// by [`effect_line`], every other event keeps its text.
pub open spec fn effected_texts(
    b: Seq<u8>,
    spans: Seq<LineSpan>,
    indices: Seq<usize>,
    operation: EffectOperation,
    effect: Seq<u8>,
) -> Seq<Seq<u8>> {
    Seq::new(
        spans.len(),
        |k: int|
            {
                let text = b.subrange(spans[k].start, spans[k].end);
                if is_selected(indices, k as nat) && effect_line(text, operation, effect) is Some {
                    effect_line(text, operation, effect).unwrap()
                } else {
                    text
                }
            },
    )
}

/// The edit that rewrites an event line of `b` where `indices` selects it and it has all
/// its fields.
pub open spec fn effect_pick(
    b: Seq<u8>,
    indices: Seq<usize>,
    operation: EffectOperation,
    effect: Seq<u8>,
) -> spec_fn(LineSpan) -> Option<EditSpec> {
    |span: LineSpan|
        {
            let rewritten = effect_line(b.subrange(span.start, span.end), operation, effect);
            if is_selected(indices, span.index) && rewritten is Some {
                Some(EditSpec { start: span.start, end: span.end, insert: rewritten.unwrap() })
            } else {
                None
            }
        }
}

/// The effect edits are those that [`effect_pick`] gives, line by line.
proof fn lemma_effect_edits_pick(
    b: Seq<u8>,
    spans: Seq<LineSpan>,
    indices: Seq<usize>,
    operation: EffectOperation,
    effect: Seq<u8>,
)
    ensures
        effect_edits(b, spans, indices, operation, effect) == span_edits(
            spans,
            effect_pick(b, indices, operation, effect),
        ),
    decreases spans.len(),
{
    if spans.len() > 0 {
        lemma_effect_edits_pick(b, spans.drop_last(), indices, operation, effect);
    }
}

/// Changing the effect of the selected events of a script, with an effect that holds no
/// line feed, rewrites the lines of the selected events that have all their fields and
/// leaves the texts of the others, their number, and every byte around the event texts
/// as they were.
pub proof fn lemma_effect_texts(
    b: Seq<u8>,
    indices: Seq<usize>,
    operation: EffectOperation,
    effect: Seq<u8>,
)
    requires
        event_lines(b) is Some,
        free_of_line_feeds(effect),
    ensures
        ({
            let spans = event_lines(b).unwrap();
            let after = apply_edits(b, effect_edits(b, spans, indices, operation, effect), 0);
            &&& event_texts(after) == Some(effected_texts(b, spans, indices, operation, effect))
            &&& event_lines(after) matches Some(moved) && line_gaps(after, moved) == line_gaps(
                b,
                spans,
            )
        }),
{
    let spans = event_lines(b).unwrap();
    let pick = effect_pick(b, indices, operation, effect);
    lemma_event_lines_shape(b);
    lemma_effect_edits_pick(b, spans, indices, operation, effect);
    assert forall|k: int| 0 <= k < spans.len() && (#[trigger] pick(spans[k])) is Some implies {
        let edit = pick(spans[k]).unwrap();
        &&& edit.start == spans[k].start
        &&& edit.end == spans[k].end
        &&& fits_event_line(edit.insert, b[spans[k].end - 1])
    } by {
        assert(span_shaped(b, spans[k], 0 + k, 0));
        lemma_span_text(b, spans[k], 0 + k, 0);
        lemma_effect_line_fits(b.subrange(spans[k].start, spans[k].end), operation, effect);
    }
    lemma_replace_event_texts(b, pick);
    lemma_replace_keeps_gaps(b, pick);
    assert forall|k: int| 0 <= k < spans.len() implies spans[k].index == k by {
        assert(span_shaped(b, spans[k], 0 + k, 0));
    }
    assert(replaced_texts(b, spans, pick, 0) =~= effected_texts(b, spans, indices, operation, effect));
}

/// Setting or clearing the effect of the same events twice, with an effect that holds no
/// comma and no line feed, leaves the script as doing it once did.
pub proof fn lemma_effect_twice_as_once(
    b: Seq<u8>,
    indices: Seq<usize>,
    operation: EffectOperation,
    effect: Seq<u8>,
)
    requires
        event_lines(b) is Some,
        free_of_line_feeds(effect),
        comma_free(effect, 0, effect.len() as int),
        operation == EffectOperation::Replace || operation == EffectOperation::Clear,
    ensures
        ({
            let once = apply_edits(
                b,
                effect_edits(b, event_lines(b).unwrap(), indices, operation, effect),
                0,
            );
            &&& event_lines(once) is Some
            &&& apply_edits(
                once,
                effect_edits(once, event_lines(once).unwrap(), indices, operation, effect),
                0,
            ) == once
        }),
{
    let spans = event_lines(b).unwrap();
    let once = apply_edits(b, effect_edits(b, spans, indices, operation, effect), 0);
    lemma_effect_texts(b, indices, operation, effect);
    let spans1 = event_lines(once).unwrap();
    let twice = apply_edits(once, effect_edits(once, spans1, indices, operation, effect), 0);
    lemma_effect_texts(once, indices, operation, effect);
    let spans2 = event_lines(twice).unwrap();
    lemma_event_texts_of_lines(b);
    lemma_event_texts_of_lines(once);
    lemma_event_texts_of_lines(twice);
    lemma_event_lines_shape(b);
    lemma_event_lines_shape(once);
    let texts1 = span_texts(once, spans1);
    assert(texts1 == effected_texts(b, spans, indices, operation, effect));
    assert(spans1.len() == spans.len()) by {
        assert(texts1.len() == spans1.len());
    }
    assert(effected_texts(once, spans1, indices, operation, effect) =~= texts1) by {
        assert forall|k: int| 0 <= k < spans1.len() implies #[trigger] effected_texts(
            once,
            spans1,
            indices,
            operation,
            effect,
        )[k] == texts1[k] by {
            let text1 = once.subrange(spans1[k].start, spans1[k].end);
            let text = b.subrange(spans[k].start, spans[k].end);
            assert(texts1[k] == text1);
            assert(effected_texts(b, spans, indices, operation, effect)[k] == text1);
            assert(span_shaped(b, spans[k], 0 + k, 0));
            lemma_span_text(b, spans[k], 0 + k, 0);
            if is_selected(indices, k as nat) && effect_line(text1, operation, effect) is Some {
                if effect_line(text, operation, effect) is Some {
                    lemma_effect_line_idempotent(text, operation, effect);
                }
            }
        }
    }
    lemma_event_lines_shape(twice);
    lemma_well_shaped_in_order(once, spans1);
    lemma_well_shaped_in_order(twice, spans2);
    lemma_interleave(once, spans1);
    lemma_interleave(twice, spans2);
}

/// After the effect of the selected events is changed with an effect that holds no comma
/// and no line feed, each selected event that had all its fields reads back with the same
/// type, the changed effect as its effect field and every other field as it was; every
/// other event keeps its text.
pub proof fn lemma_effect_reads_back(
    b: Seq<u8>,
    indices: Seq<usize>,
    operation: EffectOperation,
    effect: Seq<u8>,
)
    requires
        event_lines(b) is Some,
        free_of_line_feeds(effect),
        comma_free(effect, 0, effect.len() as int),
    ensures
        ({
            let spans = event_lines(b).unwrap();
            let after = apply_edits(b, effect_edits(b, spans, indices, operation, effect), 0);
            let before_texts = event_texts(b).unwrap();
            let after_texts = event_texts(after).unwrap();
            &&& event_texts(b) is Some
            &&& event_texts(after) is Some
            &&& after_texts.len() == before_texts.len()
            &&& forall|k: int|
                0 <= k < before_texts.len() ==> {
                    let fields = event_fields(before_texts[k]);
                    if is_selected(indices, k as nat) && fields is Some {
                        &&& has_prefix_at(#[trigger] after_texts[k], 0, dialogue_tag())
                            == has_prefix_at(before_texts[k], 0, dialogue_tag())
                        &&& event_fields(after_texts[k]) == Some(
                            fields.unwrap().update(
                                8,
                                updated_effect(operation, fields.unwrap()[8], effect),
                            ),
                        )
                    } else {
                        after_texts[k] == before_texts[k]
                    }
                }
        }),
{
    let spans = event_lines(b).unwrap();
    lemma_effect_texts(b, indices, operation, effect);
    lemma_event_texts_of_lines(b);
    lemma_event_lines_shape(b);
    let before_texts = event_texts(b).unwrap();
    let after_texts = effected_texts(b, spans, indices, operation, effect);
    assert forall|k: int| 0 <= k < before_texts.len() implies {
        let fields = event_fields(before_texts[k]);
        if is_selected(indices, k as nat) && fields is Some {
            &&& has_prefix_at(#[trigger] after_texts[k], 0, dialogue_tag()) == has_prefix_at(
                before_texts[k],
                0,
                dialogue_tag(),
            )
            &&& event_fields(after_texts[k]) == Some(
                fields.unwrap().update(8, updated_effect(operation, fields.unwrap()[8], effect)),
            )
        } else {
            after_texts[k] == before_texts[k]
        }
    } by {
        let text = b.subrange(spans[k].start, spans[k].end);
        assert(before_texts[k] == text);
        assert(span_shaped(b, spans[k], 0 + k, 0));
        lemma_span_text(b, spans[k], 0 + k, 0);
        if is_selected(indices, k as nat) && event_fields(text) is Some {
            lemma_effect_line_reads_back(text, operation, effect);
        }
    }
}

/// Clearing does not look at the effect text: the edits are those of clearing with an
/// empty one.
proof fn lemma_clear_ignores_effect(
    b: Seq<u8>,
    spans: Seq<LineSpan>,
    indices: Seq<usize>,
    effect: Seq<u8>,
)
    ensures
        effect_edits(b, spans, indices, EffectOperation::Clear, effect) == effect_edits(
            b,
            spans,
            indices,
            EffectOperation::Clear,
            Seq::empty(),
        ),
    decreases spans.len(),
{
    if spans.len() > 0 {
        lemma_clear_ignores_effect(b, spans.drop_last(), indices, effect);
        let span = spans.last();
        let text = b.subrange(span.start, span.end);
        assert(effect_line(text, EffectOperation::Clear, effect) == effect_line(
            text,
            EffectOperation::Clear,
            Seq::empty(),
        ));
    }
}

/// Event by event, `after_doc` holds what the effect command leaves of `before_doc`: event
/// `k` is changed exactly when the index list is empty or lists `k` and the event has all
/// its fields; it keeps its type and every other field, and its effect becomes the given
/// effect (setting), empty (clearing), the old effect, a space and the given one
/// (appending), or the given one, a space and the old one (prepending), where an empty old
/// effect is replaced outright. Every other event keeps its text.
pub open spec fn effect_fields_follow(
    before_doc: Seq<u8>,
    after_doc: Seq<u8>,
    indices: Seq<usize>,
    operation: EffectOperation,
    effect: Seq<u8>,
) -> bool {
    let before = event_texts(before_doc).unwrap();
    let after = event_texts(after_doc).unwrap();
    &&& event_texts(before_doc) is Some
    &&& event_texts(after_doc) is Some
    &&& after.len() == before.len()
    &&& forall|k: int|
        0 <= k < before.len() ==> if (indices.len() == 0 || indices.contains(k as usize))
            && event_fields(before[k]) is Some {
            let old_fields = event_fields(before[k]).unwrap();
            let old_effect = old_fields[8];
            &&& has_prefix_at(#[trigger] after[k], 0, dialogue_tag()) == has_prefix_at(
                before[k],
                0,
                dialogue_tag(),
            )
            &&& event_fields(after[k]) == Some(
                old_fields.update(
                    8,
                    match operation {
                        EffectOperation::Replace => effect,
                        EffectOperation::Clear => Seq::empty(),
                        EffectOperation::Append => if old_effect.len() == 0 {
                            effect
                        } else {
                            old_effect + seq![0x20u8] + effect
                        },
                        EffectOperation::Prepend => if old_effect.len() == 0 {
                            effect
                        } else {
                            effect + seq![0x20u8] + old_effect
                        },
                    },
                ),
            )
        } else {
            after[k] == before[k]
        }
}

/// What the effect command leaves in each event's effect field. Event `k` is changed
/// exactly when the index list is empty or lists `k` and the event has all its fields:
/// it keeps its type and every other field, and its effect becomes the given effect
/// (setting), empty (clearing, whatever effect text the command holds), the old effect, a
/// space and the given one (appending), or the given one, a space and the old one
/// (prepending), where an empty old effect is replaced outright. Every other event keeps
/// its text. The given effect holds no comma and no line feed, except when clearing.
pub proof fn lemma_effect_field_after(
    b: Seq<u8>,
    indices: Seq<usize>,
    operation: EffectOperation,
    effect: Seq<u8>,
)
    requires
        event_lines(b) is Some,
        operation == EffectOperation::Clear || (free_of_line_feeds(effect) && comma_free(
            effect,
            0,
            effect.len() as int,
        )),
    ensures
        effect_fields_follow(
            b,
            apply_edits(b, effect_edits(b, event_lines(b).unwrap(), indices, operation, effect), 0),
            indices,
            operation,
            effect,
        ),
{
    let spans = event_lines(b).unwrap();
    let used = if operation == EffectOperation::Clear {
        Seq::<u8>::empty()
    } else {
        effect
    };
    if operation == EffectOperation::Clear {
        lemma_clear_ignores_effect(b, spans, indices, effect);
    }
    assert(effect_edits(b, spans, indices, operation, effect) == effect_edits(
        b,
        spans,
        indices,
        operation,
        used,
    ));
    lemma_effect_reads_back(b, indices, operation, used);
}

/// What the result message says was done.
pub open spec fn operation_name(operation: EffectOperation) -> Seq<char> {
    match operation {
        EffectOperation::Replace => "set"@,
        EffectOperation::Clear => "cleared"@,
        EffectOperation::Append => "appended"@,
        EffectOperation::Prepend => "prepended"@,
    }
}

/// A `str`'s bytes are empty exactly when it has no characters.
proof fn lemma_empty_bytes(s: &str)
    ensures
        (s@.len() == 0) == (s.spec_bytes().len() == 0),
{
    if s@.len() > 0 {
        encode_utf8_first_scalar(s@);
    } else {
        assert(s@ =~= Seq::<char>::empty());
    }
}

/// The bytes of an ASCII literal.
proof fn lemma_ascii_literal(s: &str, bytes: Seq<u8>)
    requires
        is_ascii(s),
        s@.len() == bytes.len(),
        forall|i: int| 0 <= i < bytes.len() ==> s@[i] as u8 == bytes[i],
    ensures
        s.spec_bytes() == bytes,
{
    is_ascii_spec_bytes(s);
    assert(s.spec_bytes() =~= bytes);
}

/// A field, then its comma, continue the bytes before them.
proof fn lemma_field_then_comma(line: Seq<u8>, from: int, begin: int, comma: int)
    requires
        0 <= from <= begin <= comma < line.len(),
        line[comma] == COMMA,
    ensures
        line.subrange(from, begin) + line.subrange(begin, comma) + seq![COMMA] == line.subrange(
            from,
            comma + 1,
        ),
{
    assert(line.subrange(from, begin) + line.subrange(begin, comma) + seq![COMMA] =~= line.subrange(
        from,
        comma + 1,
    ));
}

/// The event line written anew from its fields with `new_effect` as its effect.
#[verifier::spinoff_prover]
fn rewrite_event_line(
    fields: &EventFields,
    new_effect: &str,
    Ghost(line): Ghost<Seq<u8>>,
    Ghost(commas): Ghost<Seq<int>>,
) -> (new_line: String)
    requires
        is_event_line_at(line, 0),
        event_commas(line) == Some(commas),
        fields_parsed(line, commas, *fields),
    ensures
        encode_utf8(new_line@) == event_type_name(line) + seq![':' as u8, SPACE] + line.subrange(
            fields_start(line),
            commas[7] + 1,
        ) + new_effect.spec_bytes() + line.subrange(commas[8], line.len() as int),
{
    let ghost p0 = fields_start(line);
    proof {
        lemma_field_commas(line, p0, 9);
        lemma_skip_spaces(line, tag_length(line));
        assert(p0 <= commas[0]);
        assert(0 <= p0);
    }
    let name = match fields.event_type {
        EventType::Dialogue => "Dialogue",
        EventType::Comment => "Comment",
    };
    let separator = ": ";
    let comma = ",";
    proof {
        reveal_strlit("Dialogue");
        reveal_strlit("Comment");
        reveal_strlit(": ");
        reveal_strlit(",");
        lemma_ascii_literal(name, event_type_name(line));
        lemma_ascii_literal(separator, seq![':' as u8, SPACE]);
        lemma_ascii_literal(comma, seq![COMMA]);
    }
    let ghost header = event_type_name(line) + seq![':' as u8, SPACE];
    let mut new_line = name.to_owned();
    new_line.append(separator);
    proof {
        lemma_encode_utf8_concat(name@, separator@);
        assert(line.subrange(p0, p0) =~= Seq::<u8>::empty());
        assert(header + line.subrange(p0, p0) =~= header);
    }
    let mut f: usize = 0;
    while f < 8
        invariant
            0 <= f <= 8,
            fields.fields@.len() == 10,
            fields_parsed(line, commas, *fields),
            commas.len() == 9,
            forall|k: int| 0 <= k < 9 ==> p0 <= #[trigger] commas[k] < line.len() && line[commas[k]] == COMMA,
            forall|k: int| 0 <= k < 8 ==> #[trigger] commas[k] < commas[k + 1],
            p0 == fields_start(line),
            0 <= p0 <= commas[0],
            comma.spec_bytes() == seq![COMMA],
            comma@ == ","@,
            encode_utf8(new_line@) == header + line.subrange(p0, field_begin(line, commas, f as int)),
        decreases 8 - f,
    {
        let field = fields.fields[f];
        let ghost before = new_line@;
        new_line.append(field);
        new_line.append(comma);
        proof {
            let begin = field_begin(line, commas, f as int);
            let c = commas[f as int];
            assert(field.spec_bytes() == line.subrange(begin, c));
            assert(p0 <= c < line.len() && line[c] == COMMA);
            if f > 0 {
                assert(commas[f - 1] < commas[f as int]);
            }
            lemma_encode_utf8_concat(before, field@);
            lemma_encode_utf8_concat(before + field@, comma@);
            assert(new_line@ == before + field@ + comma@);
            lemma_field_then_comma(line, p0, begin, c);
            assert(field_begin(line, commas, f + 1) == c + 1);
            assert(encode_utf8(new_line@) =~= header + line.subrange(p0, begin) + field.spec_bytes()
                + seq![COMMA]);
        }
        f = f + 1;
    }
    let text = fields.fields[9];
    let ghost before = new_line@;
    new_line.append(new_effect);
    new_line.append(comma);
    new_line.append(text);
    proof {
        lemma_encode_utf8_concat(before, new_effect@);
        lemma_encode_utf8_concat(before + new_effect@, comma@);
        lemma_encode_utf8_concat(before + new_effect@ + comma@, text@);
        assert(new_line@ == before + new_effect@ + comma@ + text@);
        assert(text.spec_bytes() == line.subrange(commas[8] + 1, line.len() as int));
        assert(seq![COMMA] + line.subrange(commas[8] + 1, line.len() as int) =~= line.subrange(
            commas[8],
            line.len() as int,
        ));
        assert(encode_utf8(new_line@) =~= header + line.subrange(p0, commas[7] + 1)
            + new_effect.spec_bytes() + line.subrange(commas[8], line.len() as int));
    }
    new_line
}

impl EventEffectCommand {
    /// Create a new command that applies `operation` with `effect` to the listed events
    /// (all events when the list is empty).
    pub fn new(event_indices: Vec<usize>, effect: String, operation: EffectOperation) -> (command:
        Self)
        ensures
            command.event_indices == event_indices,
            command.effect == effect,
            command.operation == operation,
            command.description is None,
    {
        Self { event_indices, effect, operation, description: None }
    }

    /// The new effect field for an event whose effect field is `current`.
    fn new_effect(&self, current: &str) -> (effect: String)
        ensures
            encode_utf8(effect@) == updated_effect(
                self.operation,
                current.spec_bytes(),
                encode_utf8(self.effect@),
            ),
            effect@ == match self.operation {
                EffectOperation::Replace => self.effect@,
                EffectOperation::Clear => Seq::empty(),
                EffectOperation::Append => if current@.len() == 0 {
                    self.effect@
                } else {
                    current@ + seq![' '] + self.effect@
                },
                EffectOperation::Prepend => if current@.len() == 0 {
                    self.effect@
                } else {
                    self.effect@ + seq![' '] + current@
                },
            },
    {
        let space = " ";
        proof {
            reveal_strlit(" ");
            lemma_ascii_literal(space, seq![SPACE]);
            lemma_empty_bytes(current);
            assert(space@ =~= seq![' ']);
        }
        match self.operation {
            EffectOperation::Replace => self.effect.clone(),
            EffectOperation::Clear => {
                let cleared = String::new();
                proof {
                    assert(encode_utf8(cleared@) =~= Seq::<u8>::empty());
                }
                cleared
            },
            EffectOperation::Append => {
                if current.is_empty() {
                    self.effect.clone()
                } else {
                    let mut joined = current.to_owned();
                    joined.append(space);
                    joined.append(self.effect.as_str());
                    proof {
                        lemma_encode_utf8_concat(current@, space@);
                        lemma_encode_utf8_concat(current@ + space@, self.effect@);
                        assert(joined@ == current@ + space@ + self.effect@);
                    }
                    joined
                }
            },
            EffectOperation::Prepend => {
                if current.is_empty() {
                    self.effect.clone()
                } else {
                    let mut joined = self.effect.clone();
                    joined.append(space);
                    joined.append(current);
                    proof {
                        lemma_encode_utf8_concat(self.effect@, space@);
                        lemma_encode_utf8_concat(self.effect@ + space@, current@);
                        assert(joined@ == self.effect@ + space@ + current@);
                    }
                    joined
                }
            },
        }
    }

    /// Writes the selected event lines of the `[Events]` section anew with their effect
    /// field changed, all in one change; event lines that lack fields are passed over.
    ///
    /// Fails, leaving the document as it was, where the script has no events section.
    /// Otherwise, where the effect holds no line feed, the rewritten lines are the texts
    /// of the events they replace and every other event keeps its text; and the result
    /// reports the changed range, from the first rewritten line to
    /// the furthest end of a rewritten line measured at its old start, puts the cursor at
    /// the end of the document, and says what was done to how many events.
    pub fn execute(&self, document: &mut EditorDocument) -> (result: Result<
        CommandResult,
        EditorError,
    >)
        requires
            old(document)@.len() + encode_utf8(self.effect@).len() + 2 <= usize::MAX,
        ensures
            match event_lines(old(document)@) {
                None => {
                    &&& result matches Err(EditorError::CommandFailed { message })
                    &&& message@ == no_events_message()
                    &&& final(document)@ == old(document)@
                },
                Some(spans) => {
                    let edits = effect_edits(
                        old(document)@,
                        spans,
                        self.event_indices@,
                        self.operation,
                        encode_utf8(self.effect@),
                    );
                    &&& final(document)@ == apply_edits(old(document)@, edits, 0)
                    &&& self.operation == EffectOperation::Clear || (free_of_line_feeds(
                        encode_utf8(self.effect@),
                    ) && comma_free(
                        encode_utf8(self.effect@),
                        0,
                        encode_utf8(self.effect@).len() as int,
                    )) ==> effect_fields_follow(
                        old(document)@,
                        final(document)@,
                        self.event_indices@,
                        self.operation,
                        encode_utf8(self.effect@),
                    )
                    &&& free_of_line_feeds(encode_utf8(self.effect@)) ==> event_texts(
                        final(document)@,
                    ) == Some(
                        effected_texts(
                            old(document)@,
                            spans,
                            self.event_indices@,
                            self.operation,
                            encode_utf8(self.effect@),
                        ),
                    )
                    &&& result matches Ok(outcome)
                    &&& outcome.success
                    &&& if edits.len() > 0 {
                        &&& outcome.content_changed
                        &&& outcome.modified_range == Some(changed_range(edits))
                        &&& outcome.new_cursor == Some(
                            Position { offset: final(document)@.len() as usize },
                        )
                        &&& outcome.message matches Some(message) && counted_message(
                            message@,
                            "Effect "@ + operation_name(self.operation) + " for "@,
                            edits.len() as usize,
                            " events"@,
                        )
                    } else {
                        &&& !outcome.content_changed
                        &&& outcome.modified_range is None
                        &&& outcome.new_cursor is None
                        &&& outcome.message matches Some(message) && message@
                            == "No events were modified"@
                    }
                },
            },
    {
        let content = document.text();
        let text = content.as_str();
        let ghost b = document@;
        let ghost spans = event_lines(b).unwrap();
        let ghost indices = self.event_indices@;
        let ghost effect = encode_utf8(self.effect@);
        let effect_len = byte_len(self.effect.as_str());
        proof {
            lemma_str_bytes(text);
            lemma_event_lines_shape(b);
        }
        let event_lines = collect_event_lines(text)?;
        proof {
            assert(spans_of(event_lines@).len() == event_lines@.len());
        }
        let mut replacements: Vec<LineEdit> = Vec::new();
        let mut total_range: Option<Range> = None;
        let mut k: usize = 0;
        while k < event_lines.len()
            invariant
                0 <= k <= event_lines@.len(),
                spans.len() == event_lines@.len(),
                b == text.spec_bytes(),
                b.len() + effect.len() + 2 <= usize::MAX,
                effect == encode_utf8(self.effect@),
                indices == self.event_indices@,
                lines_found(event_lines@, spans, b),
                spans_well_shaped(b, spans, 0, 0),
                edits_view(replacements@) == effect_edits(
                    b,
                    spans.take(k as int),
                    indices,
                    self.operation,
                    effect,
                ),
                edits_anchored(b, edits_view(replacements@)),
                replacements@.len() > 0 && k < spans.len() ==> replacements@.last().end
                    < spans[k as int].start,
                replacements@.len() == 0 ==> total_range is None,
                replacements@.len() > 0 ==> total_range == Some(
                    changed_range(edits_view(replacements@)),
                ),
                replacements@.len() > 0 ==> replacements@[0].start <= replacements@.last().start,
                replacements@.len() > 0 ==> 0 <= changed_end(edits_view(replacements@))
                    <= usize::MAX,
            decreases event_lines@.len() - k,
        {
            let event_line = &event_lines[k];
            let ghost span = spans[k as int];
            let ghost line = b.subrange(span.start, span.end);
            let ghost before = edits_view(replacements@);
            proof {
                assert(span_shaped(b, span, 0 + k, 0));
                assert(event_line.span() == span);
                assert(spans.take(k + 1).drop_last() =~= spans.take(k as int));
                assert(spans.take(k + 1).last() == span);
                assert(event_line.line.spec_bytes() == line);
                if k + 1 < spans.len() {
                    assert(span_shaped(b, spans[k + 1], 0 + (k + 1), 0));
                    assert(span.end_with_newline <= spans[k + 1].start);
                }
                if has_prefix_at(b, span.start, dialogue_tag()) {
                    assert(line.subrange(0, 9) =~= b.subrange(span.start, span.start + 9));
                } else {
                    assert(line.subrange(0, 8) =~= b.subrange(
                        span.start,
                        span.start + 8,
                    ));
                }
                assert(is_event_line_at(line, 0));
            }
            let should_modify = self.event_indices.len() == 0 || contains_index(
                &self.event_indices,
                event_line.index,
            );
            if should_modify {
                if let Some(event) = parse_event_line(event_line.line) {
                    let ghost commas = event_commas(line).unwrap();
                    proof {
                        lemma_field_commas(line, fields_start(line), 9);
                        lemma_skip_spaces(line, tag_length(line));
                        assert(event.fields@[8].spec_bytes() == line.subrange(
                            commas[7] + 1,
                            commas[8],
                        ));
                    }
                    let new_effect = self.new_effect(event.fields[8]);
                    let new_line = rewrite_event_line(
                        &event,
                        new_effect.as_str(),
                        Ghost(line),
                        Ghost(commas),
                    );
                    let new_len = byte_len(new_line.as_str());
                    let ghost here = event_line.start + new_len;
                    proof {
                        assert(new_len == effect_line(line, self.operation, effect).unwrap().len());
                        assert(tag_length(line) <= fields_start(line));
                        assert(new_len <= line.len() + effect.len() + 2);
                    }
                    let change_range = Range::new(
                        Position::new(event_line.start),
                        Position::new(event_line.start + new_len),
                    );
                    total_range =
                        Some(
                        match total_range {
                            Some(existing) => existing.union(&change_range),
                            None => change_range,
                        },
                    );
                    let edit = LineEdit {
                        start: event_line.start,
                        end: event_line.end,
                        text: new_line,
                    };
                    let ghost old_replacements = replacements@;
                    replacements.push(edit);
                    proof {
                        let new_edit = EditSpec {
                            start: span.start,
                            end: span.end,
                            insert: effect_line(line, self.operation, effect).unwrap(),
                        };
                        let after = edits_view(replacements@);
                        assert(after =~= before.push(new_edit));
                        assert(edit_anchored(b, new_edit));
                        assert forall|j: int| 0 <= j < after.len() implies #[trigger] edit_anchored(
                            b,
                            after[j],
                        ) by {
                            if j < before.len() {
                                assert(after[j] == before[j]);
                            }
                        }
                        assert forall|j: int| 0 <= j < after.len() - 1 implies {
                            &&& #[trigger] after[j].end <= after[j + 1].start
                            &&& after[j].end == after[j + 1].start ==> 0 < after[j].end
                                && is_ascii_byte(b[after[j].end - 1])
                        } by {
                            assert(after[j] == before[j]);
                            if j + 1 < before.len() {
                                assert(after[j + 1] == before[j + 1]);
                            }
                        }
                        assert(after.drop_last() =~= before);
                        assert(after.last() == new_edit);
                        assert(replacements@.last().start == span.start);
                        if before.len() == 0 {
                            assert(replacements@.len() == 1);
                            assert(replacements@[0] == replacements@.last());
                        } else {
                            assert(replacements@[0] == old_replacements[0]);
                            assert(before.last() == edit_view(old_replacements.last()));
                            assert(old_replacements[0].start <= old_replacements.last().start);
                            assert(edit_anchored(b, before[before.len() - 1]));
                            assert(old_replacements.last().start <= old_replacements.last().end);
                            assert(before[0] == after[0]);
                        }
                        assert(changed_end(after) == if after.len() == 1 || here > changed_end(
                            before,
                        ) {
                            here
                        } else {
                            changed_end(before)
                        });
                    }
                }
            }
            k = k + 1;
        }
        proof {
            assert(spans.take(k as int) =~= spans);
        }
        replace_spans(document, &replacements)?;
        proof {
            if free_of_line_feeds(effect) {
                lemma_effect_texts(b, indices, self.operation, effect);
            }
            if self.operation == EffectOperation::Clear || (free_of_line_feeds(effect)
                && comma_free(effect, 0, effect.len() as int)) {
                lemma_effect_field_after(b, indices, self.operation, effect);
            }
        }
        let changes_made = replacements.len();
        if changes_made > 0 {
            let operation_name = match self.operation {
                EffectOperation::Replace => "set",
                EffectOperation::Clear => "cleared",
                EffectOperation::Append => "appended",
                EffectOperation::Prepend => "prepended",
            };
            let mut prefix = "Effect ".to_owned();
            prefix.append(operation_name);
            prefix.append(" for ");
            let message = count_message(prefix.as_str(), changes_made, " events");
            let range = match total_range {
                Some(range) => range,
                None => Range::new(Position::new(0), Position::new(0)),
            };
            Ok(
                CommandResult::success_with_change(
                    range,
                    Position::new(document.len_bytes()),
                ).with_message(message),
            )
        } else {
            let message = "No events were modified".to_owned();
            Ok(CommandResult::success().with_message(message))
        }
    }

    /// What the command does, for the user.
    pub fn description(&self) -> (text: &str)
        ensures
            text@ == match self.description {
                Some(description) => description@,
                None => "Modify event effect"@,
            },
    {
        match &self.description {
            Some(description) => description.as_str(),
            None => "Modify event effect",
        }
    }

    /// An estimate of the memory the command holds, in bytes.
    pub fn memory_usage(&self) -> (bytes: usize)
        requires
            core::mem::size_of::<Self>() + self.event_indices@.len() * core::mem::size_of::<usize>()
                + encode_utf8(self.effect@).len() + match self.description {
                Some(description) => encode_utf8(description@).len(),
                None => 0,
            } <= usize::MAX,
        ensures
            bytes == core::mem::size_of::<Self>() + self.event_indices@.len()
                * core::mem::size_of::<usize>() + encode_utf8(self.effect@).len()
                + match self.description {
                Some(description) => encode_utf8(description@).len(),
                None => 0,
            },
    {
        let description_len = match &self.description {
            Some(description) => byte_len(description.as_str()),
            None => 0,
        };
        core::mem::size_of::<Self>() + self.event_indices.len() * core::mem::size_of::<usize>()
            + byte_len(self.effect.as_str()) + description_len
    }
}

} // verus!
