//! UTF-8-safe recovery that leaves a following tag's backslash unconsumed.
use crate::text::{char_len_utf8, lemma_encode_utf8_take_step, lemma_encoded_prefix_is_boundary, str_slice, utf8_len};
use vstd::prelude::*;
use vstd::string::*;
use vstd::utf8::*;

verus! {

/// What a diagnostic reports.
#[derive(Clone, Copy, Debug, PartialEq, Eq, Structural)]
pub enum DiagnosticKind {
    /// A backslash that introduces no tag name.
    EmptyOverride,
}

/// A problem found in an override block, with the text it covers.
#[derive(Debug)]
pub struct TagDiagnostic<'a> {
    /// The bytes of the block that the problem covers.
    pub span: &'a str,
    /// Byte offset of the span in the event text.
    pub offset: usize,
    /// What the problem is.
    pub kind: DiagnosticKind,
}

/// Bytes that recovery steps over at character `char_pos`: the whole UTF-8 encoding of
/// that character, unless there is none or it is a backslash.
pub open spec fn recovery_skip(chars: Seq<char>, char_pos: int) -> nat {
    if 0 <= char_pos < chars.len() && chars[char_pos] != '\\' {
        utf8_len(chars[char_pos])
    } else {
        0
    }
}

/// Records an empty item and advances only over a complete non-backslash character.
///
/// `chars` are the characters of the block and the two cursors point at the same place
/// in it, one counting bytes of `content`, the other characters.
pub fn empty_override<'a>(
    content: &'a str,
    start_pos: usize,
    tag_start: usize,
    byte_pos: &mut usize,
    char_pos: &mut usize,
    chars: &[char],
) -> (diagnostic: TagDiagnostic<'a>)
    requires
        tag_start <= *old(byte_pos) + recovery_skip(chars@, *old(char_pos) as int)
            <= content.spec_bytes().len(),
        is_char_boundary(content.spec_bytes(), tag_start as int),
        is_char_boundary(
            content.spec_bytes(),
            *old(byte_pos) + recovery_skip(chars@, *old(char_pos) as int),
        ),
        start_pos + tag_start <= usize::MAX,
    ensures
        *final(byte_pos) == *old(byte_pos) + recovery_skip(chars@, *old(char_pos) as int),
        *final(char_pos) == *old(char_pos) + if recovery_skip(chars@, *old(char_pos) as int) > 0 {
            1int
        } else {
            0int
        },
        diagnostic.span.spec_bytes() == content.spec_bytes().subrange(
            tag_start as int,
            *final(byte_pos) as int,
        ),
        diagnostic.offset == start_pos + tag_start,
        diagnostic.kind == DiagnosticKind::EmptyOverride,
        *old(char_pos) < chars@.len() && chars@[*old(char_pos) as int] != '\\' ==> {
            &&& *final(byte_pos) == *old(byte_pos) + encode_scalar(
                chars@[*old(char_pos) as int] as u32,
            ).len()
            &&& *final(char_pos) == *old(char_pos) + 1
        },
        !(*old(char_pos) < chars@.len() && chars@[*old(char_pos) as int] != '\\') ==> {
            &&& *final(byte_pos) == *old(byte_pos)
            &&& *final(char_pos) == *old(char_pos)
        },
{
    let total = content.as_bytes().len();
    let skip: usize = if *char_pos < chars.len() && chars[*char_pos] != '\\' {
        char_len_utf8(chars[*char_pos])
    } else {
        0
    };
    *byte_pos = *byte_pos + skip;
    if skip > 0 {
        *char_pos = *char_pos + 1;
    }
    TagDiagnostic {
        span: str_slice(content, tag_start, *byte_pos),
        offset: start_pos + tag_start,
        kind: DiagnosticKind::EmptyOverride,
    }
}

/// Recovery keeps the two cursors in step: when the byte cursor is the UTF-8 length of
/// the characters before the character cursor, it still is afterwards, it has moved by
/// whole characters onto a character boundary, and it never passes a backslash; a
/// character that is not a backslash it steps over whole.
pub proof fn lemma_recovery_keeps_cursors_in_step(text: Seq<char>, char_pos: int)
    requires
        0 <= char_pos <= text.len(),
    ensures
        ({
            let skip = recovery_skip(text, char_pos);
            let next = char_pos + if skip > 0 {
                1int
            } else {
                0int
            };
            &&& encode_utf8(text.take(next)).len() == encode_utf8(text.take(char_pos)).len() + skip
            &&& is_char_boundary(encode_utf8(text), encode_utf8(text.take(next)).len() as int)
            &&& skip > 0 ==> text[char_pos] != '\\'
            &&& char_pos < text.len() && text[char_pos] != '\\' ==> skip == encode_scalar(
                text[char_pos] as u32,
            ).len() && skip > 0
        }),
{
    let skip = recovery_skip(text, char_pos);
    if char_pos < text.len() {
        char_is_scalar(text[char_pos]);
    }
    if skip > 0 {
        lemma_encode_utf8_take_step(text, char_pos);
        lemma_encoded_prefix_is_boundary(text, char_pos + 1);
    } else {
        lemma_encoded_prefix_is_boundary(text, char_pos);
    }
}

} // verus!
