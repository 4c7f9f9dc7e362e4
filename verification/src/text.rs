//! Facts about UTF-8 text at the byte level that the scanners and editors rely on.
use vstd::prelude::*;
use vstd::string::*;
use vstd::utf8::*;

verus! {

/// `bytes` holds `pattern` starting at byte `at`.
pub open spec fn has_prefix_at(bytes: Seq<u8>, at: int, pattern: Seq<u8>) -> bool {
    &&& 0 <= at
    &&& at + pattern.len() <= bytes.len()
    &&& bytes.subrange(at, at + pattern.len()) == pattern
}

/// A byte below 0x80: a whole character in UTF-8.
pub open spec fn is_ascii_byte(b: u8) -> bool {
    b < 0x80
}

/// Number of bytes the UTF-8 encoding of `c` takes.
pub open spec fn utf8_len(c: char) -> nat {
    encode_scalar(c as u32).len()
}

/// The byte length of `c` in UTF-8, as `char::len_utf8` documents it.
pub fn char_len_utf8(c: char) -> (n: usize)
    ensures
        n == utf8_len(c),
        1 <= n <= 4,
{
    proof {
        char_is_scalar(c);
    }
    let u = c as u32;
    if u < 0x80 {
        1
    } else if u < 0x800 {
        2
    } else if u < 0x10000 {
        3
    } else {
        4
    }
}

/// A `str`'s bytes are valid UTF-8 and decode back to its characters.
pub proof fn lemma_str_bytes(s: &str)
    ensures
        valid_utf8(s.spec_bytes()),
        decode_utf8(s.spec_bytes()) == s@,
{
    encode_utf8_valid_utf8(s@);
    encode_utf8_decode_utf8(s@);
}

/// Encoding a concatenation concatenates the encodings.
pub proof fn lemma_encode_utf8_concat(a: Seq<char>, b: Seq<char>)
    ensures
        encode_utf8(a + b) == encode_utf8(a) + encode_utf8(b),
    decreases a.len(),
{
    if a.len() == 0 {
        assert(a + b =~= b);
        assert(encode_utf8(a) =~= Seq::<u8>::empty());
        assert(encode_utf8(a) + encode_utf8(b) =~= encode_utf8(b));
    } else {
        lemma_encode_utf8_concat(a.drop_first(), b);
        assert((a + b).drop_first() =~= a.drop_first() + b);
        assert((a + b)[0] == a[0]);
        assert(encode_utf8(a + b) =~= encode_scalar(a[0] as u32) + (encode_utf8(a.drop_first())
            + encode_utf8(b)));
    }
}

/// Extending a character prefix by one character extends its encoding by that
/// character's encoding.
pub proof fn lemma_encode_utf8_take_step(text: Seq<char>, k: int)
    requires
        0 <= k < text.len(),
    ensures
        encode_utf8(text.take(k + 1)) == encode_utf8(text.take(k)) + encode_scalar(text[k] as u32),
{
    assert(text.take(k + 1) =~= text.take(k) + seq![text[k]]);
    lemma_encode_utf8_concat(text.take(k), seq![text[k]]);
    let one = seq![text[k]];
    assert(one.drop_first() =~= Seq::<char>::empty());
    assert(encode_utf8(one.drop_first()) =~= Seq::<u8>::empty());
    assert(encode_utf8(one) =~= encode_scalar(text[k] as u32));
}

/// The byte length of an encoded prefix of characters is a character boundary of the
/// encoding of the whole text.
pub proof fn lemma_encoded_prefix_is_boundary(text: Seq<char>, k: int)
    requires
        0 <= k <= text.len(),
    ensures
        is_char_boundary(encode_utf8(text), encode_utf8(text.take(k)).len() as int),
    decreases text.len(),
{
    let bytes = encode_utf8(text);
    encode_utf8_valid_utf8(text);
    if k == 0 {
        assert(text.take(0) =~= Seq::<char>::empty());
        assert(encode_utf8(text.take(0)).len() == 0);
    } else {
        encode_utf8_first_scalar(text);
        let rest = text.drop_first();
        lemma_encoded_prefix_is_boundary(rest, k - 1);
        assert(pop_first_scalar(bytes) =~= encode_utf8(rest));
        assert(text.take(k).drop_first() =~= rest.take(k - 1));
        assert(text.take(k)[0] == text[0]);
        assert(encode_utf8(text.take(k)) == encode_scalar(text[0] as u32) + encode_utf8(
            rest.take(k - 1),
        ));
        lemma_encode_utf8_concat(text.take(k), text.skip(k));
        assert(text =~= text.take(k) + text.skip(k));
    }
}

/// In valid UTF-8, the position right after an ASCII byte is a character boundary.
pub proof fn lemma_boundary_after_ascii(bytes: Seq<u8>, i: int)
    requires
        valid_utf8(bytes),
        0 < i <= bytes.len(),
        is_ascii_byte(bytes[i - 1]),
    ensures
        is_char_boundary(bytes, i),
    decreases bytes.len(),
{
    let n = length_of_first_scalar(bytes);
    let rest = pop_first_scalar(bytes);
    if i - 1 == 0 {
        assert(n == 1);
        assert(is_char_boundary(rest, 0));
    } else if i - 1 < n {
        assert(is_continuation_byte(bytes[i - 1]));
        assert(false);
    } else {
        assert(rest.len() == bytes.len() - n);
        assert(rest[i - n - 1] == bytes[i - 1]);
        lemma_boundary_after_ascii(rest, i - n);
    }
}

/// Positions at either end of valid UTF-8, at an ASCII byte, or right after one are
/// character boundaries.
pub proof fn lemma_boundary_near_ascii(bytes: Seq<u8>, i: int)
    requires
        valid_utf8(bytes),
        0 <= i <= bytes.len(),
        i == 0 || i == bytes.len() || is_ascii_byte(bytes[i]) || is_ascii_byte(bytes[i - 1]),
    ensures
        is_char_boundary(bytes, i),
{
    if i == 0 || i == bytes.len() {
        is_char_boundary_start_end_of_seq(bytes);
    } else if is_ascii_byte(bytes[i]) {
        is_char_boundary_iff_not_is_continuation_byte(bytes, i);
    } else {
        lemma_boundary_after_ascii(bytes, i);
    }
}

/// A boundary of valid UTF-8 that lies inside a prefix ending at a boundary is a
/// boundary of that prefix too.
pub proof fn lemma_boundary_in_prefix(bytes: Seq<u8>, n: int, i: int)
    requires
        valid_utf8(bytes),
        0 <= i <= n <= bytes.len(),
        is_char_boundary(bytes, n),
        is_char_boundary(bytes, i),
    ensures
        valid_utf8(bytes.subrange(0, n)),
        is_char_boundary(bytes.subrange(0, n), i),
{
    valid_utf8_split(bytes, n);
    let p = bytes.subrange(0, n);
    if i == n {
        is_char_boundary_start_end_of_seq(p);
    } else {
        is_char_boundary_iff_not_is_continuation_byte(bytes, i);
        is_char_boundary_iff_not_is_continuation_byte(p, i);
    }
}

/// The piece of `s` between two character boundaries.
pub fn str_slice<'a>(s: &'a str, start: usize, end: usize) -> (piece: &'a str)
    requires
        start <= end <= s.spec_bytes().len(),
        is_char_boundary(s.spec_bytes(), start as int),
        is_char_boundary(s.spec_bytes(), end as int),
    ensures
        piece.spec_bytes() == s.spec_bytes().subrange(start as int, end as int),
{
    proof {
        lemma_str_bytes(s);
        lemma_boundary_in_prefix(s.spec_bytes(), end as int, start as int);
    }
    let (head, _) = s.split_at(end);
    proof {
        assert(head.spec_bytes() =~= s.spec_bytes().subrange(0, end as int));
    }
    let (_, piece) = head.split_at(start);
    proof {
        assert(piece.spec_bytes() =~= s.spec_bytes().subrange(start as int, end as int));
    }
    piece
}

} // verus!
