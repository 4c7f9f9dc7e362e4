//! Color and alpha names end before their unwrapped hexadecimal arguments.
use vstd::prelude::*;
use vstd::string::*;
use vstd::utf8::*;

verus! {

/// `bytes` begins with `prefix`.
pub open spec fn starts_with(bytes: Seq<u8>, prefix: Seq<u8>) -> bool {
    prefix.len() <= bytes.len() && bytes.subrange(0, prefix.len() as int) == prefix
}

/// The bytes of `clip`.
pub open spec fn clip_name() -> Seq<u8> {
    seq!['c' as u8, 'l' as u8, 'i' as u8, 'p' as u8]
}

/// The bytes of `alpha`.
pub open spec fn alpha_name() -> Seq<u8> {
    seq!['a' as u8, 'l' as u8, 'p' as u8, 'h' as u8, 'a' as u8]
}

/// `name` begins with one of `1c`..`4c` or `1a`..`4a`.
pub open spec fn starts_with_numbered_color(name: Seq<u8>) -> bool {
    &&& name.len() >= 2
    &&& '1' as u8 <= name[0] <= '4' as u8
    &&& (name[1] == 'c' as u8 || name[1] == 'a' as u8)
}

/// Length of the built-in color or alpha name that `name` begins with, taking the
/// first of `alpha`, `1c`..`4c`, `1a`..`4a`, `c` that matches; none when `name`
/// begins with `clip` or with none of them.
pub open spec fn color_prefix_len(name: Seq<u8>) -> Option<nat> {
    if starts_with(name, clip_name()) {
        None
    } else if starts_with(name, alpha_name()) {
        Some(5)
    } else if starts_with_numbered_color(name) {
        Some(2)
    } else if name.len() >= 1 && name[0] == 'c' as u8 {
        Some(1)
    } else {
        None
    }
}

/// Shortens an ASCII-scanned name to its libass color/alpha prefix.
///
/// The name is the bytes of `content` from `name_start` to `*byte_pos`. When it begins
/// with a built-in color or alpha name (see [`color_prefix_len`]), both cursors move back
/// over the rest, which is left to be read as the argument. `clip` takes precedence over
/// `c`. A registry-aware caller first gives an exact registered extension name
/// precedence over built-in interpretation.
pub fn split_color_name(
    content: &str,
    name_start: usize,
    char_pos: &mut usize,
    byte_pos: &mut usize,
)
    requires
        name_start <= *old(byte_pos) <= content.spec_bytes().len(),
        is_char_boundary(content.spec_bytes(), name_start as int),
        is_char_boundary(content.spec_bytes(), *old(byte_pos) as int),
        color_prefix_len(content.spec_bytes().subrange(name_start as int, *old(byte_pos) as int))
            matches Some(p) ==> *old(byte_pos) - name_start - p <= *old(char_pos),
    ensures
        ({
            let name = content.spec_bytes().subrange(name_start as int, *old(byte_pos) as int);
            match color_prefix_len(name) {
                Some(p) => {
                    &&& *final(byte_pos) == name_start + p
                    &&& *final(char_pos) == *old(char_pos) - (name.len() - p)
                },
                None => {
                    &&& *final(byte_pos) == *old(byte_pos)
                    &&& *final(char_pos) == *old(char_pos)
                },
            }
        }),
{
    let bytes = content.as_bytes();
    let end = *byte_pos;
    let len = end - name_start;
    let ghost name = content.spec_bytes().subrange(name_start as int, end as int);
    assert(forall|i: int| 0 <= i < len ==> name[i] == bytes@[name_start + i]);
    if len >= 4 && bytes[name_start] == 'c' as u8 && bytes[name_start + 1] == 'l' as u8
        && bytes[name_start + 2] == 'i' as u8 && bytes[name_start + 3] == 'p' as u8 {
        assert(name.subrange(0, 4) =~= clip_name());
        return;
    }
    assert(!starts_with(name, clip_name())) by {
        if starts_with(name, clip_name()) {
            assert(name.subrange(0, 4)[0] == clip_name()[0]);
            assert(name.subrange(0, 4)[1] == clip_name()[1]);
            assert(name.subrange(0, 4)[2] == clip_name()[2]);
            assert(name.subrange(0, 4)[3] == clip_name()[3]);
        }
    }
    let prefix_len: usize = if len >= 5 && bytes[name_start] == 'a' as u8 && bytes[name_start + 1]
        == 'l' as u8 && bytes[name_start + 2] == 'p' as u8 && bytes[name_start + 3] == 'h' as u8
        && bytes[name_start + 4] == 'a' as u8 {
        assert(name.subrange(0, 5) =~= alpha_name());
        5
    } else {
        assert(!starts_with(name, alpha_name())) by {
            if starts_with(name, alpha_name()) {
                assert(name.subrange(0, 5)[0] == alpha_name()[0]);
                assert(name.subrange(0, 5)[1] == alpha_name()[1]);
                assert(name.subrange(0, 5)[2] == alpha_name()[2]);
                assert(name.subrange(0, 5)[3] == alpha_name()[3]);
                assert(name.subrange(0, 5)[4] == alpha_name()[4]);
            }
        }
        if len >= 2 && '1' as u8 <= bytes[name_start] && bytes[name_start] <= '4' as u8 && (
        bytes[name_start + 1] == 'c' as u8 || bytes[name_start + 1] == 'a' as u8) {
            2
        } else if len >= 1 && bytes[name_start] == 'c' as u8 {
            1
        } else {
            0
        }
    };
    if prefix_len > 0 {
        *char_pos = *char_pos - (len - prefix_len);
        *byte_pos = name_start + prefix_len;
    }
}

/// The built-in color and alpha names: `c`, `1c`..`4c`, `alpha` and `1a`..`4a`.
pub open spec fn is_builtin_color_name(name: Seq<u8>) -> bool {
    ||| name == alpha_name()
    ||| name == seq!['c' as u8]
    ||| name.len() == 2 && starts_with_numbered_color(name)
}

/// Each built-in color or alpha name stops right before whatever argument follows it,
/// unless `c` and its argument spell `clip`, which is left whole.
pub proof fn lemma_color_names_stop_before_arguments(name: Seq<u8>, argument: Seq<u8>)
    requires
        is_builtin_color_name(name),
    ensures
        starts_with(name + argument, clip_name()) ==> color_prefix_len(name + argument) is None,
        !starts_with(name + argument, clip_name()) ==> color_prefix_len(name + argument) == Some(
            name.len(),
        ),
{
    let whole = name + argument;
    if !starts_with(whole, clip_name()) {
        if name == alpha_name() {
            assert(whole.subrange(0, 5) =~= alpha_name());
        } else {
            assert(whole[0] == name[0]);
            assert(!starts_with(whole, alpha_name())) by {
                if starts_with(whole, alpha_name()) {
                    assert(whole.subrange(0, 5)[0] == alpha_name()[0]);
                }
            }
            if name.len() == 2 {
                assert(whole[1] == name[1]);
            }
        }
    }
}

/// Splitting is idempotent: a name already cut to its color or alpha prefix is that
/// prefix, so a second split leaves both cursors where they are.
pub proof fn lemma_split_color_name_idempotent(name: Seq<u8>)
    ensures
        color_prefix_len(name) matches Some(p) ==> color_prefix_len(name.subrange(0, p as int))
            == Some(p),
{
    if let Some(p) = color_prefix_len(name) {
        let cut = name.subrange(0, p as int);
        if p == 5 {
            assert(cut =~= alpha_name());
            assert(cut.subrange(0, 5) =~= cut);
            assert(!starts_with(cut, clip_name())) by {
                if starts_with(cut, clip_name()) {
                    assert(cut.subrange(0, 4)[0] == clip_name()[0]);
                }
            }
        } else if p == 2 {
            assert(!starts_with(cut, clip_name()));
            assert(!starts_with(cut, alpha_name()));
            assert(cut[0] == name[0] && cut[1] == name[1]);
        } else {
            assert(!starts_with(cut, clip_name()));
            assert(!starts_with(cut, alpha_name()));
            assert(cut[0] == name[0]);
        }
    }
}

} // verus!
