//! Facts on UTF-8: how the bytes of a text relate to its characters.

use vstd::prelude::*;
use vstd::utf8::*;

use crate::components::no_slash;

verus! {

/// Encoding works character by character.
pub proof fn encode_concat(a: Seq<char>, b: Seq<char>)
    ensures
        encode_utf8(a + b) == encode_utf8(a) + encode_utf8(b),
    decreases a.len(),
{
    if a.len() == 0 {
        assert(a + b =~= b);
        assert(encode_utf8(a) + encode_utf8(b) =~= encode_utf8(b));
    } else {
        encode_concat(a.drop_first(), b);
        assert((a + b).drop_first() =~= a.drop_first() + b);
        assert((a + b)[0] == a[0]);
        let first = encode_scalar(a[0] as u32);
        assert(first + (encode_utf8(a.drop_first()) + encode_utf8(b)) =~= (first + encode_utf8(
            a.drop_first(),
        )) + encode_utf8(b));
    }
}

/// A character is its scalar value.
proof fn scalar_of(c: char)
    ensures
        is_scalar(c as u32),
        c as u32 == c as int,
{
    char_is_scalar(c);
}

/// ASCII characters are their own bytes; all bytes of other characters lie beyond ASCII.
proof fn encode_scalar_bytes(c: u32)
    requires
        is_scalar(c),
    ensures
        c < 0x80 ==> encode_scalar(c) == seq![c as u8],
        c >= 0x80 ==> forall|i: int|
            0 <= i < encode_scalar(c).len() ==> #[trigger] encode_scalar(c)[i] >= 0x80,
        encode_scalar(c).len() > 0,
{
    if c < 0x80 {
        assert((c & 0x7F) as u8 == c as u8) by (bit_vector)
            requires
                c < 0x80,
        ;
        assert(encode_scalar(c) =~= seq![c as u8]);
    } else {
        assert(0xC0u8 | ((c >> 6) & 0x1F) as u8 >= 0x80) by (bit_vector);
        assert(0xE0u8 | ((c >> 12) & 0x0F) as u8 >= 0x80) by (bit_vector);
        assert(0xF0u8 | ((c >> 18) & 0x7) as u8 >= 0x80) by (bit_vector);
        assert(0x80u8 | (c & 0x3F) as u8 >= 0x80) by (bit_vector);
        assert(0x80u8 | ((c >> 6) & 0x3F) as u8 >= 0x80) by (bit_vector);
        assert(0x80u8 | ((c >> 12) & 0x3F) as u8 >= 0x80) by (bit_vector);
    }
}

/// A text without slashes has no separator among its bytes.
pub proof fn encode_no_slash(s: Seq<char>)
    requires
        forall|i: int| 0 <= i < s.len() ==> s[i] != '/',
    ensures
        no_slash(encode_utf8(s)),
        s.len() > 0 ==> encode_utf8(s).len() > 0,
    decreases s.len(),
{
    if s.len() > 0 {
        let c = s[0];
        scalar_of(c);
        encode_scalar_bytes(c as u32);
        encode_no_slash(s.drop_first());
        let first = encode_scalar(c as u32);
        assert(no_slash(first)) by {
            if (c as u32) < 0x80 {
                assert(c as int != '/' as int);
            }
        }
    }
}

/// The bytes of a text of ASCII characters.
pub proof fn encode_ascii(s: Seq<char>)
    requires
        forall|i: int| 0 <= i < s.len() ==> (#[trigger] s[i] as u32) < 0x80,
    ensures
        encode_utf8(s) == s.map_values(|c: char| c as u8),
    decreases s.len(),
{
    if s.len() > 0 {
        scalar_of(s[0]);
        encode_scalar_bytes(s[0] as u32);
        assert forall|i: int| 0 <= i < s.drop_first().len() implies (#[trigger] s.drop_first()[i] as u32)
            < 0x80 by {
            assert(s.drop_first()[i] == s[i + 1]);
        }
        encode_ascii(s.drop_first());
        assert(encode_utf8(s) =~= s.map_values(|c: char| c as u8));
    } else {
        assert(encode_utf8(s) =~= s.map_values(|c: char| c as u8));
    }
}

} // verus!
