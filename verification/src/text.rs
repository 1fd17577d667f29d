//! Character and byte offsets in source text.
//!
//! Diagnostics and completion requests cross the command boundary in
//! character offsets, while source spans are byte offsets into the UTF-8
//! encoding; these conversions carry one into the other. A byte offset
//! that falls inside an encoded character converts to nothing rather than
//! to a neighbouring position.

use vstd::prelude::*;

verus! {

use vstd::string::*;
use vstd::utf8::{encode_scalar, encode_utf8};

/// How many bytes encode the first `chars` characters of `s`.
pub open spec fn byte_offset_of(s: Seq<char>, chars: int) -> int {
    encode_utf8(s.take(chars)).len() as int
}

/// The UTF-8 width of one character.
fn char_utf8_width(c: char) -> (w: usize)
    ensures
        w == encode_scalar(c as u32).len(),
        1 <= w <= 4,
{
    let u = c as u32;
    if u < 0x80 {
        1
    } else if u < 0x800 {
        2
    } else if u < 0x10000 {
        3
    } else {
        4
    }
}

/// Encoding distributes over concatenation.
proof fn lemma_encode_utf8_concat(a: Seq<char>, b: Seq<char>)
    ensures
        encode_utf8(a + b) == encode_utf8(a) + encode_utf8(b),
    decreases a.len(),
{
    if a.len() == 0 {
        assert(a + b =~= b);
        assert(encode_utf8(a) + encode_utf8(b) =~= encode_utf8(b));
    } else {
        assert((a + b).drop_first() =~= a.drop_first() + b);
        lemma_encode_utf8_concat(a.drop_first(), b);
        assert((a + b)[0] == a[0]);
        assert(encode_utf8(a + b) =~= encode_utf8(a) + encode_utf8(b));
    }
}

/// One more character appends its encoding.
proof fn lemma_encode_utf8_step(s: Seq<char>, i: int)
    requires
        0 <= i < s.len(),
    ensures
        byte_offset_of(s, i + 1) == byte_offset_of(s, i) + encode_scalar(s[i] as u32).len(),
{
    assert(s.take(i + 1) =~= s.take(i) + seq![s[i]]);
    lemma_encode_utf8_concat(s.take(i), seq![s[i]]);
    let single = seq![s[i]];
    assert(single.drop_first() =~= Seq::<char>::empty());
    assert(encode_utf8(Seq::<char>::empty()) =~= Seq::<u8>::empty());
    assert(encode_utf8(single) =~= encode_scalar(single[0] as u32) + encode_utf8(
        single.drop_first(),
    ));
    assert(encode_utf8(single) =~= encode_scalar(s[i] as u32));
}

/// A longer prefix never encodes to fewer bytes.
proof fn lemma_byte_offset_monotonic(s: Seq<char>, i: int, j: int)
    requires
        0 <= i <= j <= s.len(),
    ensures
        byte_offset_of(s, i) <= byte_offset_of(s, j),
{
    assert(s.take(j) =~= s.take(i) + s.take(j).skip(i));
    lemma_encode_utf8_concat(s.take(i), s.take(j).skip(i));
}

/// The byte offset of a character offset, clamped to the end of the text
/// as an offset beyond it asks for.
pub fn char_offset_to_byte_offset(s: &str, chars: usize) -> (r: usize)
    requires
        s@.len() * 4 <= usize::MAX,
    ensures
        r as int == byte_offset_of(s@, if chars as int <= s@.len() {
            chars as int
        } else {
            s@.len() as int
        }),
{
    let len = s.unicode_len();
    let upto = if chars < len {
        chars
    } else {
        len
    };
    let mut i: usize = 0;
    let mut b: usize = 0;
    proof {
        assert(s@.take(0) =~= Seq::<char>::empty());
    }
    while i < upto
        invariant
            i <= upto <= len,
            len == s@.len(),
            len * 4 <= usize::MAX,
            b as int == byte_offset_of(s@, i as int),
            b <= 4 * i,
        decreases upto - i,
    {
        let c = s.get_char(i);
        let w = char_utf8_width(c);
        proof {
            lemma_encode_utf8_step(s@, i as int);
        }
        b = b + w;
        i = i + 1;
    }
    b
}

/// The character offset whose encoding ends at the given byte offset, or
/// nothing when the byte offset falls inside a character or beyond the
/// text.
pub fn byte_offset_to_char_offset(s: &str, byte: usize) -> (r: Option<usize>)
    requires
        s@.len() * 4 <= usize::MAX,
    ensures
        (r matches Some(i) ==> i as int <= s@.len() && byte_offset_of(s@, i as int) == byte as int),
        (r is None ==> forall|j: int|
            0 <= j <= s@.len() ==> byte_offset_of(s@, j) != byte as int),
{
    let len = s.unicode_len();
    let mut i: usize = 0;
    let mut b: usize = 0;
    proof {
        assert(s@.take(0) =~= Seq::<char>::empty());
    }
    while i < len
        invariant
            i <= len,
            len == s@.len(),
            len * 4 <= usize::MAX,
            b as int == byte_offset_of(s@, i as int),
            b <= 4 * i,
            forall|j: int| 0 <= j < i ==> byte_offset_of(s@, j) != byte as int,
        decreases len - i,
    {
        if b == byte {
            return Some(i);
        }
        if b > byte {
            proof {
                assert forall|j: int| 0 <= j <= s@.len() implies byte_offset_of(s@, j)
                    != byte as int by {
                    if j >= i {
                        lemma_byte_offset_monotonic(s@, i as int, j);
                    }
                }
            }
            return None;
        }
        let c = s.get_char(i);
        let w = char_utf8_width(c);
        proof {
            lemma_encode_utf8_step(s@, i as int);
        }
        b = b + w;
        i = i + 1;
    }
    if b == byte {
        Some(len)
    } else {
        proof {
            assert forall|j: int| 0 <= j <= s@.len() implies byte_offset_of(s@, j)
                != byte as int by {
                if j == s@.len() {
                    assert(byte_offset_of(s@, j) == b as int);
                }
            }
        }
        None
    }
}

} // verus!
