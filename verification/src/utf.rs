//! Text as characters, as UTF-8 bytes and as UTF-16 code units.
//!
//! The compiler counts bytes and editors count UTF-16 code units. The facts here tie both to
//! the sequence of characters that a text is, so that the rest of the crate can walk a text
//! byte by byte and state what it computes in characters.

use vstd::prelude::*;
use vstd::utf8::*;

verus! {

broadcast use vstd::utf8::char_is_scalar;

/// How many UTF-16 code units one character takes.
pub open spec fn utf16_width(c: char) -> nat {
    if (c as u32) >= 0x10000 {
        2
    } else {
        1
    }
}

/// How many UTF-16 code units a text takes.
pub open spec fn utf16_len(s: Seq<char>) -> nat
    decreases s.len(),
{
    if s.len() == 0 {
        0
    } else {
        utf16_len(s.drop_last()) + utf16_width(s.last())
    }
}

/// How many bytes a text takes in UTF-8.
pub open spec fn byte_len(s: Seq<char>) -> nat {
    encode_utf8(s).len()
}

/// Whether `offset` is where some character of the text begins, or its end.
pub open spec fn is_boundary(text: Seq<char>, offset: int) -> bool {
    exists|k: int| 0 <= k <= text.len() && offset == #[trigger] byte_len(text.take(k))
}

/// How many characters of the text lie before the boundary `offset`.
pub open spec fn chars_before(text: Seq<char>, offset: int) -> int {
    choose|k: int| 0 <= k <= text.len() && offset == #[trigger] byte_len(text.take(k))
}

/// The end of a text is a boundary of it.
pub proof fn lemma_whole_is_boundary(text: Seq<char>)
    ensures
        is_boundary(text, byte_len(text) as int),
{
    assert(text.take(text.len() as int) =~= text);
}

pub proof fn lemma_encode_concat(a: Seq<char>, b: Seq<char>)
    ensures
        encode_utf8(a + b) == encode_utf8(a) + encode_utf8(b),
    decreases a.len(),
{
    if a.len() == 0 {
        assert(a + b =~= b);
        assert(encode_utf8(a) + encode_utf8(b) =~= encode_utf8(b));
    } else {
        assert((a + b).drop_first() =~= a.drop_first() + b);
        lemma_encode_concat(a.drop_first(), b);
        assert(encode_utf8(a + b) =~= encode_utf8(a) + encode_utf8(b));
    }
}

pub proof fn lemma_byte_len_push(a: Seq<char>, c: char)
    ensures
        byte_len(a.push(c)) == byte_len(a) + encode_scalar(c as u32).len(),
{
    assert(a.push(c) =~= a + seq![c]);
    lemma_encode_concat(a, seq![c]);
    assert(seq![c].drop_first() =~= Seq::<char>::empty());
    reveal_with_fuel(encode_utf8, 2);
    assert(encode_utf8(seq![c]) =~= encode_scalar(c as u32));
}

/// The bytes of a text's first `k` characters are the first bytes of the text.
pub proof fn lemma_take_bytes(text: Seq<char>, k: int)
    requires
        0 <= k <= text.len(),
    ensures
        byte_len(text.take(k)) <= byte_len(text),
        encode_utf8(text).take(byte_len(text.take(k)) as int) == encode_utf8(text.take(k)),
        encode_utf8(text).skip(byte_len(text.take(k)) as int) == encode_utf8(text.skip(k)),
{
    assert(text =~= text.take(k) + text.skip(k));
    lemma_encode_concat(text.take(k), text.skip(k));
    assert(encode_utf8(text).take(byte_len(text.take(k)) as int) =~= encode_utf8(text.take(k)));
    assert(encode_utf8(text).skip(byte_len(text.take(k)) as int) =~= encode_utf8(text.skip(k)));
}

/// Longer prefixes take strictly more bytes.
pub proof fn lemma_byte_len_strict(text: Seq<char>, j: int, k: int)
    requires
        0 <= j < k <= text.len(),
    ensures
        byte_len(text.take(j)) < byte_len(text.take(k)),
    decreases k - j,
{
    assert(text.take(k) =~= text.take(k - 1).push(text[k - 1]));
    lemma_byte_len_push(text.take(k - 1), text[k - 1]);
    if j < k - 1 {
        lemma_byte_len_strict(text, j, k - 1);
    }
}

pub proof fn lemma_byte_len_monotone(text: Seq<char>, j: int, k: int)
    requires
        0 <= j <= k <= text.len(),
    ensures
        byte_len(text.take(j)) <= byte_len(text.take(k)),
{
    if j < k {
        lemma_byte_len_strict(text, j, k);
    }
}

/// A boundary determines how many characters lie before it.
pub proof fn lemma_chars_before(text: Seq<char>, k: int)
    requires
        0 <= k <= text.len(),
    ensures
        is_boundary(text, byte_len(text.take(k)) as int),
        chars_before(text, byte_len(text.take(k)) as int) == k,
{
    let o = byte_len(text.take(k)) as int;
    assert(is_boundary(text, o));
    let j = chars_before(text, o);
    if j < k {
        lemma_byte_len_strict(text, j, k);
    } else if k < j {
        lemma_byte_len_strict(text, k, j);
    }
}

/// What the bytes of a text say at the place where its `k`-th character begins.
pub proof fn lemma_char_at(text: Seq<char>, k: int)
    requires
        0 <= k < text.len(),
    ensures
        ({
            let bytes = encode_utf8(text);
            let i = byte_len(text.take(k)) as int;
            let w = encode_scalar(text[k] as u32).len();
            &&& 1 <= w <= 4
            &&& i + w <= bytes.len()
            &&& byte_len(text.take(k + 1)) == i + w
            &&& (bytes[i] < 0x80 <==> w == 1)
            &&& (0xC0 <= bytes[i] < 0xE0 <==> w == 2)
            &&& (0xE0 <= bytes[i] < 0xF0 <==> w == 3)
            &&& (bytes[i] >= 0xF0 <==> w == 4)
            &&& (w == 4 <==> utf16_width(text[k]) == 2)
            &&& (bytes[i] == 0x0A <==> text[k] == '\n')
        }),
{
    let bytes = encode_utf8(text);
    let i = byte_len(text.take(k)) as int;
    let c = text[k] as u32;
    let w = encode_scalar(c).len();
    lemma_take_bytes(text, k);
    let tail = text.skip(k);
    assert(tail[0] == text[k]);
    encode_utf8_first_scalar(tail);
    assert(bytes.skip(i)[0] == bytes[i]);
    assert(text.take(k + 1) =~= text.take(k).push(text[k]));
    lemma_byte_len_push(text.take(k), text[k]);
    lemma_take_bytes(text, k + 1);
    if w == 1 {
        assert(encode_utf8(tail)[0] == leading_byte_width_1(c));
        assert((c & 0x7F) as u8 == c as u8) by (bit_vector)
            requires
                c <= 0x7F,
        ;
        char_u32_cast(text[k], c);
        char_u32_cast('\n', 0x0Au32);
    }
}

/// Every byte boundary that the standard library recognises is one in the sense used here, and
/// the other way round.
pub proof fn lemma_boundary_agrees(text: Seq<char>, offset: int)
    ensures
        is_boundary(text, offset) <==> is_char_boundary(encode_utf8(text), offset),
    decreases text.len(),
{
    let bytes = encode_utf8(text);
    encode_utf8_valid_utf8(text);
    if is_char_boundary(bytes, offset) {
        valid_utf8_split(bytes, offset);
        decode_utf8_split(bytes, offset);
        lemma_boundary_in_range(bytes, offset);
        let a = decode_utf8(bytes.subrange(0, offset));
        let b = decode_utf8(bytes.subrange(offset, bytes.len() as int));
        encode_utf8_decode_utf8(text);
        assert(text =~= a + b);
        assert(text.take(a.len() as int) =~= a);
        decode_utf8_encode_utf8(bytes.subrange(0, offset));
        assert(byte_len(text.take(a.len() as int)) == offset);
    }
    if is_boundary(text, offset) {
        let k = chars_before(text, offset);
        lemma_take_is_char_boundary(text, k);
    }
}

proof fn lemma_boundary_in_range(bytes: Seq<u8>, offset: int)
    requires
        valid_utf8(bytes),
        is_char_boundary(bytes, offset),
    ensures
        0 <= offset <= bytes.len(),
{
}

proof fn lemma_take_is_char_boundary(text: Seq<char>, k: int)
    requires
        0 <= k <= text.len(),
    ensures
        is_char_boundary(encode_utf8(text), byte_len(text.take(k)) as int),
    decreases text.len(),
{
    let bytes = encode_utf8(text);
    encode_utf8_valid_utf8(text);
    if k == 0 {
        assert(text.take(0) =~= Seq::<char>::empty());
    } else {
        encode_utf8_first_scalar(text);
        let rest = text.drop_first();
        assert(pop_first_scalar(bytes) =~= encode_utf8(rest));
        lemma_take_is_char_boundary(rest, k - 1);
        assert(text.take(k).drop_first() =~= rest.take(k - 1));
        assert(text.take(k)[0] == text[0]);
        lemma_take_bytes(text, k);
    }
}

pub proof fn lemma_utf16_concat(a: Seq<char>, b: Seq<char>)
    ensures
        utf16_len(a + b) == utf16_len(a) + utf16_len(b),
    decreases b.len(),
{
    if b.len() == 0 {
        assert(a + b =~= a);
    } else {
        lemma_utf16_concat(a, b.drop_last());
        assert((a + b).drop_last() =~= a + b.drop_last());
    }
}

/// No text has more UTF-16 code units than UTF-8 bytes.
pub proof fn lemma_utf16_at_most_bytes(s: Seq<char>)
    ensures
        utf16_len(s) <= byte_len(s),
        s.len() <= utf16_len(s),
    decreases s.len(),
{
    if s.len() > 0 {
        lemma_utf16_at_most_bytes(s.drop_last());
        assert(s.drop_last().push(s.last()) =~= s);
        lemma_byte_len_push(s.drop_last(), s.last());
    }
}

/// How many bytes the character takes whose first byte is `b`.
pub fn width_of(b: u8) -> (w: usize)
    ensures
        w == (if b < 0x80 {
            1
        } else if b < 0xE0 {
            2
        } else if b < 0xF0 {
            3
        } else {
            4int
        }),
{
    if b < 0x80 {
        1
    } else if b < 0xE0 {
        2
    } else if b < 0xF0 {
        3
    } else {
        4
    }
}

/// How many UTF-16 code units the character takes whose first UTF-8 byte is `b`.
pub fn units_of(b: u8) -> (n: usize)
    ensures
        n == (if b < 0xF0 {
            1
        } else {
            2int
        }),
{
    if b < 0xF0 {
        1
    } else {
        2
    }
}

/// A character of the basic plane takes one code unit and any other takes two; and a text takes
/// what its parts take.
pub proof fn law_code_units_add_up(c: char, a: Seq<char>, b: Seq<char>)
    ensures
        utf16_len(seq![c]) == (if (c as u32) <= 0xFFFF {
            1int
        } else {
            2
        }),
        utf16_len(a + b) == utf16_len(a) + utf16_len(b),
        utf16_len(Seq::<char>::empty()) == 0,
{
    assert(seq![c].drop_last() =~= Seq::<char>::empty());
    reveal_with_fuel(utf16_len, 2);
    lemma_utf16_concat(a, b);
}

} // verus!
