//! UTF-8.

use vstd::prelude::*;
use vstd::utf8::*;

verus! {

/// What the bits of a two-byte sequence come to, by its bytes.
proof fn lemma_width_2(a: u8, b: u8)
    requires
        is_leading_byte_width_2(a),
        is_continuation_byte(b),
    ensures
        codepoint_width_2(a, b) >= 0x80 <==> a >= 0xC2,
        codepoint_width_2(a, b) < 0x800,
{
    assert(((((a & 0x1Fu8) as u32) << 6 | ((b & 0x3Fu8) as u32)) >= 0x80 <==> a >= 0xC2) && ((((a
        & 0x1Fu8) as u32) << 6 | ((b & 0x3Fu8) as u32)) < 0x800)) by (bit_vector)
        requires
            0xC0u8 <= a,
            a <= 0xDFu8,
            0x80u8 <= b,
            b <= 0xBFu8,
    ;
}

/// What the bits of a three-byte sequence come to, by its bytes.
proof fn lemma_width_3(a: u8, b: u8, c: u8)
    requires
        is_leading_byte_width_3(a),
        is_continuation_byte(b),
        is_continuation_byte(c),
    ensures
        codepoint_width_3(a, b, c) >= 0x800 <==> a > 0xE0 || b >= 0xA0,
        0xD800 <= codepoint_width_3(a, b, c) <= 0xDFFF <==> a == 0xED && b >= 0xA0,
{
    let x = codepoint_width_3(a, b, c);
    assert(x == (((a & 0x0Fu8) as u32) << 12 | ((b & 0x3Fu8) as u32) << 6 | ((c & 0x3Fu8) as u32)));
    assert((x >= 0x800 <==> (a > 0xE0 || b >= 0xA0)) && ((0xD800 <= x && x <= 0xDFFF) <==> (a == 0xED
        && b >= 0xA0))) by (bit_vector)
        requires
            0xE0u8 <= a,
            a <= 0xEFu8,
            0x80u8 <= b,
            b <= 0xBFu8,
            0x80u8 <= c,
            c <= 0xBFu8,
            x == (((a & 0x0Fu8) as u32) << 12 | ((b & 0x3Fu8) as u32) << 6 | ((c & 0x3Fu8) as u32)),
    ;
}

/// What the bits of a four-byte sequence come to, by its bytes.
proof fn lemma_width_4(a: u8, b: u8, c: u8, d: u8)
    requires
        is_leading_byte_width_4(a),
        is_continuation_byte(b),
        is_continuation_byte(c),
        is_continuation_byte(d),
    ensures
        codepoint_width_4(a, b, c, d) >= 0x1_0000 <==> a > 0xF0 || b >= 0x90,
        codepoint_width_4(a, b, c, d) <= 0x10_FFFF <==> a < 0xF4 || a == 0xF4 && b < 0x90,
{
    let x = codepoint_width_4(a, b, c, d);
    assert(x == (((a & 0x07u8) as u32) << 18 | ((b & 0x3Fu8) as u32) << 12 | ((c & 0x3Fu8) as u32) << 6
        | ((d & 0x3Fu8) as u32)));
    assert((x >= 0x1_0000 <==> (a > 0xF0 || b >= 0x90)) && (x <= 0x10_FFFF <==> (a < 0xF4 || (a == 0xF4
        && b < 0x90)))) by (bit_vector)
        requires
            0xF0u8 <= a,
            a <= 0xF7u8,
            0x80u8 <= b,
            b <= 0xBFu8,
            0x80u8 <= c,
            c <= 0xBFu8,
            0x80u8 <= d,
            d <= 0xBFu8,
            x == (((a & 0x07u8) as u32) << 18 | ((b & 0x3Fu8) as u32) << 12 | ((c & 0x3Fu8) as u32) << 6
                | ((d & 0x3Fu8) as u32)),
    ;
}

/// Whether a byte continues a sequence.
fn continues(b: u8) -> (r: bool)
    ensures
        r == is_continuation_byte(b),
{
    0x80 <= b && b <= 0xBF
}

/// The number of bytes in the scalar at `i`, zero where there is no well-formed one.
fn scalar_len(s: &[u8], i: usize) -> (r: usize)
    requires
        i < s.len(),
    ensures
        r > 0 <==> valid_first_scalar(s@.subrange(i as int, s@.len() as int)),
        r > 0 ==> r == length_of_first_scalar(s@.subrange(i as int, s@.len() as int)) && i + r
            <= s.len(),
{
    let ghost t = s@.subrange(i as int, s@.len() as int);
    let left: usize = s.len() - i;
    let a: u8 = s[i];
    if a <= 0x7F {
        proof {
            assert(a & 0x7Fu8 == a) by (bit_vector)
                requires
                    a <= 0x7Fu8,
            ;
        }
        return 1;
    }
    if 0xC0 <= a && a <= 0xDF {
        if left < 2 || !continues(s[i + 1]) {
            return 0;
        }
        proof {
            lemma_width_2(a, t[1]);
        }
        return if a >= 0xC2 {
            2
        } else {
            0
        };
    }
    if 0xE0 <= a && a <= 0xEF {
        if left < 3 || !continues(s[i + 1]) || !continues(s[i + 2]) {
            return 0;
        }
        let b: u8 = s[i + 1];
        proof {
            lemma_width_3(a, t[1], t[2]);
        }
        return if (a > 0xE0 || b >= 0xA0) && !(a == 0xED && b >= 0xA0) {
            3
        } else {
            0
        };
    }
    if 0xF0 <= a && a <= 0xF7 {
        if left < 4 || !continues(s[i + 1]) || !continues(s[i + 2]) || !continues(s[i + 3]) {
            return 0;
        }
        let b: u8 = s[i + 1];
        proof {
            lemma_width_4(a, t[1], t[2], t[3]);
        }
        return if (a > 0xF0 || b >= 0x90) && (a < 0xF4 || a == 0xF4 && b < 0x90) {
            4
        } else {
            0
        };
    }
    0
}

/// Whether bytes are well-formed UTF-8.
pub fn is_utf8(s: &[u8]) -> (r: bool)
    ensures
        r == valid_utf8(s@),
{
    let mut i: usize = 0;
    assert(s@.subrange(0, s@.len() as int) =~= s@);
    while i < s.len()
        invariant
            i <= s.len(),
            valid_utf8(s@) == valid_utf8(s@.subrange(i as int, s@.len() as int)),
        decreases s.len() - i,
    {
        let n: usize = scalar_len(s, i);
        if n == 0 {
            return false;
        }
        assert(pop_first_scalar(s@.subrange(i as int, s@.len() as int)) =~= s@.subrange(
            i + n,
            s@.len() as int,
        ));
        i = i + n;
    }
    true
}

/// The bytes of text and of text after it.
pub proof fn lemma_encode_add(a: Seq<char>, b: Seq<char>)
    ensures
        encode_utf8(a + b) == encode_utf8(a) + encode_utf8(b),
    decreases a.len(),
{
    if a.len() == 0 {
        assert(a + b =~= b);
        assert(encode_utf8(a) + encode_utf8(b) =~= encode_utf8(b));
    } else {
        lemma_encode_add(a.drop_first(), b);
        assert((a + b).drop_first() =~= a.drop_first() + b);
        assert(encode_utf8(a + b) =~= encode_utf8(a) + encode_utf8(b));
    }
}

/// The bytes of one character: its own number, or bytes that no character of one byte has.
proof fn lemma_scalar_bytes(c: char)
    ensures
        c <= '\u{7f}' ==> encode_scalar(c as u32) == seq![c as u8] && c as u8 == c as int,
        c > '\u{7f}' ==> forall|k: int|
            0 <= k < encode_scalar(c as u32).len() ==> #[trigger] encode_scalar(c as u32)[k] >= 0x80,
{
    let x = c as u32;
    assert(x <= 0x7F ==> (x & 0x7F) as u8 == x as u8) by (bit_vector);
    assert((0xC0u8 | ((x >> 6) & 0x1F) as u8) >= 0x80) by (bit_vector);
    assert((0xE0u8 | ((x >> 12) & 0x0F) as u8) >= 0x80) by (bit_vector);
    assert((0xF0u8 | ((x >> 18) & 0x7) as u8) >= 0x80) by (bit_vector);
    assert((0x80u8 | (x & 0x3F) as u8) >= 0x80) by (bit_vector);
    assert((0x80u8 | ((x >> 6) & 0x3F) as u8) >= 0x80) by (bit_vector);
    assert((0x80u8 | ((x >> 12) & 0x3F) as u8) >= 0x80) by (bit_vector);
}

/// A byte of one character is found in text only where the character is.
pub proof fn lemma_encode_lacks(t: Seq<char>, c: char)
    requires
        c <= '\u{7f}',
        !t.contains(c),
    ensures
        !encode_utf8(t).contains(c as u8),
    decreases t.len(),
{
    if t.len() > 0 {
        let d = t[0];
        assert(d != c);
        lemma_scalar_bytes(d);
        lemma_scalar_bytes(c);
        assert forall|x: char| t.drop_first().contains(x) implies t.contains(x) by {
            let i = choose|i: int| 0 <= i < t.drop_first().len() && t.drop_first()[i] == x;
            assert(t[i + 1] == x);
        }
        lemma_encode_lacks(t.drop_first(), c);
        let head = encode_scalar(d as u32);
        let rest = encode_utf8(t.drop_first());
        assert forall|k: int| 0 <= k < encode_utf8(t).len() implies encode_utf8(t)[k] != c as u8 by {
            assert(c as u8 <= 0x7F);
            if k < head.len() {
                assert(encode_utf8(t)[k] == head[k]);
                if d <= '\u{7f}' {
                    assert(head[k] == d as u8);
                } else {
                    assert(encode_scalar(d as u32)[k] >= 0x80);
                }
            } else {
                assert(encode_utf8(t)[k] == rest[k - head.len()]);
                assert(rest.contains(rest[k - head.len()]));
            }
        }
    }
}

/// Text has a byte for each character at least.
pub proof fn lemma_encode_len(t: Seq<char>)
    ensures
        encode_utf8(t).len() >= t.len(),
    decreases t.len(),
{
    if t.len() > 0 {
        lemma_encode_len(t.drop_first());
    }
}

} // verus!
