//! Text that is made up of numbers, and text from bytes.

use vstd::prelude::*;
use vstd::string::*;
use vstd::utf8::*;

verus! {

/// The character of a digit, up to base 16.
pub open spec fn digit_char(d: int) -> char {
    "0123456789abcdef"@[d]
}

/// `n` written out in `radix`, with zeros before it up to `width` digits.
pub open spec fn numeral(n: nat, radix: nat, width: nat) -> Seq<char>
    decreases n, width,
    when radix >= 2
{
    proof {
        if n > 0 && radix >= 2 {
            vstd::arithmetic::div_mod::lemma_div_decreases(n as int, radix as int);
        } else if radix >= 2 {
            vstd::arithmetic::div_mod::lemma_small_mod(0, radix);
            vstd::arithmetic::div_mod::lemma_div_basics(radix as int);
        }
    }
    if n < radix && width <= 1 {
        seq![digit_char(n as int)]
    } else {
        numeral(
            n / radix,
            radix,
            if width == 0 {
                0
            } else {
                (width - 1) as nat
            },
        ).push(digit_char((n % radix) as int))
    }
}

/// The text of one digit.
fn digit_str(d: u64) -> (r: &'static str)
    requires
        d < 16,
    ensures
        r@ == seq![digit_char(d as int)],
{
    proof {
        reveal_strlit("0123456789abcdef");
        reveal_strlit("0");
        reveal_strlit("1");
        reveal_strlit("2");
        reveal_strlit("3");
        reveal_strlit("4");
        reveal_strlit("5");
        reveal_strlit("6");
        reveal_strlit("7");
        reveal_strlit("8");
        reveal_strlit("9");
        reveal_strlit("a");
        reveal_strlit("b");
        reveal_strlit("c");
        reveal_strlit("d");
        reveal_strlit("e");
        reveal_strlit("f");
    }
    let r = match d {
        0 => "0",
        1 => "1",
        2 => "2",
        3 => "3",
        4 => "4",
        5 => "5",
        6 => "6",
        7 => "7",
        8 => "8",
        9 => "9",
        10 => "a",
        11 => "b",
        12 => "c",
        13 => "d",
        14 => "e",
        _ => "f",
    };
    assert(r@ =~= seq![digit_char(d as int)]);
    r
}

/// Write `n` out behind `s`.
pub fn push_numeral(s: &mut String, n: u64, radix: u64, width: u64)
    requires
        2 <= radix <= 16,
    ensures
        final(s)@ == old(s)@ + numeral(n as nat, radix as nat, width as nat),
    decreases n, width,
{
    if n < radix && width <= 1 {
        s.append(digit_str(n));
    } else {
        let rest: u64 = if width == 0 {
            0
        } else {
            width - 1
        };
        proof {
            if n > 0 {
                vstd::arithmetic::div_mod::lemma_div_decreases(n as int, radix as int);
            } else {
                vstd::arithmetic::div_mod::lemma_div_basics(radix as int);
            }
            vstd::arithmetic::div_mod::lemma_mod_bound(n as int, radix as int);
        }
        push_numeral(s, n / radix, radix, rest);
        s.append(digit_str(n % radix));
        assert(s@ =~= old(s)@ + numeral(n as nat, radix as nat, width as nat));
    }
}

/// Bytes as hexadecimal digits.
pub open spec fn hex_text(d: Seq<u8>) -> Seq<char>
    decreases d.len(),
{
    if d.len() == 0 {
        Seq::empty()
    } else {
        hex_text(d.drop_last()) + numeral(d.last() as nat, 16, 2)
    }
}

/// Write bytes as hexadecimal digits.
pub fn push_hex(s: &mut String, d: &[u8])
    ensures
        final(s)@ == old(s)@ + hex_text(d@),
{
    let mut i: usize = 0;
    assert(s@ =~= old(s)@ + hex_text(d@.take(0)));
    while i < d.len()
        invariant
            i <= d.len(),
            s@ == old(s)@ + hex_text(d@.take(i as int)),
        decreases d.len() - i,
    {
        push_numeral(s, d[i] as u64, 16, 2);
        i += 1;
        assert(d@.take(i as int).drop_last() =~= d@.take(i - 1));
        assert(s@ =~= old(s)@ + hex_text(d@.take(i as int)));
    }
    assert(d@.take(i as int) =~= d@);
}

/// A text comes before another in the order of characters.
pub open spec fn text_before(a: Seq<char>, b: Seq<char>) -> bool
    decreases a.len(),
{
    if b.len() == 0 {
        false
    } else if a.len() == 0 {
        true
    } else if a[0] != b[0] {
        a[0] < b[0]
    } else {
        text_before(a.drop_first(), b.drop_first())
    }
}

/// Of two texts that are not the same, one comes before the other, and none before itself.
pub proof fn lemma_text_order(a: Seq<char>, b: Seq<char>)
    ensures
        text_before(a, b) || text_before(b, a) || a == b,
        !(text_before(a, b) && text_before(b, a)),
        text_before(a, b) ==> a != b,
    decreases a.len(),
{
    if a.len() > 0 && b.len() > 0 && a[0] == b[0] {
        lemma_text_order(a.drop_first(), b.drop_first());
        if a.drop_first() == b.drop_first() {
            assert(a =~= seq![a[0]] + a.drop_first());
            assert(b =~= seq![b[0]] + b.drop_first());
        }
    } else if a.len() == 0 && b.len() == 0 {
        assert(a =~= b);
    }
}

/// What comes before a text comes before those that it comes before.
pub proof fn lemma_text_between(a: Seq<char>, b: Seq<char>, c: Seq<char>)
    requires
        text_before(a, b),
        text_before(b, c),
    ensures
        text_before(a, c),
    decreases a.len(),
{
    if a.len() > 0 && a[0] == b[0] && b[0] == c[0] {
        lemma_text_between(a.drop_first(), b.drop_first(), c.drop_first());
    }
}

/// Whether a text comes before another.
pub fn comes_before(a: &str, b: &str) -> (r: bool)
    ensures
        r == text_before(a@, b@),
{
    let n: usize = a.unicode_len();
    let m: usize = b.unicode_len();
    let mut i: usize = 0;
    assert(a@.skip(0) =~= a@ && b@.skip(0) =~= b@);
    while i < n && i < m
        invariant
            n == a@.len(),
            m == b@.len(),
            i <= n,
            i <= m,
            text_before(a@, b@) == text_before(a@.skip(i as int), b@.skip(i as int)),
        decreases n - i,
    {
        let x: char = a.get_char(i);
        let y: char = b.get_char(i);
        assert(a@.skip(i as int)[0] == x && b@.skip(i as int)[0] == y);
        if x != y {
            return (x as u32) < (y as u32);
        }
        assert(a@.skip(i as int).drop_first() =~= a@.skip(i + 1));
        assert(b@.skip(i as int).drop_first() =~= b@.skip(i + 1));
        i += 1;
    }
    i < m
}

/// Whether two texts are the same.
pub fn same_text(a: &str, b: &str) -> (r: bool)
    ensures
        r == (a@ == b@),
{
    let x = a.as_bytes();
    let y = b.as_bytes();
    proof {
        encode_utf8_decode_utf8(a@);
        encode_utf8_decode_utf8(b@);
    }
    if x.len() != y.len() {
        return false;
    }
    let mut i: usize = 0;
    while i < x.len()
        invariant
            x@ == encode_utf8(a@),
            y@ == encode_utf8(b@),
            i <= x.len() == y.len(),
            forall|k: int| 0 <= k < i ==> x@[k] == y@[k],
        decreases x.len() - i,
    {
        if x[i] != y[i] {
            return false;
        }
        i += 1;
    }
    assert(x@ =~= y@);
    true
}

/// The text that UTF-8 bytes encode.
///
/// Calls `String::from_utf8`, which takes a vector of bytes over as a string where they are valid UTF-8;
/// the characters of the string are those that the bytes encode.
#[verifier::external_body]
pub(crate) fn utf8_string(bytes: Vec<u8>) -> (r: String)
    requires
        valid_utf8(bytes@),
    ensures
        r@ == decode_utf8(bytes@),
{
    String::from_utf8(bytes).unwrap()
}

/// The text of bytes that should be UTF-8, with replacement characters for what is not.
pub uninterp spec fn lossy_text(bytes: Seq<u8>) -> Seq<char>;

/// The text of bytes that should be UTF-8.
///
/// Calls `String::from_utf8_lossy`, which reads bytes as UTF-8 and puts replacement characters in the place
/// of what is not valid. What it makes of bytes depends on them alone, valid UTF-8 comes out as the
/// characters that it encodes, and where there are bytes there are characters.
#[verifier::external_body]
pub(crate) fn utf8_lossy(bytes: &[u8]) -> (r: String)
    ensures
        r@ == lossy_text(bytes@),
        valid_utf8(bytes@) ==> r@ == decode_utf8(bytes@),
        bytes@.len() > 0 ==> r@.len() > 0,
{
    String::from_utf8_lossy(bytes).into_owned()
}

/// Text that is put together character by character.
pub struct TextBuf {
    bytes: Vec<u8>,
}

impl View for TextBuf {
    type V = Seq<char>;

    closed spec fn view(&self) -> Seq<char> {
        decode_utf8(self.bytes@)
    }
}

/// The bytes of one character more.
proof fn lemma_encode_push(t: Seq<char>, c: char)
    ensures
        encode_utf8(t.push(c)) == encode_utf8(t) + encode_scalar(c as u32),
    decreases t.len(),
{
    if t.len() == 0 {
        assert(t.push(c).drop_first() =~= t);
        assert(encode_utf8(t) =~= Seq::empty());
        assert(encode_utf8(t.push(c)) =~= encode_scalar(c as u32));
        assert(encode_utf8(t) + encode_scalar(c as u32) =~= encode_scalar(c as u32));
    } else {
        lemma_encode_push(t.drop_first(), c);
        assert(t.push(c).drop_first() =~= t.drop_first().push(c));
        assert(encode_utf8(t.push(c)) =~= encode_utf8(t) + encode_scalar(c as u32));
    }
}

impl TextBuf {
    /// What is put together so far are whole characters.
    pub closed spec fn wf(&self) -> bool {
        valid_utf8(self.bytes@)
    }

    /// No text yet.
    pub fn new() -> (r: Self)
        ensures
            r.wf(),
            r@ == Seq::<char>::empty(),
    {
        let r = TextBuf { bytes: Vec::new() };
        assert(r@ =~= Seq::<char>::empty());
        r
    }

    /// Add the character with the number `c`.
    pub fn push(&mut self, c: u32)
        requires
            old(self).wf(),
            is_scalar(c),
        ensures
            final(self).wf(),
            final(self)@ == old(self)@.push(c as char),
    {
        let ghost before = self.bytes@;
        let ghost t = decode_utf8(before);
        proof {
            decode_utf8_encode_utf8(before);
            char_u32_cast(c as char, c);
            lemma_encode_push(t, c as char);
            encode_utf8_valid_utf8(t.push(c as char));
            encode_utf8_decode_utf8(t.push(c as char));
        }
        if c <= 0x7F {
            self.bytes.push((c & 0x7F) as u8);
        } else if c <= 0x7FF {
            self.bytes.push(0xC0 | ((c >> 6) & 0x1F) as u8);
            self.bytes.push(0x80 | (c & 0x3F) as u8);
        } else if c <= 0xFFFF {
            self.bytes.push(0xE0 | ((c >> 12) & 0x0F) as u8);
            self.bytes.push(0x80 | ((c >> 6) & 0x3F) as u8);
            self.bytes.push(0x80 | (c & 0x3F) as u8);
        } else {
            self.bytes.push(0xF0 | ((c >> 18) & 0x7) as u8);
            self.bytes.push(0x80 | ((c >> 12) & 0x3F) as u8);
            self.bytes.push(0x80 | ((c >> 6) & 0x3F) as u8);
            self.bytes.push(0x80 | (c & 0x3F) as u8);
        }
        assert(self.bytes@ =~= before + encode_scalar(c));
    }

    /// The text.
    pub fn into_string(self) -> (r: String)
        requires
            self.wf(),
        ensures
            r@ == self@,
    {
        utf8_string(self.bytes)
    }
}

/// The first half of a surrogate pair.
pub open spec fn is_high(u: u16) -> bool {
    0xD800 <= u <= 0xDBFF
}

/// The second half of a surrogate pair.
pub open spec fn is_low(u: u16) -> bool {
    0xDC00 <= u <= 0xDFFF
}

/// The character of a surrogate pair.
pub open spec fn paired(high: u16, low: u16) -> u32 {
    (0x1_0000 + (high - 0xD800) * 0x400 + (low - 0xDC00)) as u32
}

/// The text of UTF-16 units from `i` on. Half a surrogate pair is replaced.
pub open spec fn utf16_text(u: Seq<u16>, i: int) -> Seq<char>
    decreases u.len() - i,
{
    if i >= u.len() {
        Seq::empty()
    } else if is_high(u[i]) && i + 1 < u.len() && is_low(u[i + 1]) {
        seq![paired(u[i], u[i + 1]) as char] + utf16_text(u, i + 2)
    } else if is_high(u[i]) || is_low(u[i]) {
        seq!['\u{FFFD}'] + utf16_text(u, i + 1)
    } else {
        seq![u[i] as u32 as char] + utf16_text(u, i + 1)
    }
}

/// The text of UTF-16 units.
pub fn utf16_lossy(u: &[u16]) -> (r: String)
    ensures
        r@ == utf16_text(u@, 0),
{
    let mut t = TextBuf::new();
    let mut i: usize = 0;
    while i < u.len()
        invariant
            i <= u.len(),
            t.wf(),
            t@ + utf16_text(u@, i as int) =~= utf16_text(u@, 0),
        decreases u.len() - i,
    {
        let a: u16 = u[i];
        let ghost before = t@;
        if 0xD800 <= a && a <= 0xDBFF && u.len() - i > 1 && 0xDC00 <= u[i + 1] && u[i + 1] <= 0xDFFF {
            let c: u32 = 0x1_0000 + (a as u32 - 0xD800) * 0x400 + (u[i + 1] as u32 - 0xDC00);
            t.push(c);
            assert(t@ + utf16_text(u@, i + 2) =~= before + utf16_text(u@, i as int));
            i += 2;
        } else if 0xD800 <= a && a <= 0xDFFF {
            t.push(0xFFFD);
            assert(t@ + utf16_text(u@, i + 1) =~= before + utf16_text(u@, i as int));
            i += 1;
        } else {
            t.push(a as u32);
            assert(t@ + utf16_text(u@, i + 1) =~= before + utf16_text(u@, i as int));
            i += 1;
        }
    }
    assert(t@ + utf16_text(u@, i as int) =~= t@);
    t.into_string()
}

} // verus!
