//! **Custom carvers** that are described at run time.
//!
//! Beyond the built-in signatures, a caller can describe extra carvers at run time — a magic number plus a
//! declarative rule for how long each match is — and have a scan use them.
//!
//! To preserve the central guarantee — *never emit a wrong length* — a custom carver cannot carry arbitrary
//! length logic. It must resolve to one of a few declarative strategies, each of which computes an **exact**
//! size and is bounds-checked against the scan limit exactly like a built-in extent:
//!
//! * `fixed` — every match is exactly `size` bytes.
//! * `size_field` — the size is an unsigned integer stored in the header at `offset`, `width` bits wide
//!   (8/16/32/64), little- or big-endian, taken as `value * mul + add`.
//! * `footer` — the file ends with a terminator byte sequence (`marker`), found by scanning forward within
//!   the size cap, and the line ending that follows it, of up to `trailing` bytes.
//!
//! Specs are parsed into an owned [`Spec`], and [`Spec::to_signature`] lends a [`Signature`] that borrows
//! from it for the duration of one scan.

pub mod laws;

use crate::json::{member, number_member, text_member, Json};
use crate::signatures::{Extent, Signature};
use crate::strings::{digit_char, hex_text, numeral, push_numeral, same_text, TextBuf};
use crate::text::digit;
use vstd::prelude::*;
use vstd::string::*;
use vstd::utf8::*;

verus! {

/// Upper bound on a custom carver's `max_size`. It bounds a runaway carve; 1 TiB is far beyond any real
/// file.
pub const MAX_SIZE_CAP: u64 = 1_099_511_627_776;

/// The declarative length rule of a custom carver.
#[derive(Clone, Debug, PartialEq)]
pub enum Length {
    /// Every match is exactly this many bytes.
    Fixed(u64),
    /// Size = `value * mul + add`, where `value` is the unsigned integer at `offset`, `width` bits wide, in
    /// the chosen byte order.
    SizeField { offset: usize, width: u8, big_endian: bool, mul: u64, add: u64 },
    /// The file ends with the terminator `marker`, and a line ending of up to `trailing` bytes.
    Footer { marker: Vec<u8>, trailing: u64 },
}

/// A validated custom-carver spec.
#[derive(Clone, Debug, PartialEq)]
pub struct Spec {
    pub name: String,
    pub ext: String,
    pub magic: Vec<u8>,
    pub magic_offset: u64,
    pub secondary: Option<(usize, Vec<u8>)>,
    pub max_size: u64,
    pub length: Length,
}

/// What a length rule says.
pub enum LengthRule {
    Fixed(u64),
    SizeField { offset: usize, width: u8, big_endian: bool, mul: u64, add: u64 },
    Footer { marker: Seq<u8>, trailing: u64 },
}

/// What a spec says.
pub struct SpecRule {
    pub name: Seq<char>,
    pub ext: Seq<char>,
    pub magic: Seq<u8>,
    pub magic_offset: u64,
    pub secondary: Option<(usize, Seq<u8>)>,
    pub max_size: u64,
    pub length: LengthRule,
}

impl View for Length {
    type V = LengthRule;

    open spec fn view(&self) -> LengthRule {
        match *self {
            Length::Fixed(size) => LengthRule::Fixed(size),
            Length::SizeField { offset, width, big_endian, mul, add } => LengthRule::SizeField {
                offset,
                width,
                big_endian,
                mul,
                add,
            },
            Length::Footer { marker, trailing } => LengthRule::Footer { marker: marker@, trailing },
        }
    }
}

/// What the second bytes of a signature are.
pub open spec fn secondary_view(x: Option<(usize, Vec<u8>)>) -> Option<(usize, Seq<u8>)> {
    match x {
        Some((offset, bytes)) => Some((offset, bytes@)),
        None => None,
    }
}

impl View for Spec {
    type V = SpecRule;

    open spec fn view(&self) -> SpecRule {
        SpecRule {
            name: self.name@,
            ext: self.ext@,
            magic: self.magic@,
            magic_offset: self.magic_offset,
            secondary: secondary_view(self.secondary),
            max_size: self.max_size,
            length: self.length@,
        }
    }
}

/// What may stand between hexadecimal digits.
pub open spec fn is_separator(b: u8) -> bool {
    b == 0x20 || b == 0x09 || b == 0x0A || b == 0x0C || b == 0x0D || b == 0x3A
}

/// The first `n` bytes without separators.
pub open spec fn unseparated(s: Seq<u8>, n: int) -> Seq<u8>
    decreases n,
{
    if n <= 0 {
        Seq::empty()
    } else if is_separator(s[n - 1]) {
        unseparated(s, n - 1)
    } else {
        unseparated(s, n - 1).push(s[n - 1])
    }
}

/// Digits without `0x` before them.
pub open spec fn unprefixed(d: Seq<u8>) -> Seq<u8> {
    if d.len() >= 2 && d[0] == 0x30 && (d[1] == 0x78 || d[1] == 0x58) {
        d.skip(2)
    } else {
        d
    }
}

/// What is said of a byte that is no hexadecimal digit.
pub open spec fn bad_digit(b: u8) -> Seq<char> {
    "invalid hex digit '"@ + seq![b as u32 as char] + "'"@
}

/// The bytes of the first `n` pairs of digits, or what is said of the first byte that is no digit.
pub open spec fn pairs(d: Seq<u8>, n: int) -> Result<Seq<u8>, Seq<char>>
    decreases n,
{
    if n <= 0 {
        Ok(Seq::empty())
    } else {
        match pairs(d, n - 1) {
            Err(e) => Err(e),
            Ok(v) => {
                let hi = digit(d[2 * n - 2], 16);
                let lo = digit(d[2 * n - 1], 16);
                if hi is None {
                    Err(bad_digit(d[2 * n - 2]))
                } else if lo is None {
                    Err(bad_digit(d[2 * n - 1]))
                } else {
                    Ok(v.push((hi->Some_0 * 16 + lo->Some_0) as u8))
                }
            },
        }
    }
}

/// The digits in a text that gives bytes in hexadecimal.
pub open spec fn hex_digits(s: Seq<char>) -> Seq<u8> {
    unprefixed(unseparated(encode_utf8(s), encode_utf8(s).len() as int))
}

/// The bytes that a text gives in hexadecimal, or what is wrong with it.
pub open spec fn hex_in(s: Seq<char>) -> Result<Seq<u8>, Seq<char>> {
    let d = hex_digits(s);
    if d.len() % 2 != 0 {
        Err("hex string must have an even number of digits"@)
    } else {
        pairs(d, d.len() as int / 2)
    }
}

/// `a` and then `b`.
fn joined(a: &str, b: &str) -> (r: String)
    ensures
        r@ == a@ + b@,
{
    let mut s = String::from_str(a);
    s.append(b);
    s
}

/// What is said of a byte that is no hexadecimal digit.
fn bad_digit_text(b: u8) -> (r: String)
    ensures
        r@ == bad_digit(b),
{
    let mut c = TextBuf::new();
    c.push(b as u32);
    let mut s = String::from_str("invalid hex digit '");
    let c = c.into_string();
    s.append(c.as_str());
    s.append("'");
    assert(c@ =~= seq![b as u32 as char]);
    s
}

/// The value of a hexadecimal digit.
fn hex_digit(c: u8) -> (r: Result<u8, String>)
    ensures
        match r {
            Ok(v) => digit(c, 16) == Some(v as int) && v < 16,
            Err(e) => digit(c, 16) is None && e@ == bad_digit(c),
        },
{
    if 0x30 <= c && c <= 0x39 {
        Ok(c - 0x30)
    } else if 0x61 <= c && c <= 0x66 {
        Ok(c - 0x61 + 10)
    } else if 0x41 <= c && c <= 0x46 {
        Ok(c - 0x41 + 10)
    } else {
        Err(bad_digit_text(c))
    }
}

/// Decode a hex string into bytes, ignoring ASCII whitespace and `:` separators and an optional `0x` prefix,
/// so `"89 50 4E"`, `"89:50:4e"`, and `"0x89504E"` all work.
pub fn parse_hex(s: &str) -> (r: Result<Vec<u8>, String>)
    ensures
        match r {
            Ok(v) => hex_in(s@) == Ok::<Seq<u8>, Seq<char>>(v@),
            Err(e) => hex_in(s@) == Err::<Seq<u8>, Seq<char>>(e@),
        },
{
    let b = s.as_bytes();
    let mut kept: Vec<u8> = Vec::new();
    let mut i: usize = 0;
    while i < b.len()
        invariant
            i <= b.len(),
            kept@ == unseparated(b@, i as int),
            kept@.len() <= i,
        decreases b.len() - i,
    {
        let c: u8 = b[i];
        if !(c == 0x20 || c == 0x09 || c == 0x0A || c == 0x0C || c == 0x0D || c == 0x3A) {
            kept.push(c);
        }
        i += 1;
    }
    let from: usize = if kept.len() >= 2 && kept[0] == 0x30 && (kept[1] == 0x78 || kept[1] == 0x58) {
        2
    } else {
        0
    };
    let ghost d = unprefixed(kept@);
    assert(d =~= kept@.skip(from as int));
    if (kept.len() - from) % 2 != 0 {
        return Err(String::from_str("hex string must have an even number of digits"));
    }
    let count: usize = (kept.len() - from) / 2;
    let mut out: Vec<u8> = Vec::new();
    let mut k: usize = 0;
    while k < count
        invariant
            k <= count,
            from <= 2,
            from + 2 * count == kept.len(),
            kept.len() <= usize::MAX,
            d == kept@.skip(from as int),
            d == hex_digits(s@),
            d.len() == 2 * count,
            pairs(d, k as int) == Ok::<Seq<u8>, Seq<char>>(out@),
        decreases count - k,
    {
        assert(d[2 * k] == kept@[from + 2 * k]);
        assert(d[2 * k + 1] == kept@[from + 2 * k + 1]);
        match hex_digit(kept[from + 2 * k]) {
            Ok(hi) => match hex_digit(kept[from + 2 * k + 1]) {
                Ok(lo) => {
                    out.push(hi * 16 + lo);
                },
                Err(e) => {
                    proof {
                        lemma_pairs_fail(d, k + 1, count as int);
                    }
                    return Err(e);
                },
            },
            Err(e) => {
                proof {
                    lemma_pairs_fail(d, k + 1, count as int);
                }
                return Err(e);
            },
        }
        k += 1;
    }
    Ok(out)
}

/// The first fault stands.
proof fn lemma_pairs_fail(d: Seq<u8>, k: int, n: int)
    requires
        0 <= k <= n,
        pairs(d, k) is Err,
    ensures
        pairs(d, n) == pairs(d, k),
    decreases n - k,
{
    if k < n {
        lemma_pairs_fail(d, k, n - 1);
    }
}

/// What is said where a text is missing.
pub open spec fn missing_text(key: Seq<char>) -> Seq<char> {
    "'"@ + key + "' is required and must be a string"@
}

/// The text that an object must have.
pub open spec fn required_text(obj: Json, key: Seq<char>) -> Result<Seq<char>, Seq<char>> {
    match text_member(obj, key) {
        Some(t) => Ok(t),
        None => Err(missing_text(key)),
    }
}

/// Bytes that an object must have, in hexadecimal.
pub open spec fn required_bytes(
    obj: Json,
    key: Seq<char>,
    what: Seq<char>,
    if_empty: Seq<char>,
) -> Result<Seq<u8>, Seq<char>> {
    match required_text(obj, key) {
        Err(e) => Err(e),
        Ok(t) => match hex_in(t) {
            Err(e) => Err(what + e),
            Ok(v) => if v.len() == 0 {
                Err(if_empty)
            } else {
                Ok(v)
            },
        },
    }
}

/// A byte that may stand in an extension.
pub open spec fn is_ext_byte(b: u8) -> bool {
    0x30 <= b <= 0x39 || 0x41 <= b <= 0x5A || 0x61 <= b <= 0x7A || b == 0x5F || b == 0x2D
}

/// What is wrong with an extension.
pub open spec fn ext_fault(ext: Seq<char>) -> Option<Seq<char>> {
    let b = encode_utf8(ext);
    if b.len() == 0 || b.len() > 16 {
        Some("ext must be 1..=16 characters"@)
    } else if exists|i: int| 0 <= i < b.len() && !is_ext_byte(#[trigger] b[i]) {
        Some("ext may only contain ASCII letters, digits, '_' or '-'"@)
    } else {
        None
    }
}

/// The size cap of a spec.
pub open spec fn max_size_in(item: Json) -> Result<u64, Seq<char>> {
    match number_member(item, "max_size"@) {
        None => Err("max_size is required"@),
        Some(v) => if v == 0 || v > MAX_SIZE_CAP {
            Err("max_size must be between 1 and "@ + numeral(MAX_SIZE_CAP as nat, 10, 1))
        } else {
            Ok(v)
        },
    }
}

/// The second bytes of a spec.
pub open spec fn secondary_in(item: Json) -> Result<Option<(usize, Seq<u8>)>, Seq<char>> {
    match member(item, "secondary"@) {
        None => Ok(None),
        Some(sec) => match number_member(sec, "offset"@) {
            None => Err("secondary.offset is required"@),
            Some(offset) => match required_bytes(
                sec,
                "bytes"@,
                "secondary.bytes: "@,
                "secondary.bytes must be non-empty"@,
            ) {
                Err(e) => Err(e),
                Ok(v) => Ok(Some((offset as usize, v))),
            },
        },
    }
}

/// A number that an object may have.
pub open spec fn number_or(obj: Json, key: Seq<char>, other: u64) -> u64 {
    match number_member(obj, key) {
        Some(v) => v,
        None => other,
    }
}

/// The byte order of a size field.
pub open spec fn endian_in(l: Json) -> Result<bool, Seq<char>> {
    match text_member(l, "endian"@) {
        None => Ok(false),
        Some(t) => if t == "le"@ || t == "little"@ {
            Ok(false)
        } else if t == "be"@ || t == "big"@ {
            Ok(true)
        } else {
            Err("endian must be 'le' or 'be', got '"@ + t + "'"@)
        },
    }
}

/// The rule of a size field.
pub open spec fn size_field_in(l: Json) -> Result<LengthRule, Seq<char>> {
    match (number_member(l, "offset"@), number_member(l, "width"@)) {
        (None, _) => Err("size_field needs 'offset'"@),
        (_, None) => Err("size_field needs 'width'"@),
        (Some(offset), Some(width)) => if !(width == 8 || width == 16 || width == 32 || width == 64) {
            Err("size_field 'width' must be 8, 16, 32, or 64"@)
        } else {
            match endian_in(l) {
                Err(e) => Err(e),
                Ok(big_endian) => if number_or(l, "mul"@, 1) == 0 {
                    Err("size_field 'mul' must be greater than 0"@)
                } else {
                    Ok(
                        LengthRule::SizeField {
                            offset: offset as usize,
                            width: width as u8,
                            big_endian,
                            mul: number_or(l, "mul"@, 1),
                            add: number_or(l, "add"@, 0),
                        },
                    )
                },
            }
        },
    }
}

/// The length rule that an object gives.
pub open spec fn length_in(l: Json) -> Result<LengthRule, Seq<char>> {
    match required_text(l, "strategy"@) {
        Err(e) => Err(e),
        Ok(t) => if t == "fixed"@ {
            match number_member(l, "size"@) {
                None => Err("fixed length needs 'size'"@),
                Some(size) => if size == 0 {
                    Err("fixed 'size' must be greater than 0"@)
                } else {
                    Ok(LengthRule::Fixed(size))
                },
            }
        } else if t == "size_field"@ {
            size_field_in(l)
        } else if t == "footer"@ {
            match required_bytes(l, "marker"@, "marker: "@, "footer needs a non-empty 'marker'"@) {
                Err(e) => Err(e),
                Ok(marker) => Ok(
                    LengthRule::Footer { marker, trailing: number_or(l, "trailing"@, 0) },
                ),
            }
        } else {
            Err("unknown length strategy '"@ + t + "'"@)
        },
    }
}

/// The spec that an object gives.
pub open spec fn spec_in(item: Json) -> Result<SpecRule, Seq<char>> {
    let name = required_text(item, "name"@);
    let ext = required_text(item, "ext"@);
    let magic = required_bytes(item, "magic"@, "magic: "@, "magic must have at least one byte"@);
    let max_size = max_size_in(item);
    let secondary = secondary_in(item);
    if name is Err {
        Err(name->Err_0)
    } else if ext is Err {
        Err(ext->Err_0)
    } else if ext_fault(ext->Ok_0) is Some {
        Err(ext_fault(ext->Ok_0)->Some_0)
    } else if magic is Err {
        Err(magic->Err_0)
    } else if max_size is Err {
        Err(max_size->Err_0)
    } else if secondary is Err {
        Err(secondary->Err_0)
    } else {
        match member(item, "length"@) {
            None => Err("length is required"@),
            Some(l) => match length_in(l) {
                Err(e) => Err(e),
                Ok(length) => Ok(
                    SpecRule {
                        name: name->Ok_0,
                        ext: ext->Ok_0,
                        magic: magic->Ok_0,
                        magic_offset: number_or(item, "magic_offset"@, 0),
                        secondary: secondary->Ok_0,
                        max_size: max_size->Ok_0,
                        length,
                    },
                ),
            },
        }
    }
}

fn req_str<'a>(obj: &'a Json, key: &str) -> (r: Result<&'a str, String>)
    ensures
        match r {
            Ok(t) => required_text(*obj, key@) == Ok::<Seq<char>, Seq<char>>(t@),
            Err(e) => required_text(*obj, key@) == Err::<Seq<char>, Seq<char>>(e@),
        },
{
    match opt_str(obj, key) {
        Some(t) => Ok(t),
        None => {
            let mut s = joined("'", key);
            s.append("' is required and must be a string");
            Err(s)
        },
    }
}

fn opt_str<'a>(obj: &'a Json, key: &str) -> (r: Option<&'a str>)
    ensures
        match r {
            Some(t) => text_member(*obj, key@) == Some(t@),
            None => text_member(*obj, key@) is None,
        },
{
    match obj.get(key) {
        Some(v) => v.as_str(),
        None => None,
    }
}

fn opt_u64(obj: &Json, key: &str) -> (r: Option<u64>)
    ensures
        r == number_member(*obj, key@),
{
    match obj.get(key) {
        Some(v) => v.as_u64(),
        None => None,
    }
}

fn u64_or(obj: &Json, key: &str, other: u64) -> (r: u64)
    ensures
        r == number_or(*obj, key@, other),
{
    match opt_u64(obj, key) {
        Some(v) => v,
        None => other,
    }
}

/// Bytes that an object must have, in hexadecimal.
fn req_bytes(obj: &Json, key: &str, what: &str, if_empty: &str) -> (r: Result<Vec<u8>, String>)
    ensures
        match r {
            Ok(v) => required_bytes(*obj, key@, what@, if_empty@) == Ok::<Seq<u8>, Seq<char>>(v@),
            Err(e) => required_bytes(*obj, key@, what@, if_empty@) == Err::<Seq<u8>, Seq<char>>(e@),
        },
{
    let t = req_str(obj, key)?;
    match parse_hex(t) {
        Ok(v) => if v.len() == 0 {
            Err(String::from_str(if_empty))
        } else {
            Ok(v)
        },
        Err(e) => Err(joined(what, e.as_str())),
    }
}

/// The extension names carved files; reject anything that could escape the output directory or is
/// unreasonable, keeping it to a short filesystem-safe token.
fn validate_ext(ext: &str) -> (r: Result<(), String>)
    ensures
        match r {
            Ok(_) => ext_fault(ext@) is None,
            Err(e) => ext_fault(ext@) == Some(e@),
        },
{
    let b = ext.as_bytes();
    if b.len() == 0 || b.len() > 16 {
        return Err(String::from_str("ext must be 1..=16 characters"));
    }
    let mut i: usize = 0;
    while i < b.len()
        invariant
            i <= b.len(),
            0 < b.len() <= 16,
            b@ == encode_utf8(ext@),
            forall|k: int| 0 <= k < i ==> is_ext_byte(#[trigger] b@[k]),
        decreases b.len() - i,
    {
        let c: u8 = b[i];
        if !(0x30 <= c && c <= 0x39 || 0x41 <= c && c <= 0x5A || 0x61 <= c && c <= 0x7A || c == 0x5F
            || c == 0x2D) {
            assert(!is_ext_byte(b@[i as int]));
            return Err(String::from_str("ext may only contain ASCII letters, digits, '_' or '-'"));
        }
        i += 1;
    }
    Ok(())
}

/// Parse the byte order of a size field.
fn parse_endian(l: &Json) -> (r: Result<bool, String>)
    ensures
        match r {
            Ok(v) => endian_in(*l) == Ok::<bool, Seq<char>>(v),
            Err(e) => endian_in(*l) == Err::<bool, Seq<char>>(e@),
        },
{
    match opt_str(l, "endian") {
        None => Ok(false),
        Some(t) => {
            if same_text(t, "le") || same_text(t, "little") {
                Ok(false)
            } else if same_text(t, "be") || same_text(t, "big") {
                Ok(true)
            } else {
                let mut s = joined("endian must be 'le' or 'be', got '", t);
                s.append("'");
                Err(s)
            }
        },
    }
}

/// Parse the rule of a size field.
fn parse_size_field(l: &Json) -> (r: Result<Length, String>)
    ensures
        match r {
            Ok(v) => size_field_in(*l) == Ok::<LengthRule, Seq<char>>(v@),
            Err(e) => size_field_in(*l) == Err::<LengthRule, Seq<char>>(e@),
        },
{
    let offset: usize = match opt_u64(l, "offset") {
        Some(v) => v as usize,
        None => {
            return Err(String::from_str("size_field needs 'offset'"));
        },
    };
    let width: u64 = match opt_u64(l, "width") {
        Some(v) => v,
        None => {
            return Err(String::from_str("size_field needs 'width'"));
        },
    };
    if !(width == 8 || width == 16 || width == 32 || width == 64) {
        return Err(String::from_str("size_field 'width' must be 8, 16, 32, or 64"));
    }
    let big_endian = parse_endian(l)?;
    let mul: u64 = u64_or(l, "mul", 1);
    if mul == 0 {
        return Err(String::from_str("size_field 'mul' must be greater than 0"));
    }
    let add: u64 = u64_or(l, "add", 0);
    Ok(Length::SizeField { offset, width: width as u8, big_endian, mul, add })
}

/// Parse the `length` object into a [`Length`], validating the strategy fields.
fn parse_length(l: &Json) -> (r: Result<Length, String>)
    ensures
        match r {
            Ok(v) => length_in(*l) == Ok::<LengthRule, Seq<char>>(v@),
            Err(e) => length_in(*l) == Err::<LengthRule, Seq<char>>(e@),
        },
{
    let t = req_str(l, "strategy")?;
    if same_text(t, "fixed") {
        match opt_u64(l, "size") {
            Some(size) => if size == 0 {
                Err(String::from_str("fixed 'size' must be greater than 0"))
            } else {
                Ok(Length::Fixed(size))
            },
            None => Err(String::from_str("fixed length needs 'size'")),
        }
    } else if same_text(t, "size_field") {
        parse_size_field(l)
    } else if same_text(t, "footer") {
        let marker = req_bytes(l, "marker", "marker: ", "footer needs a non-empty 'marker'")?;
        let trailing: u64 = u64_or(l, "trailing", 0);
        Ok(Length::Footer { marker, trailing })
    } else {
        let mut s = joined("unknown length strategy '", t);
        s.append("'");
        Err(s)
    }
}

/// Parse the size cap of a spec.
fn parse_max_size(item: &Json) -> (r: Result<u64, String>)
    ensures
        match r {
            Ok(v) => max_size_in(*item) == Ok::<u64, Seq<char>>(v),
            Err(e) => max_size_in(*item) == Err::<u64, Seq<char>>(e@),
        },
{
    match opt_u64(item, "max_size") {
        None => Err(String::from_str("max_size is required")),
        Some(v) => {
            if v == 0 || v > MAX_SIZE_CAP {
                let mut s = String::from_str("max_size must be between 1 and ");
                push_numeral(&mut s, MAX_SIZE_CAP, 10, 1);
                Err(s)
            } else {
                Ok(v)
            }
        },
    }
}

/// Parse the second bytes of a spec.
fn parse_secondary(item: &Json) -> (r: Result<Option<(usize, Vec<u8>)>, String>)
    ensures
        match r {
            Ok(v) => secondary_in(*item) == Ok::<Option<(usize, Seq<u8>)>, Seq<char>>(
                secondary_view(v),
            ),
            Err(e) => secondary_in(*item) == Err::<Option<(usize, Seq<u8>)>, Seq<char>>(e@),
        },
{
    match item.get("secondary") {
        None => Ok(None),
        Some(sec) => {
            let offset: usize = match opt_u64(sec, "offset") {
                Some(v) => v as usize,
                None => {
                    return Err(String::from_str("secondary.offset is required"));
                },
            };
            let bytes = req_bytes(
                sec,
                "bytes",
                "secondary.bytes: ",
                "secondary.bytes must be non-empty",
            )?;
            Ok(Some((offset, bytes)))
        },
    }
}

impl Spec {
    /// Parse and validate one spec from its JSON object, returning a descriptive error (never a panic) on
    /// any malformed field.
    pub fn parse(item: &Json) -> (r: Result<Spec, String>)
        ensures
            match r {
                Ok(v) => spec_in(*item) == Ok::<SpecRule, Seq<char>>(v@),
                Err(e) => spec_in(*item) == Err::<SpecRule, Seq<char>>(e@),
            },
    {
        let name = req_str(item, "name")?;
        let ext = req_str(item, "ext")?;
        validate_ext(ext)?;
        let magic = req_bytes(item, "magic", "magic: ", "magic must have at least one byte")?;
        let magic_offset: u64 = u64_or(item, "magic_offset", 0);
        let max_size: u64 = parse_max_size(item)?;
        let secondary = parse_secondary(item)?;
        let length = match item.get("length") {
            Some(l) => parse_length(l)?,
            None => {
                return Err(String::from_str("length is required"));
            },
        };
        Ok(
            Spec {
                name: String::from_str(name),
                ext: String::from_str(ext),
                magic,
                magic_offset,
                secondary,
                max_size,
                length,
            },
        )
    }
}

/// A way to find lengths is that of a rule.
pub open spec fn lends_extent(extent: Extent, length: LengthRule) -> bool {
    match length {
        LengthRule::Fixed(n) => extent == (Extent::Fixed { size: n }),
        LengthRule::SizeField { offset, width, big_endian, mul, add } => extent == (
        Extent::SizeField { offset, width, big_endian, mul, add }),
        LengthRule::Footer { marker, trailing } => extent matches Extent::Footer {
            marker: m,
            trailing: t,
        } && m@ == marker && t == trailing,
    }
}

/// A signature is that of a spec.
pub open spec fn lends(sig: Signature, s: SpecRule) -> bool {
    &&& sig.name@ == s.name
    &&& sig.ext@ == s.ext
    &&& sig.magic@ == s.magic
    &&& sig.magic_offset == s.magic_offset
    &&& match (sig.secondary, s.secondary) {
        (Some(a), Some(b)) => a.0 == b.0 && a.1@ == b.1,
        (None, None) => true,
        _ => false,
    }
    &&& lends_extent(sig.extent, s.length)
    &&& sig.max_size == s.max_size
    &&& !sig.volume
}

/// What a spec that is accepted looks like: it has magic bytes, an extension that is safe as part of a file
/// name, a size cap, and a rule that can be followed.
pub open spec fn is_valid(s: SpecRule) -> bool {
    &&& s.magic.len() > 0
    &&& ext_fault(s.ext) is None
    &&& 1 <= s.max_size <= MAX_SIZE_CAP
    &&& s.secondary matches Some(x) ==> x.1.len() > 0
    &&& match s.length {
        LengthRule::Fixed(n) => n > 0,
        LengthRule::SizeField { width, mul, .. } => (width == 8 || width == 16 || width == 32 || width
            == 64) && mul > 0,
        LengthRule::Footer { marker, .. } => marker.len() > 0,
    }
}

impl Spec {
    /// Build the carver signature for this spec, borrowing its buffers. The spec must outlive the scan that
    /// uses the signature.
    pub fn to_signature(&self) -> (r: Signature<'_>)
        ensures
            lends(r, self@),
    {
        let extent = match &self.length {
            Length::Fixed(size) => Extent::Fixed { size: *size },
            Length::SizeField { offset, width, big_endian, mul, add } => Extent::SizeField {
                offset: *offset,
                width: *width,
                big_endian: *big_endian,
                mul: *mul,
                add: *add,
            },
            Length::Footer { marker, trailing } => Extent::Footer {
                marker: marker.as_slice(),
                trailing: *trailing,
            },
        };
        let secondary = match &self.secondary {
            Some(x) => Some((x.0, x.1.as_slice())),
            None => None,
        };
        Signature {
            name: self.name.as_str(),
            ext: self.ext.as_str(),
            magic: self.magic.as_slice(),
            magic_offset: self.magic_offset,
            secondary,
            extent,
            max_size: self.max_size,
            volume: false,
        }
    }
}

/// The specs of the first `n` items, or what is wrong with the first that is wrong.
pub open spec fn specs_in(items: Seq<Json>, n: int) -> Result<Seq<SpecRule>, Seq<char>>
    decreases n,
{
    if n <= 0 {
        Ok(Seq::empty())
    } else {
        match specs_in(items, n - 1) {
            Err(e) => Err(e),
            Ok(v) => match spec_in(items[n - 1]) {
                Err(e) => Err(
                    "custom_carvers["@ + numeral((n - 1) as nat, 10, 1) + "]: "@ + e,
                ),
                Ok(x) => Ok(v.push(x)),
            },
        }
    }
}

/// The specs that a value gives.
pub open spec fn all_specs_in(value: Json) -> Result<Seq<SpecRule>, Seq<char>> {
    match value {
        Json::Array(items) => specs_in(items@, items@.len() as int),
        _ => Err("custom_carvers must be an array"@),
    }
}

/// What specs say.
pub open spec fn rules(v: Seq<Spec>) -> Seq<SpecRule> {
    v.map_values(|s: Spec| s@)
}

/// The first fault stands.
proof fn lemma_specs_fail(items: Seq<Json>, k: int, n: int)
    requires
        0 <= k <= n,
        specs_in(items, k) is Err,
    ensures
        specs_in(items, n) == specs_in(items, k),
    decreases n - k,
{
    if k < n {
        lemma_specs_fail(items, k, n - 1);
    }
}

/// Parse an array of custom-carver specs. Each becomes a signature with [`Spec::to_signature`] for as long
/// as the spec lives. Returns a descriptive error identifying the offending entry.
pub fn from_json(value: &Json) -> (r: Result<Vec<Spec>, String>)
    ensures
        match r {
            Ok(v) => all_specs_in(*value) == Ok::<Seq<SpecRule>, Seq<char>>(rules(v@)),
            Err(e) => all_specs_in(*value) == Err::<Seq<SpecRule>, Seq<char>>(e@),
        },
{
    let items = match value.as_array() {
        Some(items) => items,
        None => {
            return Err(String::from_str("custom_carvers must be an array"));
        },
    };
    let mut out: Vec<Spec> = Vec::new();
    let mut i: usize = 0;
    assert(rules(out@) =~= Seq::empty());
    while i < items.len()
        invariant
            i <= items.len(),
            *value == Json::Array(*items),
            specs_in(items@, i as int) == Ok::<Seq<SpecRule>, Seq<char>>(rules(out@)),
        decreases items.len() - i,
    {
        match Spec::parse(&items[i]) {
            Ok(spec) => {
                let ghost before = out@;
                out.push(spec);
                assert(rules(out@) =~= rules(before).push(spec@));
            },
            Err(e) => {
                let mut s = String::from_str("custom_carvers[");
                push_numeral(&mut s, i as u64, 10, 1);
                s.append("]: ");
                s.append(e.as_str());
                proof {
                    lemma_specs_fail(items@, i + 1, items@.len() as int);
                }
                return Err(s);
            },
        }
        i += 1;
    }
    Ok(out)
}

/// A spec that is accepted is valid.
pub proof fn law_accepted_is_valid(item: Json)
    ensures
        spec_in(item) matches Ok(s) ==> is_valid(s),
{
}

/// The signature of a valid spec can be carved: its length rule is one that can be followed.
pub proof fn law_valid_is_carvable(s: SpecRule, sig: Signature)
    requires
        is_valid(s),
        lends(sig, s),
    ensures
        sig.extent.wf(),
        sig.magic@.len() > 0,
        0 < sig.max_size <= MAX_SIZE_CAP,
{
}

/// Specs are accepted all together or not at all: as many as there are items, in their order, and each is
/// what its item gives.
pub proof fn law_all_or_nothing(items: Seq<Json>, n: int)
    requires
        0 <= n <= items.len(),
    ensures
        specs_in(items, n) is Ok <==> forall|i: int|
            0 <= i < n ==> spec_in(#[trigger] items[i]) is Ok,
        specs_in(items, n) matches Ok(v) ==> v.len() == n && forall|i: int|
            0 <= i < n ==> spec_in(items[i]) == Ok::<SpecRule, Seq<char>>(#[trigger] v[i]),
    decreases n,
{
    if n > 0 {
        law_all_or_nothing(items, n - 1);
        if specs_in(items, n) is Ok {
            let v = specs_in(items, n)->Ok_0;
            let w = specs_in(items, n - 1)->Ok_0;
            assert(v == w.push(v.last()));
            assert forall|i: int| 0 <= i < n implies spec_in(items[i]) == Ok::<SpecRule, Seq<char>>(
                #[trigger] v[i],
            ) by {
                if i < n - 1 {
                    assert(v[i] == w[i]);
                }
            }
            assert forall|i: int| 0 <= i < n implies spec_in(#[trigger] items[i]) is Ok by {
                assert(spec_in(items[i]) == Ok::<SpecRule, Seq<char>>(v[i]));
            }
        } else if forall|i: int| 0 <= i < n ==> spec_in(#[trigger] items[i]) is Ok {
            assert(spec_in(items[n - 1]) is Ok);
        }
    }
}

/// The two digits of a byte.
proof fn lemma_byte_text(b: u8)
    ensures
        numeral(b as nat, 16, 2) == seq![digit_char(b as int / 16), digit_char(b as int % 16)],
{
    reveal_with_fuel(numeral, 4);
    assert(b as nat / 16 < 16);
    assert(numeral(b as nat, 16, 2) =~= seq![
        digit_char(b as int / 16),
        digit_char(b as int % 16),
    ]);
}

/// The digits of bytes.
proof fn lemma_hex_text(d: Seq<u8>)
    ensures
        hex_text(d).len() == 2 * d.len(),
        forall|i: int|
            0 <= i < d.len() ==> hex_text(d)[2 * i] == digit_char(#[trigger] d[i] as int / 16)
                && hex_text(d)[2 * i + 1] == digit_char(d[i] as int % 16),
    decreases d.len(),
{
    if d.len() > 0 {
        lemma_hex_text(d.drop_last());
        lemma_byte_text(d.last());
        assert forall|i: int| 0 <= i < d.len() implies hex_text(d)[2 * i] == digit_char(
            #[trigger] d[i] as int / 16,
        ) && hex_text(d)[2 * i + 1] == digit_char(d[i] as int % 16) by {
            if i < d.len() - 1 {
                assert(d.drop_last()[i] == d[i]);
            }
        }
    }
}

/// Text without separators.
proof fn lemma_unseparated(s: Seq<u8>, n: int)
    requires
        0 <= n <= s.len(),
        forall|i: int| 0 <= i < n ==> !is_separator(#[trigger] s[i]),
    ensures
        unseparated(s, n) == s.take(n),
    decreases n,
{
    if n > 0 {
        lemma_unseparated(s, n - 1);
    }
    assert(unseparated(s, n) =~= s.take(n));
}

/// Bytes that are written in hexadecimal are read back.
pub proof fn law_hex_reads_back(d: Seq<u8>)
    ensures
        hex_in(hex_text(d)) == Ok::<Seq<u8>, Seq<char>>(d),
{
    reveal_strlit("0123456789abcdef");
    lemma_hex_text(d);
    let t = hex_text(d);
    assert forall|k: int| 0 <= k < t.len() implies ('0' <= #[trigger] t[k] <= '9' || 'a' <= t[k] <= 'f')
        by {
        let i = k / 2;
        assert(d[i] as int / 16 < 16);
        assert(k == 2 * i || k == 2 * i + 1);
    }
    is_ascii_chars_encode_utf8(t);
    let s = encode_utf8(t);
    assert forall|k: int| 0 <= k < s.len() implies !is_separator(#[trigger] s[k]) && s[k] != 0x78
        && s[k] != 0x58 by {
        assert(s[k] == t[k] as u8);
    }
    lemma_unseparated(s, s.len() as int);
    assert(hex_digits(t) =~= s);
    assert forall|i: int| 0 <= i < d.len() implies digit(s[2 * i], 16) == Some(
        #[trigger] d[i] as int / 16,
    ) && digit(s[2 * i + 1], 16) == Some(d[i] as int % 16) by {
        assert(s[2 * i] == t[2 * i] as u8);
        assert(s[2 * i + 1] == t[2 * i + 1] as u8);
    }
    lemma_pairs(s, d, d.len() as int);
    assert(d.take(d.len() as int) =~= d);
}

/// A character that may stand between hexadecimal digits.
pub open spec fn separates(c: char) -> bool {
    c == ' ' || c == '\t' || c == '\n' || c == '\u{c}' || c == '\r' || c == ':'
}

/// The first `n` characters without those that separate.
pub open spec fn stripped(t: Seq<char>, n: int) -> Seq<char>
    decreases n,
{
    if n <= 0 {
        Seq::empty()
    } else if separates(t[n - 1]) {
        stripped(t, n - 1)
    } else {
        stripped(t, n - 1).push(t[n - 1])
    }
}

/// What a hexadecimal digit stands for, in either case.
pub open spec fn digit_value(c: char) -> Option<int> {
    if '0' <= c <= '9' {
        Some(c as int - '0' as int)
    } else if 'a' <= c <= 'f' {
        Some(c as int - 'a' as int + 10)
    } else if 'A' <= c <= 'F' {
        Some(c as int - 'A' as int + 10)
    } else {
        None
    }
}

/// `x` is each byte of `d` in two hexadecimal digits.
pub open spec fn spells(x: Seq<char>, d: Seq<u8>) -> bool {
    &&& x.len() == 2 * d.len()
    &&& forall|i: int|
        0 <= i < d.len() ==> digit_value(x[2 * i]) == Some(#[trigger] d[i] as int / 16) && digit_value(
            x[2 * i + 1],
        ) == Some(d[i] as int % 16)
}

/// Text that is plain but for what separates is plain.
proof fn lemma_stripped_plain(t: Seq<char>, n: int)
    requires
        0 <= n <= t.len(),
        forall|i: int| 0 <= i < stripped(t, n).len() ==> '\0' <= #[trigger] stripped(t, n)[i] <= '~',
    ensures
        forall|i: int| 0 <= i < n ==> '\0' <= #[trigger] t[i] <= '~',
    decreases n,
{
    if n > 0 {
        let x = stripped(t, n);
        let y = stripped(t, n - 1);
        if !separates(t[n - 1]) {
            assert(x[y.len() as int] == t[n - 1]);
        }
        assert forall|i: int| 0 <= i < y.len() implies '\0' <= #[trigger] y[i] <= '~' by {
            assert(x[i] == y[i]);
        }
        lemma_stripped_plain(t, n - 1);
    }
}

/// The bytes of plain text without those that separate.
proof fn lemma_stripped(t: Seq<char>, s: Seq<u8>, n: int)
    requires
        0 <= n <= t.len() == s.len(),
        forall|i: int| 0 <= i < t.len() ==> '\0' <= #[trigger] t[i] <= '~',
        forall|i: int| 0 <= i < t.len() ==> #[trigger] s[i] == t[i] as u8,
    ensures
        unseparated(s, n).len() == stripped(t, n).len(),
        forall|i: int|
            0 <= i < stripped(t, n).len() ==> #[trigger] unseparated(s, n)[i] == stripped(t, n)[i] as u8,
    decreases n,
{
    if n > 0 {
        lemma_stripped(t, s, n - 1);
        assert('\0' <= t[n - 1] <= '~');
        assert(s[n - 1] == t[n - 1] as u8);
        assert(is_separator(s[n - 1]) == separates(t[n - 1]));
    }
}

/// Bytes that are written in hexadecimal are read back, whatever the case of the digits, wherever white space and
/// colons stand between them, and with `0x` before them or not.
pub proof fn law_hex_forms_read_back(t: Seq<char>, d: Seq<u8>)
    requires
        ({
            let x = stripped(t, t.len() as int);
            spells(x, d) || (x.len() >= 2 && x[0] == '0' && (x[1] == 'x' || x[1] == 'X') && spells(
                x.skip(2),
                d,
            ))
        }),
    ensures
        hex_in(t) == Ok::<Seq<u8>, Seq<char>>(d),
{
    let x = stripped(t, t.len() as int);
    let skip: int = if spells(x, d) {
        0
    } else {
        2
    };
    let y = x.skip(skip);
    assert(spells(x, d) ==> y =~= x);
    assert forall|k: int| 0 <= k < y.len() implies digit_value(#[trigger] y[k]) is Some by {
        let i = k / 2;
        assert(0 <= i < d.len());
        assert(digit_value(y[2 * i]) == Some(d[i] as int / 16));
        assert(k == 2 * i || k == 2 * i + 1);
    }
    assert forall|k: int| 0 <= k < x.len() implies '\0' <= #[trigger] x[k] <= '~' by {
        if k >= skip {
            assert(x[k] == y[k - skip]);
        }
    }
    lemma_stripped_plain(t, t.len() as int);
    assert(is_ascii_chars(t));
    is_ascii_chars_encode_utf8(t);
    let s = encode_utf8(t);
    lemma_stripped(t, s, t.len() as int);
    let u = unseparated(s, s.len() as int);
    let digits = hex_digits(t);
    if skip == 0 && u.len() >= 2 {
        assert(digit_value(y[1]) is Some);
        assert(u[1] == x[1] as u8);
    }
    if skip == 2 {
        assert(u[0] == x[0] as u8 && u[1] == x[1] as u8);
    }
    assert(digits =~= u.skip(skip));
    assert forall|i: int| 0 <= i < d.len() implies digit(digits[2 * i], 16) == Some(
        #[trigger] d[i] as int / 16,
    ) && digit(digits[2 * i + 1], 16) == Some(d[i] as int % 16) by {
        assert(digits[2 * i] == u[2 * i + skip] == x[2 * i + skip] as u8 == y[2 * i] as u8);
        assert(digits[2 * i + 1] == u[2 * i + 1 + skip] == x[2 * i + 1 + skip] as u8 == y[2 * i + 1] as u8);
    }
    lemma_pairs(digits, d, d.len() as int);
    assert(d.take(d.len() as int) =~= d);
}

/// Pairs of digits make bytes.
proof fn lemma_pairs(s: Seq<u8>, d: Seq<u8>, n: int)
    requires
        0 <= n <= d.len(),
        s.len() == 2 * d.len(),
        forall|i: int|
            0 <= i < d.len() ==> digit(s[2 * i], 16) == Some(#[trigger] d[i] as int / 16) && digit(
                s[2 * i + 1],
                16,
            ) == Some(d[i] as int % 16),
    ensures
        pairs(s, n) == Ok::<Seq<u8>, Seq<char>>(d.take(n)),
    decreases n,
{
    if n > 0 {
        lemma_pairs(s, d, n - 1);
        let b = d[n - 1];
        assert((b as int / 16) * 16 + b as int % 16 == b);
        assert(d.take(n) =~= d.take(n - 1).push(b));
    } else {
        assert(d.take(0) =~= Seq::empty());
    }
}

} // verus!
