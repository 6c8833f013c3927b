//! What a checkpoint gives back of the scan it was written of.

use crate::bytes::{byte_at_or_after, token_end};
use crate::carver::checkpoint::{
    checkpoint_text, count_lines, file_in, file_line, file_lines, hex_byte, hex_bytes,
    is_word, known_ext, nothing_saved, number_line, saved_in, second_number, seen_lines, with_line,
    with_lines, words, Saved,
};
use crate::carver::engine::{
    digests, file_name, law_scan_in_parts, record, records, tally, CarveStats, Checkpoint, FileRecord, Run,
    ScanState, Tally, Verdict,
};
use crate::carver::scan::{first_pos, first_state, fresh_state, scan_end, scan_start, Scan};
use crate::signatures::Signature;
use crate::strings::{digit_char, hex_text, numeral};
use crate::text::{digit, digits_end, digits_value, number_in, space_at, space_before, space_start, trimmed};
use crate::utf8::{lemma_encode_add, lemma_encode_lacks, lemma_encode_len};
use vstd::prelude::*;
use vstd::string::*;
use vstd::utf8::*;

verus! {

/// A character that can be seen, and is one byte.
pub open spec fn is_graphic(c: char) -> bool {
    '!' <= c <= '~'
}

/// A word that can be seen.
pub open spec fn is_plain(t: Seq<char>) -> bool {
    t.len() > 0 && forall|i: int| 0 <= i < t.len() ==> is_graphic(#[trigger] t[i])
}

/// The bytes of text in which every character is one.
pub open spec fn latin(t: Seq<char>) -> Seq<u8> {
    Seq::new(t.len(), |i: int| t[i] as u8)
}

/// Where a byte is found.
proof fn lemma_found(s: Seq<u8>, i: int, e: int, b: u8)
    requires
        0 <= i <= e <= s.len(),
        forall|k: int| i <= k < e ==> #[trigger] s[k] != b,
        e < s.len() ==> s[e] == b,
    ensures
        token_end(s, i, b) == e,
        byte_at_or_after(s, i, b) == (if e < s.len() {
            Some(e)
        } else {
            None
        }),
    decreases e - i,
{
    if i < e {
        lemma_found(s, i + 1, e, b);
    }
}

/// Looking for a byte does not depend on what comes before.
proof fn lemma_token_shift(s: Seq<u8>, i: int, j: int, b: u8)
    requires
        0 <= j <= i <= s.len(),
    ensures
        token_end(s, i, b) == token_end(s.skip(j), i - j, b) + j,
        i <= token_end(s, i, b) <= s.len(),
    decreases s.len() - i,
{
    if i < s.len() && s[i] != b {
        lemma_token_shift(s, i + 1, j, b);
        assert(s.skip(j)[i - j] == s[i]);
    } else if i < s.len() {
        assert(s.skip(j)[i - j] == s[i]);
    }
}

/// What lines say does not depend on what comes before.
proof fn lemma_lines_shift(known: Seq<Signature>, p: Saved, s: Seq<u8>, i: int, j: int)
    requires
        0 <= j <= i <= s.len(),
    ensures
        with_lines(known, p, s, i) == with_lines(known, p, s.skip(j), i - j),
    decreases s.len() - i,
{
    lemma_token_shift(s, i, j, 0x0A);
    let e = token_end(s, i, 0x0A);
    assert(s.subrange(i, e) =~= s.skip(j).subrange(i - j, e - j));
    if e < s.len() {
        let next = with_line(known, p, s.subrange(i, e));
        lemma_lines_shift(known, next, s, e + 1, j);
    }
}

/// The words of a line do not depend on what comes before.
proof fn lemma_words_shift(l: Seq<u8>, i: int, j: int, n: nat)
    requires
        0 <= j <= i <= l.len(),
    ensures
        words(l, i, n) == words(l.skip(j), i - j, n),
    decreases n,
{
    lemma_token_shift(l, i, j, 0x20);
    let e = token_end(l, i, 0x20);
    assert(l.subrange(i, e) =~= l.skip(j).subrange(i - j, e - j));
    assert(l.subrange(i, l.len() as int) =~= l.skip(j).subrange(i - j, l.len() - j));
    if n > 1 && e < l.len() {
        lemma_words_shift(l, e + 1, j, (n - 1) as nat);
    }
}

/// The first word of a line, and the rest.
proof fn lemma_first_word(w: Seq<u8>, rest: Seq<u8>, n: nat)
    requires
        n > 1,
        forall|k: int| 0 <= k < w.len() ==> #[trigger] w[k] != 0x20,
    ensures
        words(w + seq![0x20u8] + rest, 0, n) == seq![w] + words(rest, 0, (n - 1) as nat),
{
    let l = w + seq![0x20u8] + rest;
    let e = w.len() as int;
    assert(l[e] == 0x20);
    assert forall|k: int| 0 <= k < e implies #[trigger] l[k] != 0x20 by {
        assert(l[k] == w[k]);
    }
    lemma_found(l, 0, e, 0x20);
    assert(l.subrange(0, e) =~= w);
    lemma_words_shift(l, e + 1, e + 1, (n - 1) as nat);
    assert(l.skip(e + 1) =~= rest);
}

/// The last word of a line.
proof fn lemma_last_word(w: Seq<u8>, n: nat)
    requires
        n <= 1 || forall|k: int| 0 <= k < w.len() ==> #[trigger] w[k] != 0x20,
    ensures
        words(w, 0, n) == seq![w],
{
    if n > 1 {
        lemma_found(w, 0, w.len() as int, 0x20);
    }
    assert(w.subrange(0, w.len() as int) =~= w);
}

/// A line that begins and ends with what can be seen has no white space round it.
proof fn lemma_trimmed(l: Seq<u8>)
    requires
        l.len() > 0,
        0x21 <= l[0] <= 0x7E,
        0x21 <= l.last() <= 0x7E,
    ensures
        trimmed(l) == l,
{
    let n = l.len() as int;
    assert(space_at(l, 0) == 0);
    assert(l.take(n) =~= l);
    assert(space_before(l, n) == 0);
    assert(l.subrange(0, n) =~= l);
}

/// After the lines `x` of a checkpoint, what was known to be `p` is known to be `q`.
spec fn reads(known: Seq<Signature>, p: Saved, x: Seq<char>, q: Saved) -> bool {
    forall|y: Seq<u8>| #[trigger]
        with_lines(known, p, encode_utf8(x) + y, 0) == with_lines(known, q, y, 0)
}

proof fn lemma_reads_both(
    known: Seq<Signature>,
    p: Saved,
    x: Seq<char>,
    q: Saved,
    y: Seq<char>,
    r: Saved,
)
    requires
        reads(known, p, x, q),
        reads(known, q, y, r),
    ensures
        reads(known, p, x + y, r),
{
    lemma_encode_add(x, y);
    assert forall|z: Seq<u8>| #[trigger]
        with_lines(known, p, encode_utf8(x + y) + z, 0) == with_lines(known, r, z, 0) by {
        assert(encode_utf8(x + y) + z =~= encode_utf8(x) + (encode_utf8(y) + z));
        assert(with_lines(known, q, encode_utf8(y) + z, 0) == with_lines(known, r, z, 0));
    }
}

/// No lines.
proof fn lemma_reads_nothing(known: Seq<Signature>, p: Saved)
    ensures
        reads(known, p, Seq::empty(), p),
{
    assert forall|y: Seq<u8>| #[trigger]
        with_lines(known, p, encode_utf8(Seq::empty()) + y, 0) == with_lines(known, p, y, 0) by {
        assert(encode_utf8(Seq::empty()) + y =~= y);
    }
}

/// One line.
proof fn lemma_reads_line(known: Seq<Signature>, p: Saved, line: Seq<char>)
    requires
        !line.contains('\n'),
    ensures
        reads(known, p, line + "\n"@, with_line(known, p, encode_utf8(line))),
{
    reveal_strlit("\n");
    lemma_encode_lacks(line, '\n');
    lemma_latin("\n"@);
    lemma_encode_add(line, "\n"@);
    let l = encode_utf8(line);
    let q = with_line(known, p, l);
    assert forall|y: Seq<u8>| #[trigger]
        with_lines(known, p, encode_utf8(line + "\n"@) + y, 0) == with_lines(known, q, y, 0) by {
        let s = encode_utf8(line + "\n"@) + y;
        let e = l.len() as int;
        assert(s[e] == latin("\n"@)[0]);
        assert forall|k: int| 0 <= k < e implies #[trigger] s[k] != 0x0A by {
            assert(s[k] == l[k]);
            assert(l.contains(l[k]));
        }
        lemma_found(s, 0, e, 0x0A);
        assert(s.subrange(0, e) =~= l);
        lemma_lines_shift(known, q, s, e + 1, e + 1);
        assert(s.skip(e + 1) =~= y);
    }
}

/// One line of characters that are one byte each.
proof fn lemma_reads_latin(known: Seq<Signature>, p: Saved, line: Seq<char>)
    requires
        forall|i: int| 0 <= i < line.len() ==> ' ' <= #[trigger] line[i] <= '~',
    ensures
        reads(known, p, line + "\n"@, with_line(known, p, latin(line))),
{
    assert(!line.contains('\n'));
    lemma_latin(line);
    lemma_reads_line(known, p, line);
}

/// The digits of a number.
proof fn lemma_digit_char(d: int, radix: int)
    requires
        0 <= d < radix <= 16,
    ensures
        is_graphic(digit_char(d)),
        digit(digit_char(d) as u8, radix) == Some(d),
        digit_char(d) != '+',
{
    reveal_strlit("0123456789abcdef");
}

/// A number that is written out reads as that number.
proof fn lemma_numeral(n: nat, radix: nat, width: nat)
    requires
        2 <= radix <= 16,
    ensures
        ({
            let t = numeral(n, radix, width);
            &&& is_plain(t)
            &&& t.len() >= width
            &&& forall|i: int| 0 <= i < t.len() ==> digit(#[trigger] t[i] as u8, radix as int) is Some && t[i] != '+'
            &&& digits_value(latin(t), 0, t.len() as int, radix as int) == n
        }),
    decreases n, width,
{
    let t = numeral(n, radix, width);
    if n < radix && width <= 1 {
        lemma_digit_char(n as int, radix as int);
        assert(t =~= seq![digit_char(n as int)]);
        reveal_with_fuel(digits_value, 2);
    } else {
        if n > 0 {
            vstd::arithmetic::div_mod::lemma_div_decreases(n as int, radix as int);
        } else {
            vstd::arithmetic::div_mod::lemma_div_basics(radix as int);
        }
        vstd::arithmetic::div_mod::lemma_mod_bound(n as int, radix as int);
        vstd::arithmetic::div_mod::lemma_fundamental_div_mod(n as int, radix as int);
        let less = if width == 0 {
            0
        } else {
            (width - 1) as nat
        };
        let head = numeral(n / radix, radix, less);
        let d = (n % radix) as int;
        lemma_numeral(n / radix, radix, less);
        lemma_digit_char(d, radix as int);
        assert(t == head.push(digit_char(d)));
        assert forall|i: int| 0 <= i < t.len() implies digit(#[trigger] t[i] as u8, radix as int) is Some && t[i]
            != '+' by {
            if i < head.len() {
                assert(t[i] == head[i]);
            }
        }
        assert forall|i: int| 0 <= i < t.len() implies is_graphic(#[trigger] t[i]) by {
            if i < head.len() {
                assert(t[i] == head[i]);
            }
        }
        lemma_digits_prefix(latin(head), latin(t), head.len() as int, radix as int);
        assert(latin(t)[head.len() as int] == digit_char(d) as u8);
        let v = (n / radix) as int;
        assert(v * radix == radix * v) by (nonlinear_arith);
    }
}

/// What digits stand for does not depend on what follows.
proof fn lemma_digits_prefix(a: Seq<u8>, b: Seq<u8>, e: int, radix: int)
    requires
        0 <= e <= a.len(),
        e <= b.len(),
        forall|i: int| 0 <= i < e ==> a[i] == b[i],
    ensures
        digits_value(a, 0, e, radix) == digits_value(b, 0, e, radix),
    decreases e,
{
    if e > 0 {
        lemma_digits_prefix(a, b, e - 1, radix);
    }
}

/// Digits up to the end.
proof fn lemma_all_digits(s: Seq<u8>, i: int, radix: int)
    requires
        0 <= i <= s.len(),
        forall|k: int| i <= k < s.len() ==> digit(#[trigger] s[k], radix) is Some,
    ensures
        digits_end(s, i, radix) == s.len(),
    decreases s.len() - i,
{
    if i < s.len() {
        lemma_all_digits(s, i + 1, radix);
    }
}

/// A number of 64 bits that is written out is read back.
proof fn lemma_number_back(n: u64, radix: nat, width: nat)
    requires
        2 <= radix <= 16,
    ensures
        number_in(latin(numeral(n as nat, radix, width)), radix as int) == Some(n as int),
        is_plain(numeral(n as nat, radix, width)),
{
    lemma_numeral(n as nat, radix, width);
    let t = numeral(n as nat, radix, width);
    let s = latin(t);
    assert forall|k: int| 0 <= k < s.len() implies digit(#[trigger] s[k], radix as int) is Some by {
        assert(digit(t[k] as u8, radix as int) is Some);
    }
    assert(is_graphic(t[0]) && t[0] != '+');
    assert(s[0] != 0x2B);
    lemma_all_digits(s, 0, radix as int);
}

/// A byte is two digits.
proof fn lemma_byte_digits(b: u8)
    ensures
        numeral(b as nat, 16, 2).len() == 2,
{
    reveal_with_fuel(numeral, 4);
    assert(b as nat / 16 < 16);
}

/// The digits of bytes are read back.
proof fn lemma_hex_back(d: Seq<u8>)
    ensures
        hex_text(d).len() == 2 * d.len(),
        forall|i: int| 0 <= i < hex_text(d).len() ==> is_graphic(#[trigger] hex_text(d)[i]),
        forall|i: int|
            0 <= i < d.len() ==> #[trigger] hex_byte(latin(hex_text(d)), i) == Some(d[i] as int),
    decreases d.len(),
{
    if d.len() > 0 {
        let head = d.drop_last();
        let x = numeral(d.last() as nat, 16, 2);
        lemma_hex_back(head);
        lemma_byte_digits(d.last());
        lemma_numeral(d.last() as nat, 16, 2);
        let t = hex_text(d);
        assert(t == hex_text(head) + x);
        assert forall|i: int| 0 <= i < t.len() implies is_graphic(#[trigger] t[i]) by {
            if i < hex_text(head).len() {
                assert(t[i] == hex_text(head)[i]);
            } else {
                assert(t[i] == x[i - hex_text(head).len()]);
            }
        }
        assert forall|i: int| 0 <= i < d.len() implies #[trigger] hex_byte(latin(t), i) == Some(
            d[i] as int,
        ) by {
            if i < head.len() {
                let w = latin(hex_text(head));
                assert(hex_byte(w, i) == Some(head[i] as int));
                assert(latin(t)[2 * i] == w[2 * i] && latin(t)[2 * i + 1] == w[2 * i + 1]);
            } else {
                reveal_with_fuel(digits_value, 4);
                assert(digit(x[0] as u8, 16) is Some && digit(x[1] as u8, 16) is Some);
                assert(latin(t)[2 * i] == latin(x)[0] && latin(t)[2 * i + 1] == latin(x)[1]);
            }
        }
    }
}

/// The digits of a digest are read back.
proof fn lemma_digest_back(d: Seq<u8>)
    requires
        d.len() == 32,
    ensures
        hex_bytes(latin(hex_text(d)), 32) == Some(d),
        is_plain(hex_text(d)),
{
    lemma_hex_back(d);
    let w = latin(hex_text(d));
    assert forall|i: int| 0 <= i < 32 implies #[trigger] hex_byte(w, i) is Some by {}
    assert(hex_bytes(w, 32)->Some_0 =~= d);
}

/// The bytes of a plain word hold no space.
proof fn lemma_plain(t: Seq<char>)
    requires
        is_plain(t),
    ensures
        latin(t).len() == t.len(),
        forall|k: int| 0 <= k < t.len() ==> 0x21 <= #[trigger] latin(t)[k] <= 0x7E,
        forall|k: int| 0 <= k < t.len() ==> #[trigger] latin(t)[k] != 0x20,
        forall|k: int| 0 <= k < t.len() ==> ' ' <= #[trigger] t[k] <= '~',
{
    assert forall|k: int| 0 <= k < t.len() implies 0x21 <= #[trigger] latin(t)[k] <= 0x7E by {
        assert(is_graphic(t[k]));
    }
    assert forall|k: int| 0 <= k < t.len() implies ' ' <= #[trigger] t[k] <= '~' by {
        assert(is_graphic(t[k]));
    }
}

/// Two words, with a space between, as a line.
proof fn lemma_two_words(a: Seq<char>, b: Seq<char>)
    requires
        is_plain(a),
        is_plain(b),
    ensures
        words(trimmed(latin(a + " "@ + b)), 0, 6) == seq![latin(a), latin(b)],
        forall|i: int|
            0 <= i < (a + " "@ + b).len() ==> ' ' <= #[trigger] (a + " "@ + b)[i] <= '~',
{
    reveal_strlit(" ");
    lemma_plain(a);
    lemma_plain(b);
    let l = a + " "@ + b;
    let s = latin(l);
    assert(s =~= latin(a) + seq![0x20u8] + latin(b));
    assert(s[0] == latin(a)[0]);
    assert(s.last() == latin(b).last());
    lemma_trimmed(s);
    lemma_first_word(latin(a), latin(b), 6);
    lemma_last_word(latin(b), 5);
    assert(words(s, 0, 6) =~= seq![latin(a), latin(b)]);
}

/// A word is itself, and no other.
proof fn lemma_is_word(t: Seq<char>, u: Seq<char>)
    requires
        forall|i: int| 0 <= i < t.len() ==> ' ' <= #[trigger] t[i] <= '~',
        forall|i: int| 0 <= i < u.len() ==> ' ' <= #[trigger] u[i] <= '~',
    ensures
        is_word(latin(t), u) == (t == u),
{
    if is_word(latin(t), u) {
        assert forall|i: int| 0 <= i < t.len() implies t[i] == u[i] by {
            assert(latin(t)[0 + i] == u[i] as u32);
        }
        assert(t =~= u);
    }
}

/// The first words of the lines of a checkpoint can be told apart.
proof fn lemma_tags()
    ensures
        is_plain("pos"@),
        is_plain("end"@),
        is_plain("skip_until"@),
        is_plain("files"@),
        is_plain("bytes"@),
        is_plain("rejected"@),
        is_plain("duplicates"@),
        is_plain("seen"@),
        is_plain("file"@),
        "pos"@.len() == 3,
        "end"@.len() == 3,
        "skip_until"@.len() == 10,
        "files"@.len() == 5,
        "bytes"@.len() == 5,
        "rejected"@.len() == 8,
        "duplicates"@.len() == 10,
        "seen"@.len() == 4,
        "file"@.len() == 4,
        "pos"@ != "end"@,
        "skip_until"@ != "duplicates"@,
        "files"@ != "bytes"@,
        "seen"@ != "file"@,
{
    reveal_strlit("pos");
    reveal_strlit("end");
    reveal_strlit("skip_until");
    reveal_strlit("files");
    reveal_strlit("bytes");
    reveal_strlit("rejected");
    reveal_strlit("duplicates");
    reveal_strlit("seen");
    reveal_strlit("file");
    assert("pos"@[0] != "end"@[0]);
    assert("skip_until"@[0] != "duplicates"@[0]);
    assert("files"@[0] != "bytes"@[0]);
    assert("seen"@[0] != "file"@[0]);
}

/// Which tag a word is.
proof fn lemma_tag(t: Seq<char>)
    requires
        is_plain(t),
    ensures
        is_word(latin(t), "pos"@) == (t == "pos"@),
        is_word(latin(t), "skip_until"@) == (t == "skip_until"@),
        is_word(latin(t), "files"@) == (t == "files"@),
        is_word(latin(t), "bytes"@) == (t == "bytes"@),
        is_word(latin(t), "rejected"@) == (t == "rejected"@),
        is_word(latin(t), "duplicates"@) == (t == "duplicates"@),
        is_word(latin(t), "seen"@) == (t == "seen"@),
        is_word(latin(t), "file"@) == (t == "file"@),
{
    lemma_tags();
    lemma_plain(t);
    lemma_plain("pos"@);
    lemma_plain("skip_until"@);
    lemma_plain("files"@);
    lemma_plain("bytes"@);
    lemma_plain("rejected"@);
    lemma_plain("duplicates"@);
    lemma_plain("seen"@);
    lemma_plain("file"@);
    lemma_is_word(t, "pos"@);
    lemma_is_word(t, "skip_until"@);
    lemma_is_word(t, "files"@);
    lemma_is_word(t, "bytes"@);
    lemma_is_word(t, "rejected"@);
    lemma_is_word(t, "duplicates"@);
    lemma_is_word(t, "seen"@);
    lemma_is_word(t, "file"@);
}

/// What a line says that gives a number.
spec fn with_number(p: Saved, tag: Seq<char>, v: int) -> Saved {
    if tag == "pos"@ {
        Saved { pos: v, ..p }
    } else if tag == "skip_until"@ {
        Saved { skip_until: v, ..p }
    } else if tag == "files"@ {
        Saved { tally: Tally { files: v, ..p.tally }, ..p }
    } else if tag == "bytes"@ {
        Saved { tally: Tally { bytes: v, ..p.tally }, ..p }
    } else if tag == "rejected"@ {
        Saved { tally: Tally { rejected: v, ..p.tally }, ..p }
    } else if tag == "duplicates"@ {
        Saved { tally: Tally { duplicates: v, ..p.tally }, ..p }
    } else {
        p
    }
}

proof fn lemma_number_line(known: Seq<Signature>, p: Saved, tag: Seq<char>, v: u64)
    requires
        is_plain(tag),
        tag != "seen"@,
        tag != "file"@,
    ensures
        reads(known, p, number_line(tag, v as nat), with_number(p, tag, v as int)),
{
    let x = numeral(v as nat, 10, 1);
    lemma_number_back(v, 10, 1);
    lemma_two_words(tag, x);
    lemma_tag(tag);
    let line = tag + " "@ + x;
    lemma_reads_latin(known, p, line);
    let w = words(trimmed(latin(line)), 0, 6);
    assert(w[0] == latin(tag) && w[1] == latin(x));
    assert(second_number(w, p.pos) == v);
    assert(with_line(known, p, latin(line)) == with_number(p, tag, v as int));
}

/// The digests of lines that give digests.
spec fn with_seen(p: Saved, seen: Seq<[u8; 32]>) -> Saved {
    Saved { seen: p.seen + seen.map_values(|d: [u8; 32]| d@), ..p }
}

proof fn lemma_seen_lines(known: Seq<Signature>, p: Saved, seen: Seq<[u8; 32]>)
    ensures
        reads(known, p, seen_lines(seen), with_seen(p, seen)),
    decreases seen.len(),
{
    if seen.len() == 0 {
        assert(with_seen(p, seen) =~= p);
        lemma_reads_nothing(known, p);
    } else {
        let head = seen.drop_last();
        lemma_seen_lines(known, p, head);
        let q = with_seen(p, head);
        let d = seen.last()@;
        let x = hex_text(d);
        lemma_digest_back(d);
        lemma_tags();
        lemma_tag("seen"@);
        lemma_two_words("seen"@, x);
        let line = "seen"@ + " "@ + x;
        lemma_reads_latin(known, q, line);
        reveal_strlit("seen");
        reveal_strlit("seen ");
        reveal_strlit(" ");
        assert("seen"@ + " "@ =~= "seen "@);
        let w = words(trimmed(latin(line)), 0, 6);
        assert(w[0] == latin("seen"@) && w[1] == latin(x));
        let r = with_line(known, q, latin(line));
        assert(r == (Saved { seen: q.seen.push(d), ..q }));
        assert(r =~= with_seen(p, seen));
        lemma_reads_both(known, p, seen_lines(head), q, "seen "@ + x + "\n"@, r);
    }
}

/// Text that can end a line: there is some, on one line, and what ends it is not white space.
pub open spec fn ends_a_line(t: Seq<char>) -> bool {
    &&& t.len() > 0
    &&& !t.contains('\n')
    &&& space_before(encode_utf8(t), encode_utf8(t).len() as int) == 0
}

/// A file that can be written down in a line: its name can end one, and its extension is one of those that are
/// known, and one word.
pub open spec fn is_listable(known: Seq<Signature>, f: FileRecord) -> bool {
    &&& ends_a_line(f.name)
    &&& !f.ext.contains(' ')
    &&& !f.ext.contains('\n')
    &&& known_ext(known, encode_utf8(f.ext))
    &&& f.digest.len() == 32
    &&& 0 <= f.offset <= u64::MAX
    &&& 0 <= f.size <= u64::MAX
}

/// The bytes of plain text.
proof fn lemma_latin(t: Seq<char>)
    requires
        forall|i: int| 0 <= i < t.len() ==> '\0' <= #[trigger] t[i] <= '~',
    ensures
        encode_utf8(t) == latin(t),
        valid_utf8(latin(t)),
        decode_utf8(latin(t)) == t,
{
    assert(is_ascii_chars(t));
    is_ascii_chars_encode_utf8(t);
    assert(encode_utf8(t) =~= latin(t));
    encode_utf8_valid_utf8(t);
    encode_utf8_decode_utf8(t);
}

/// A space between two pieces of text.
proof fn lemma_spaced(a: Seq<char>, b: Seq<char>)
    ensures
        latin(a + " "@ + b) == latin(a) + seq![0x20u8] + latin(b),
{
    reveal_strlit(" ");
    assert(latin(a + " "@ + b) =~= latin(a) + seq![0x20u8] + latin(b));
}

/// What can be in a line of several words.
proof fn lemma_line_chars(a: Seq<char>, b: Seq<char>)
    requires
        forall|i: int| 0 <= i < a.len() ==> ' ' <= #[trigger] a[i] <= '~',
        forall|i: int| 0 <= i < b.len() ==> ' ' <= #[trigger] b[i] <= '~',
    ensures
        forall|i: int|
            0 <= i < (a + " "@ + b).len() ==> ' ' <= #[trigger] (a + " "@ + b)[i] <= '~',
{
    reveal_strlit(" ");
}

/// A word before a line.
proof fn lemma_word_before(a: Seq<char>, rest: Seq<char>, n: nat)
    requires
        n > 1,
        is_plain(a),
        rest.len() > 0,
        forall|i: int| 0 <= i < rest.len() ==> ' ' <= #[trigger] rest[i] <= '~',
    ensures
        ({
            let line = a + " "@ + rest;
            &&& words(latin(line), 0, n) == seq![latin(a)] + words(latin(rest), 0, (n - 1) as nat)
            &&& forall|i: int| 0 <= i < line.len() ==> ' ' <= #[trigger] line[i] <= '~'
            &&& line.len() > 0
            &&& line[0] == a[0]
            &&& line.last() == rest.last()
        }),
{
    lemma_plain(a);
    lemma_spaced(a, rest);
    lemma_line_chars(a, rest);
    lemma_first_word(latin(a), latin(rest), n);
}

/// What comes before bytes of one character each does not change whether what follows ends in white space.
proof fn lemma_end(x: Seq<u8>, m: Seq<u8>)
    requires
        x.len() >= 2,
        x[x.len() - 1] < 0x80,
        x[x.len() - 2] < 0x80,
        m.len() > 0,
        space_before(m, m.len() as int) == 0,
    ensures
        space_before(x + m, (x + m).len() as int) == 0,
{
    let l = x + m;
    let n = l.len() as int;
    let d = x.len() as int;
    assert(l.take(n) =~= l);
    assert(m.take(m.len() as int) =~= m);
    assert(l[n - 1] == m[m.len() - 1]);
    if m.len() >= 2 {
        assert(l[n - 2] == m[m.len() - 2]);
    } else {
        assert(l[n - 2] == x[d - 1]);
    }
    if m.len() >= 3 {
        assert(l[n - 3] == m[m.len() - 3]);
    } else if m.len() == 2 {
        assert(l[n - 3] == x[d - 1]);
    } else {
        assert(l[n - 3] == x[d - 2]);
    }
}

/// Words with a space between each two, of which the last can end a line.
proof fn lemma_six_words(
    a: Seq<u8>,
    b: Seq<u8>,
    c: Seq<u8>,
    d: Seq<u8>,
    e: Seq<u8>,
    f: Seq<u8>,
)
    requires
        a.len() > 0,
        0x21 <= a[0] <= 0x7E,
        e.len() > 0,
        e.last() < 0x80,
        !a.contains(0x20u8),
        !b.contains(0x20u8),
        !c.contains(0x20u8),
        !d.contains(0x20u8),
        !e.contains(0x20u8),
        f.len() > 0,
        space_before(f, f.len() as int) == 0,
    ensures
        words(
            trimmed(
                a + seq![0x20u8] + b + seq![0x20u8] + c + seq![0x20u8] + d + seq![0x20u8] + e + seq![
                    0x20u8,
                ] + f,
            ),
            0,
            6,
        ) == seq![a, b, c, d, e, f],
{
    let g = seq![0x20u8];
    let t4 = e + g + f;
    let t3 = d + g + t4;
    let t2 = c + g + t3;
    let t1 = b + g + t2;
    let l = a + g + t1;
    let before = a + g + b + g + c + g + d + g + e + g;
    assert(l =~= before + f);
    assert(before.last() == 0x20 && before[before.len() - 2] == e.last());
    lemma_end(before, f);
    assert(l[0] == a[0]);
    assert(space_at(l, 0) == 0);
    assert(l.subrange(0, l.len() as int) =~= l);
    assert(trimmed(l) == l);
    assert forall|w: Seq<u8>, k: int| !w.contains(0x20u8) && 0 <= k < w.len() implies #[trigger] w[k]
        != 0x20 by {
        assert(w.contains(w[k]));
    }
    lemma_last_word(f, 1);
    lemma_first_word(e, f, 2);
    lemma_first_word(d, t4, 3);
    lemma_first_word(c, t3, 4);
    lemma_first_word(b, t2, 5);
    lemma_first_word(a, t1, 6);
    assert(words(l, 0, 6) =~= seq![a, b, c, d, e, f]);
}

/// The bytes of text, a space, and more text.
proof fn lemma_encode_spaced(a: Seq<char>, b: Seq<char>)
    ensures
        encode_utf8(a + " "@ + b) == encode_utf8(a) + seq![0x20u8] + encode_utf8(b),
{
    reveal_strlit(" ");
    lemma_latin(" "@);
    assert(latin(" "@) =~= seq![0x20u8]);
    lemma_encode_add(a, " "@);
    lemma_encode_add(a + " "@, b);
}

/// Text on one line, and more.
proof fn lemma_one_line(a: Seq<char>, b: Seq<char>)
    requires
        !a.contains('\n'),
        !b.contains('\n'),
    ensures
        !(a + " "@ + b).contains('\n'),
{
    reveal_strlit(" ");
    let t = a + " "@ + b;
    assert forall|i: int| 0 <= i < t.len() implies t[i] != '\n' by {
        if i < a.len() {
            assert(a.contains(a[i]));
        } else if i > a.len() {
            assert(b.contains(b[i - a.len() - 1]));
        }
    }
}

/// A plain word is on one line, and its bytes are plain.
proof fn lemma_plain_word(t: Seq<char>)
    requires
        is_plain(t),
    ensures
        !t.contains('\n'),
        encode_utf8(t) == latin(t),
        !latin(t).contains(0x20u8),
        latin(t).len() > 0,
        0x21 <= latin(t)[0] <= 0x7E,
        0x21 <= latin(t).last() <= 0x7E,
{
    lemma_plain(t);
    lemma_latin(t);
    assert forall|i: int| 0 <= i < t.len() implies t[i] != '\n' by {
        assert(is_graphic(t[i]));
    }
}

proof fn lemma_file_line(known: Seq<Signature>, p: Saved, f: FileRecord)
    requires
        is_listable(known, f),
    ensures
        reads(
            known,
            p,
            file_line(f),
            (Saved { tally: Tally { list: p.tally.list.push(f), ..p.tally }, ..p }),
        ),
{
    let tag = "file"@;
    let a = numeral(f.offset as nat, 10, 1);
    let b = numeral(f.size as nat, 10, 1);
    let h = hex_text(f.digest);
    lemma_number_back(f.offset as u64, 10, 1);
    lemma_number_back(f.size as u64, 10, 1);
    lemma_digest_back(f.digest);
    lemma_tags();
    lemma_tag(tag);
    lemma_plain_word(tag);
    lemma_plain_word(a);
    lemma_plain_word(b);
    lemma_plain_word(h);
    let l1 = tag + " "@ + f.ext;
    let l2 = l1 + " "@ + a;
    let l3 = l2 + " "@ + b;
    let l4 = l3 + " "@ + h;
    let line = l4 + " "@ + f.name;
    lemma_encode_spaced(tag, f.ext);
    lemma_encode_spaced(l1, a);
    lemma_encode_spaced(l2, b);
    lemma_encode_spaced(l3, h);
    lemma_encode_spaced(l4, f.name);
    lemma_one_line(tag, f.ext);
    lemma_one_line(l1, a);
    lemma_one_line(l2, b);
    lemma_one_line(l3, h);
    lemma_one_line(l4, f.name);
    lemma_encode_lacks(f.ext, ' ');
    lemma_encode_len(f.name);
    let ext = encode_utf8(f.ext);
    let name = encode_utf8(f.name);
    lemma_six_words(latin(tag), ext, latin(a), latin(b), latin(h), name);
    let w = words(trimmed(encode_utf8(line)), 0, 6);
    assert(w == seq![latin(tag), ext, latin(a), latin(b), latin(h), name]);
    encode_utf8_valid_utf8(f.name);
    encode_utf8_decode_utf8(f.name);
    encode_utf8_decode_utf8(f.ext);
    assert(w[0] == latin(tag) && w[1] == ext && w[2] == latin(a) && w[3] == latin(b) && w[4] == latin(h)
        && w[5] == name);
    assert(file_in(known, w) == Some(f));
    lemma_reads_line(known, p, line);
    assert("file"@ + " "@ == "file "@) by {
        reveal_strlit("file");
        reveal_strlit("file ");
        reveal_strlit(" ");
        assert("file"@ + " "@ =~= "file "@);
    }
}

/// A scan's files are written down in lines and read back.
proof fn lemma_file_lines(known: Seq<Signature>, p: Saved, list: Seq<FileRecord>)
    requires
        forall|i: int| 0 <= i < list.len() ==> is_listable(known, #[trigger] list[i]),
    ensures
        reads(
            known,
            p,
            file_lines(list),
            (Saved { tally: Tally { list: p.tally.list + list, ..p.tally }, ..p }),
        ),
    decreases list.len(),
{
    let all = Saved { tally: Tally { list: p.tally.list + list, ..p.tally }, ..p };
    if list.len() == 0 {
        assert(all =~= p);
        lemma_reads_nothing(known, p);
    } else {
        let head = list.drop_last();
        lemma_file_lines(known, p, head);
        let q = Saved { tally: Tally { list: p.tally.list + head, ..p.tally }, ..p };
        lemma_file_line(known, q, list.last());
        let r = Saved { tally: Tally { list: q.tally.list.push(list.last()), ..q.tally }, ..q };
        assert(r =~= all);
        lemma_reads_both(known, p, file_lines(head), q, file_line(list.last()), r);
    }
}

/// A file of which neither the extension nor the name has a line break.
pub open spec fn is_one_line(f: FileRecord) -> bool {
    !f.ext.contains('\n') && !f.name.contains('\n')
}

/// What is known is the same, but for the files.
pub open spec fn same_but_files(p: Saved, q: Saved) -> bool {
    q == (Saved { tally: Tally { list: q.tally.list, ..p.tally }, ..p })
}

/// White space at the end of a line that begins with a word of four letters is behind the word.
proof fn lemma_word_stays(l: Seq<u8>, e: int)
    requires
        4 <= e <= l.len(),
        forall|k: int| 0 <= k < 4 ==> 0x21 <= #[trigger] l[k] <= 0x7E,
    ensures
        4 <= space_start(l, 0, e) <= e,
    decreases e,
{
    let n = space_before(l, e);
    if 0 < n {
        assert(l.take(e)[e - n] == l[e - n]);
        assert(e - n >= 4);
        lemma_word_stays(l, e - n);
    }
}

/// A line that begins with `file` says at most that there is a file.
proof fn lemma_file_tag(known: Seq<Signature>, p: Saved, rest: Seq<u8>)
    ensures
        same_but_files(p, with_line(known, p, latin("file"@) + seq![0x20u8] + rest)),
{
    lemma_tags();
    lemma_tag("file"@);
    lemma_plain("file"@);
    let tag = latin("file"@);
    let l = tag + seq![0x20u8] + rest;
    assert forall|k: int| 0 <= k < 4 implies 0x21 <= #[trigger] l[k] <= 0x7E by {
        assert(is_graphic("file"@[k]));
        assert(l[k] == tag[k]);
    }
    assert(space_at(l, 0) == 0);
    let e = space_start(l, 0, l.len() as int);
    lemma_word_stays(l, l.len() as int);
    let t = trimmed(l);
    assert(t == l.subrange(0, e));
    assert forall|k: int| 0 <= k < 4 implies #[trigger] t[k] != 0x20 by {
        assert(t[k] == l[k]);
    }
    if e > 4 {
        assert(t[4] == 0x20);
    }
    lemma_found(t, 0, 4, 0x20);
    let w = words(t, 0, 6);
    assert(t.subrange(0, 4) =~= tag);
    assert(w[0] == tag);
}

/// The line of a file says at most that there is a file.
proof fn lemma_any_file_line(known: Seq<Signature>, p: Saved, f: FileRecord) -> (q: Saved)
    requires
        is_one_line(f),
        f.digest.len() == 32,
        0 <= f.offset <= u64::MAX,
        0 <= f.size <= u64::MAX,
    ensures
        reads(known, p, file_line(f), q),
        same_but_files(p, q),
{
    let tag = "file"@;
    let a = numeral(f.offset as nat, 10, 1);
    let b = numeral(f.size as nat, 10, 1);
    let h = hex_text(f.digest);
    lemma_number_back(f.offset as u64, 10, 1);
    lemma_number_back(f.size as u64, 10, 1);
    lemma_digest_back(f.digest);
    lemma_tags();
    lemma_plain_word(tag);
    lemma_plain_word(a);
    lemma_plain_word(b);
    lemma_plain_word(h);
    let r1 = h + " "@ + f.name;
    let r2 = b + " "@ + r1;
    let r3 = a + " "@ + r2;
    let r4 = f.ext + " "@ + r3;
    let line = tag + " "@ + r4;
    lemma_one_line(h, f.name);
    lemma_one_line(b, r1);
    lemma_one_line(a, r2);
    lemma_one_line(f.ext, r3);
    lemma_one_line(tag, r4);
    lemma_encode_spaced(tag, r4);
    lemma_file_tag(known, p, encode_utf8(r4));
    lemma_reads_line(known, p, line);
    assert(line + "\n"@ =~= file_line(f)) by {
        reveal_strlit("file");
        reveal_strlit("file ");
        reveal_strlit(" ");
        assert("file"@ + " "@ =~= "file "@);
    }
    with_line(known, p, encode_utf8(line))
}

/// The lines of files say at most that there are files.
proof fn lemma_any_file_lines(known: Seq<Signature>, p: Saved, list: Seq<FileRecord>) -> (q: Saved)
    requires
        forall|i: int|
            0 <= i < list.len() ==> {
                let f = #[trigger] list[i];
                is_one_line(f) && f.digest.len() == 32 && 0 <= f.offset <= u64::MAX && 0 <= f.size
                    <= u64::MAX
            },
    ensures
        reads(known, p, file_lines(list), q),
        same_but_files(p, q),
    decreases list.len(),
{
    if list.len() == 0 {
        lemma_reads_nothing(known, p);
        p
    } else {
        let head = lemma_any_file_lines(known, p, list.drop_last());
        let q = lemma_any_file_line(known, head, list.last());
        lemma_reads_both(known, p, file_lines(list.drop_last()), head, file_line(list.last()), q);
        q
    }
}

proof fn lemma_heading(known: Seq<Signature>, p: Saved)
    ensures
        reads(known, p, "# unearth scan checkpoint v1\n"@, p),
{
    let line = "# unearth scan checkpoint v1"@;
    let rest = "unearth scan checkpoint v1"@;
    reveal_strlit("# unearth scan checkpoint v1\n");
    reveal_strlit("# unearth scan checkpoint v1");
    reveal_strlit("unearth scan checkpoint v1");
    reveal_strlit("#");
    reveal_strlit("\n");
    reveal_strlit(" ");
    assert(line + "\n"@ =~= "# unearth scan checkpoint v1\n"@);
    assert("#"@ + " "@ + rest =~= line);
    lemma_word_before("#"@, rest, 6);
    lemma_trimmed(latin(line));
    lemma_tags();
    lemma_tag("#"@);
    let w = words(trimmed(latin(line)), 0, 6);
    assert(w[0] == latin("#"@));
    assert("#"@.len() == 1);
    lemma_reads_latin(known, p, line);
    assert(with_line(known, p, latin(line)) == p);
}

/// What a checkpoint gives back: everything but how many files were too large, and the digests only where
/// duplicates are dropped.
pub open spec fn saved_of(scan: Scan, dedup: bool) -> Saved {
    Saved {
        pos: scan.pos as int,
        skip_until: scan.skip_until as int,
        seen: if dedup {
            scan.seen@.map_values(|d: [u8; 32]| d@)
        } else {
            Seq::empty()
        },
        tally: Tally { large: 0, ..tally(scan.stats) },
    }
}

/// The same without the files.
spec fn counts_of(scan: Scan, dedup: bool) -> Saved {
    let s = saved_of(scan, dedup);
    Saved { tally: Tally { list: Seq::empty(), ..s.tally }, ..s }
}

proof fn lemma_count_lines(known: Seq<Signature>, p: Saved, scan: Scan)
    ensures
        reads(
            known,
            p,
            count_lines(scan),
            (Saved {
                pos: scan.pos as int,
                skip_until: scan.skip_until as int,
                tally: Tally {
                    files: scan.stats.files_recovered as int,
                    bytes: scan.stats.bytes_recovered as int,
                    rejected: scan.stats.rejected as int,
                    duplicates: scan.stats.duplicates as int,
                    ..p.tally
                },
                ..p
            }),
        ),
{
    lemma_tags();
    let x1 = number_line("pos"@, scan.pos as nat);
    let x2 = number_line("end"@, scan.end as nat);
    let x3 = number_line("skip_until"@, scan.skip_until as nat);
    let x4 = number_line("files"@, scan.stats.files_recovered as nat);
    let x5 = number_line("bytes"@, scan.stats.bytes_recovered as nat);
    let x6 = number_line("rejected"@, scan.stats.rejected as nat);
    let x7 = number_line("duplicates"@, scan.stats.duplicates as nat);
    let p1 = with_number(p, "pos"@, scan.pos as int);
    let p2 = with_number(p1, "end"@, scan.end as int);
    let p3 = with_number(p2, "skip_until"@, scan.skip_until as int);
    let p4 = with_number(p3, "files"@, scan.stats.files_recovered as int);
    let p5 = with_number(p4, "bytes"@, scan.stats.bytes_recovered as int);
    let p6 = with_number(p5, "rejected"@, scan.stats.rejected as int);
    let p7 = with_number(p6, "duplicates"@, scan.stats.duplicates as int);
    lemma_number_line(known, p, "pos"@, scan.pos);
    lemma_number_line(known, p1, "end"@, scan.end);
    lemma_number_line(known, p2, "skip_until"@, scan.skip_until);
    lemma_number_line(known, p3, "files"@, scan.stats.files_recovered);
    lemma_number_line(known, p4, "bytes"@, scan.stats.bytes_recovered);
    lemma_number_line(known, p5, "rejected"@, scan.stats.rejected);
    lemma_number_line(known, p6, "duplicates"@, scan.stats.duplicates);
    lemma_reads_both(known, p, x1, p1, x2, p2);
    lemma_reads_both(known, p, x1 + x2, p2, x3, p3);
    lemma_reads_both(known, p, x1 + x2 + x3, p3, x4, p4);
    lemma_reads_both(known, p, x1 + x2 + x3 + x4, p4, x5, p5);
    lemma_reads_both(known, p, x1 + x2 + x3 + x4 + x5, p5, x6, p6);
    lemma_reads_both(known, p, x1 + x2 + x3 + x4 + x5 + x6, p6, x7, p7);
}

/// A checkpoint of which the lines that give files say `q`, where they come after the others.
proof fn lemma_checkpoint_reads(known: Seq<Signature>, scan: Scan, dedup: bool, q: Saved)
    requires
        reads(known, counts_of(scan, dedup), file_lines(records(scan.stats.files@)), q),
    ensures
        valid_utf8(encode_utf8(checkpoint_text(scan, dedup))),
        with_lines(known, nothing_saved(), encode_utf8(checkpoint_text(scan, dedup)), 0) == q,
{
    let p = nothing_saved();
    let x1 = "# unearth scan checkpoint v1\n"@;
    let x2 = count_lines(scan);
    let x3 = if dedup {
        seen_lines(scan.seen@)
    } else {
        Seq::empty()
    };
    let x4 = file_lines(records(scan.stats.files@));
    let p2 = Saved {
        pos: scan.pos as int,
        skip_until: scan.skip_until as int,
        tally: Tally {
            files: scan.stats.files_recovered as int,
            bytes: scan.stats.bytes_recovered as int,
            rejected: scan.stats.rejected as int,
            duplicates: scan.stats.duplicates as int,
            ..p.tally
        },
        ..p
    };
    let p3 = if dedup {
        with_seen(p2, scan.seen@)
    } else {
        p2
    };
    assert(p3 =~= counts_of(scan, dedup));
    lemma_heading(known, p);
    lemma_count_lines(known, p, scan);
    lemma_reads_both(known, p, x1, p, x2, p2);
    if dedup {
        lemma_seen_lines(known, p2, scan.seen@);
    } else {
        lemma_reads_nothing(known, p2);
    }
    lemma_reads_both(known, p, x1 + x2, p2, x3, p3);
    lemma_reads_both(known, p, x1 + x2 + x3, p3, x4, q);
    let text = checkpoint_text(scan, dedup);
    assert(text == x1 + x2 + x3 + x4);
    encode_utf8_valid_utf8(text);
    let none: Seq<u8> = Seq::empty();
    assert(encode_utf8(text) + none =~= encode_utf8(text));
    assert(with_lines(known, p, encode_utf8(text) + none, 0) == with_lines(known, q, none, 0));
    lemma_tags();
    assert(trimmed(none) =~= none);
    lemma_last_word(none, 6);
    assert(words(none, 0, 6)[0] == none);
    assert(none.subrange(0, 0) =~= none);
    assert(with_line(known, q, none) == q);
}

/// A checkpoint that is read gives back the scan it was written of: its position, its skip boundary, its
/// counts, its files, and, where duplicates are dropped, its digests.
pub proof fn law_checkpoint_restores(known: Seq<Signature>, scan: Scan, dedup: bool)
    requires
        forall|i: int|
            0 <= i < scan.stats.files@.len() ==> is_listable(
                known,
                record(#[trigger] scan.stats.files@[i]),
            ),
    ensures
        valid_utf8(encode_utf8(checkpoint_text(scan, dedup))),
        with_lines(known, nothing_saved(), encode_utf8(checkpoint_text(scan, dedup)), 0)
            == saved_of(scan, dedup),
{
    let list = records(scan.stats.files@);
    assert forall|i: int| 0 <= i < list.len() implies is_listable(known, #[trigger] list[i]) by {
        assert(list[i] == record(scan.stats.files@[i]));
    }
    let p = counts_of(scan, dedup);
    let q = Saved { tally: Tally { list: p.tally.list + list, ..p.tally }, ..p };
    lemma_file_lines(known, p, list);
    assert(q =~= saved_of(scan, dedup));
    lemma_checkpoint_reads(known, scan, dedup, q);
}

/// A checkpoint that is read gives back the position, the skip boundary, the counts and, where duplicates are dropped,
/// the digests of any scan whose files have no line breaks in their names and extensions. They need not be files that
/// can be listed.
pub proof fn law_counts_restored(known: Seq<Signature>, scan: Scan, dedup: bool)
    requires
        forall|i: int|
            0 <= i < scan.stats.files@.len() ==> is_one_line(record(#[trigger] scan.stats.files@[i])),
    ensures
        valid_utf8(encode_utf8(checkpoint_text(scan, dedup))),
        same_but_files(
            saved_of(scan, dedup),
            with_lines(known, nothing_saved(), encode_utf8(checkpoint_text(scan, dedup)), 0),
        ),
{
    let list = records(scan.stats.files@);
    assert forall|i: int| 0 <= i < list.len() implies {
        let f = #[trigger] list[i];
        is_one_line(f) && f.digest.len() == 32 && 0 <= f.offset <= u64::MAX && 0 <= f.size
            <= u64::MAX
    } by {
        assert(list[i] == record(scan.stats.files@[i]));
    }
    let q = lemma_any_file_lines(known, counts_of(scan, dedup), list);
    lemma_checkpoint_reads(known, scan, dedup, q);
}

/// Two states in which a scan finds the same: they differ at most in how many files were too large, in digests that
/// nothing is held against, and in the first files listed, `i` of the one and `j` of the other.
pub open spec fn alike(a: ScanState, b: ScanState, i: int, j: int, dedup: bool) -> bool {
    &&& a.skip_until == b.skip_until
    &&& a.full == b.full
    &&& dedup ==> a.seen == b.seen
    &&& a.tally == (Tally { large: a.tally.large, list: a.tally.list, ..b.tally })
    &&& 0 <= i <= a.tally.list.len()
    &&& 0 <= j <= b.tally.list.len()
    &&& a.tally.list.skip(i) == b.tally.list.skip(j)
}

/// States that are alike are so still after the same bytes have been looked at.
proof fn lemma_after_alike(
    c: Run,
    a: ScanState,
    b: ScanState,
    i: int,
    j: int,
    pos: int,
    x: Verdict,
)
    requires
        alike(a, b, i, j, c.opts.dedup),
    ensures
        alike(c.after(a, pos, x), c.after(b, pos, x), i, j, c.opts.dedup),
{
    reveal(Run::after);
    let s = c.after(a, pos, x).tally.list;
    let t = c.after(b, pos, x).tally.list;
    if s.len() > a.tally.list.len() {
        let f = s.last();
        assert(s =~= a.tally.list.push(f));
        assert(t =~= b.tally.list.push(f));
        assert(s.skip(i) =~= a.tally.list.skip(i).push(f));
        assert(t.skip(j) =~= b.tally.list.skip(j).push(f));
    }
}

/// States that are alike are so still after a scan that is given the same answers.
pub proof fn lemma_scanned_alike(
    c: Run,
    a: ScanState,
    b: ScanState,
    i: int,
    j: int,
    from: int,
    to: int,
    v: Map<int, Verdict>,
)
    requires
        alike(a, b, i, j, c.opts.dedup),
    ensures
        alike(c.scanned(a, from, to, v), c.scanned(b, from, to, v), i, j, c.opts.dedup),
    decreases to - from,
{
    if from < to {
        lemma_scanned_alike(c, a, b, i, j, from, to - 1, v);
        let s = c.scanned(a, from, to - 1, v);
        let t = c.scanned(b, from, to - 1, v);
        lemma_after_alike(c, s, t, i, j, to - 1, v[to - 1]);
    }
}

/// A scan that was interrupted and is resumed from its checkpoint finds what it would have found in one go:
/// the same files under the same names, and the same counts but for that of the files that were too large. Of the
/// files that were found before, those are the same, the `i`-th and the `j`-th and what follows them, that the
/// checkpoint gives back.
pub proof fn law_resumed_scan(
    c: Run,
    scan: Scan,
    saved: Checkpoint,
    seed: Seq<[u8; 32]>,
    size: int,
    to: int,
    v: Map<int, Verdict>,
    i: int,
    j: int,
)
    requires
        c.opts.resume && c.opts.checkpoint is Some,
        scan.state() == c.scanned(
            fresh_state(digests(seed)),
            scan_start(c.opts, size),
            scan.pos as int,
            v,
        ),
        scan_start(c.opts, size) <= scan.pos <= scan_end(c.opts, size),
        !scan.full,
        scan.pos <= to,
        same_but_files(saved_of(scan, c.opts.dedup), saved_in(saved)),
        0 <= i <= tally(saved.stats).list.len(),
        0 <= j <= tally(scan.stats).list.len(),
        tally(saved.stats).list.skip(i) == tally(scan.stats).list.skip(j),
    ensures
        first_pos(c.opts, size, Some(saved)) == scan.pos,
        alike(
            c.scanned(first_state(c.opts, seed, Some(saved)), scan.pos as int, to, v),
            c.scanned(fresh_state(digests(seed)), scan_start(c.opts, size), to, v),
            i,
            j,
            c.opts.dedup,
        ),
{
    let from = scan_start(c.opts, size);
    let st = scan.state();
    let again = first_state(c.opts, seed, Some(saved));
    law_scan_in_parts(c, fresh_state(digests(seed)), from, scan.pos as int, to, v);
    if c.opts.dedup {
        lemma_digests(saved.seen@, scan.seen@);
        lemma_seen_grows(c, fresh_state(digests(seed)), from, scan.pos as int, v);
        assert(again.seen =~= st.seen);
    }
    assert(alike(again, st, i, j, c.opts.dedup));
    lemma_scanned_alike(c, again, st, i, j, scan.pos as int, to, v);
}

/// Resuming a scan that was completed finds nothing more.
pub proof fn law_completed_scan(
    c: Run,
    saved: Checkpoint,
    seed: Seq<[u8; 32]>,
    size: int,
    n: nat,
    v: Map<int, Verdict>,
    stopped: bool,
    stats: CarveStats,
)
    requires
        c.opts.resume && c.opts.checkpoint is Some,
        c.end == scan_end(c.opts, size),
        saved.pos >= c.end,
        c.ended(
            first_state(c.opts, seed, Some(saved)),
            first_pos(c.opts, size, Some(saved)),
            n,
            v,
            stopped,
            scan_start(c.opts, size),
            saved.stats.bytes_scanned as int,
            stats,
        ),
    ensures
        tally(stats) == tally(saved.stats),
        stats.bytes_scanned == saved.stats.bytes_scanned,
{
    let from = first_pos(c.opts, size, Some(saved));
    assert(from == c.end);
    if n > 0 {
        assert(c.chunks_end(from, 0) == from);
    }
}

/// The names of carved files can be written down in a line, where their extensions can end one.
pub proof fn law_names_end_a_line(number: nat, offset: nat, ext: Seq<char>, organize: bool)
    requires
        ends_a_line(ext),
    ensures
        ends_a_line(file_name(number, offset, ext, organize)),
{
    lemma_numeral(number, 10, 8);
    lemma_numeral(offset, 16, 14);
    reveal_strlit("_0x");
    reveal_strlit(".");
    reveal_strlit("/");
    let a = numeral(number, 10, 8);
    let b = numeral(offset, 16, 14);
    let base = a + "_0x"@ + b + "."@;
    assert forall|i: int| 0 <= i < base.len() implies is_graphic(#[trigger] base[i]) by {
        if i < a.len() {
            assert(base[i] == a[i]);
        } else if a.len() + 3 <= i < a.len() + 3 + b.len() {
            assert(base[i] == b[i - a.len() - 3]);
        }
    }
    lemma_plain_word(base);
    let dir = if organize {
        ext + "/"@
    } else {
        Seq::empty()
    };
    let before = dir + base;
    let name = file_name(number, offset, ext, organize);
    assert(name =~= before + ext);
    assert forall|i: int| 0 <= i < name.len() implies name[i] != '\n' by {
        if i < dir.len() - 1 {
            assert(ext.contains(ext[i]));
        } else if dir.len() <= i < before.len() {
            assert(base.contains(base[i - dir.len()]));
        } else if before.len() <= i {
            assert(ext.contains(ext[i - before.len()]));
        }
    }
    lemma_encode_add(dir, base);
    lemma_encode_add(before, ext);
    lemma_encode_len(ext);
    let x = encode_utf8(before);
    assert(x[x.len() - 1] == latin(base)[base.len() - 1]);
    assert(x[x.len() - 2] == latin(base)[base.len() - 2]);
    lemma_plain(base);
    lemma_end(x, encode_utf8(ext));
}

/// The same bytes make the same digests.
proof fn lemma_digests(a: Seq<[u8; 32]>, b: Seq<[u8; 32]>)
    requires
        a.map_values(|d: [u8; 32]| d@) == b.map_values(|d: [u8; 32]| d@),
    ensures
        digests(a) == digests(b),
{
    let x = a.map_values(|d: [u8; 32]| d@);
    let y = b.map_values(|d: [u8; 32]| d@);
    assert(a.len() == x.len() == b.len());
    assert forall|d: Seq<u8>| digests(a).contains(d) == digests(b).contains(d) by {
        if digests(a).contains(d) {
            let i = choose|i: int| 0 <= i < a.len() && #[trigger] a[i]@ == d;
            assert(x[i] == y[i]);
            assert(b[i]@ == d);
        }
        if digests(b).contains(d) {
            let i = choose|i: int| 0 <= i < b.len() && #[trigger] b[i]@ == d;
            assert(x[i] == y[i]);
            assert(a[i]@ == d);
        }
    }
    assert(digests(a) =~= digests(b));
}

/// What was seen stays seen.
proof fn lemma_seen_grows(c: Run, st: ScanState, from: int, to: int, v: Map<int, Verdict>)
    ensures
        st.seen.subset_of(c.scanned(st, from, to, v).seen),
    decreases to - from,
{
    if from < to {
        lemma_seen_grows(c, st, from, to - 1, v);
        reveal(Run::after);
    }
}

} // verus!
