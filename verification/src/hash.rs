//! SHA-256, by which recovered files are told apart.

use crate::bytes::{be32, rd_be32};
use vstd::prelude::*;

verus! {

/// The 64 round constants: the first 32 bits of the fractional parts of the cube roots of the first
/// primes.
pub open spec fn round_constants() -> Seq<u32> {
    seq![
        0x428A_2F98u32, 0x7137_4491, 0xB5C0_FBCF, 0xE9B5_DBA5, 0x3956_C25B, 0x59F1_11F1,
        0x923F_82A4, 0xAB1C_5ED5, 0xD807_AA98, 0x1283_5B01, 0x2431_85BE, 0x550C_7DC3,
        0x72BE_5D74, 0x80DE_B1FE, 0x9BDC_06A7, 0xC19B_F174, 0xE49B_69C1, 0xEFBE_4786,
        0x0FC1_9DC6, 0x240C_A1CC, 0x2DE9_2C6F, 0x4A74_84AA, 0x5CB0_A9DC, 0x76F9_88DA,
        0x983E_5152, 0xA831_C66D, 0xB003_27C8, 0xBF59_7FC7, 0xC6E0_0BF3, 0xD5A7_9147,
        0x06CA_6351, 0x1429_2967, 0x27B7_0A85, 0x2E1B_2138, 0x4D2C_6DFC, 0x5338_0D13,
        0x650A_7354, 0x766A_0ABB, 0x81C2_C92E, 0x9272_2C85, 0xA2BF_E8A1, 0xA81A_664B,
        0xC24B_8B70, 0xC76C_51A3, 0xD192_E819, 0xD699_0624, 0xF40E_3585, 0x106A_A070,
        0x19A4_C116, 0x1E37_6C08, 0x2748_774C, 0x34B0_BCB5, 0x391C_0CB3, 0x4ED8_AA4A,
        0x5B9C_CA4F, 0x682E_6FF3, 0x748F_82EE, 0x78A5_636F, 0x84C8_7814, 0x8CC7_0208,
        0x90BE_FFFA, 0xA450_6CEB, 0xBEF9_A3F7, 0xC671_78F2,
    ]
}

/// The eight working words.
#[derive(Clone, Copy)]
pub struct Words {
    pub a: u32,
    pub b: u32,
    pub c: u32,
    pub d: u32,
    pub e: u32,
    pub f: u32,
    pub g: u32,
    pub h: u32,
}

/// The words that a hash begins with: the first 32 bits of the fractional parts of the square roots of
/// the first primes.
pub open spec fn initial_words() -> Words {
    Words {
        a: 0x6A09_E667,
        b: 0xBB67_AE85,
        c: 0x3C6E_F372,
        d: 0xA54F_F53A,
        e: 0x510E_527F,
        f: 0x9B05_688C,
        g: 0x1F83_D9AB,
        h: 0x5BE0_CD19,
    }
}

/// `x`, its bits moved `n` places to the right and round.
pub open spec fn rotr(x: u32, n: u32) -> u32 {
    (x >> n) | (x << (32 - n) as u32)
}

/// The sum of two words, modulo 2^32.
pub open spec fn plus(x: u32, y: u32) -> u32 {
    x.wrapping_add(y)
}

/// Word `t` of the message schedule of a block of 64 bytes.
pub open spec fn schedule(block: Seq<u8>, t: nat) -> u32
    decreases t,
{
    if t < 16 {
        be32(block, 4 * t as int)
    } else {
        let x = schedule(block, (t - 15) as nat);
        let y = schedule(block, (t - 2) as nat);
        let s0 = rotr(x, 7) ^ rotr(x, 18) ^ (x >> 3u32);
        let s1 = rotr(y, 17) ^ rotr(y, 19) ^ (y >> 10u32);
        plus(
            plus(plus(schedule(block, (t - 16) as nat), s0), schedule(block, (t - 7) as nat)),
            s1,
        )
    }
}

/// The words after a round with the word `w` of the schedule and the constant `k`.
pub open spec fn round(v: Words, w: u32, k: u32) -> Words {
    let s1 = rotr(v.e, 6) ^ rotr(v.e, 11) ^ rotr(v.e, 25);
    let ch = (v.e & v.f) ^ (!v.e & v.g);
    let t1 = plus(plus(plus(plus(v.h, s1), ch), k), w);
    let s0 = rotr(v.a, 2) ^ rotr(v.a, 13) ^ rotr(v.a, 22);
    let maj = (v.a & v.b) ^ (v.a & v.c) ^ (v.b & v.c);
    Words {
        a: plus(t1, plus(s0, maj)),
        b: v.a,
        c: v.b,
        d: v.c,
        e: plus(v.d, t1),
        f: v.e,
        g: v.f,
        h: v.g,
    }
}

/// The words after the first `n` rounds of a block.
pub open spec fn rounds(v: Words, block: Seq<u8>, n: nat) -> Words
    decreases n,
{
    if n == 0 {
        v
    } else {
        round(
            rounds(v, block, (n - 1) as nat),
            schedule(block, (n - 1) as nat),
            round_constants()[n - 1],
        )
    }
}

/// The hash after a block.
pub open spec fn compress(v: Words, block: Seq<u8>) -> Words {
    let r = rounds(v, block, 64);
    Words {
        a: plus(v.a, r.a),
        b: plus(v.b, r.b),
        c: plus(v.c, r.c),
        d: plus(v.d, r.d),
        e: plus(v.e, r.e),
        f: plus(v.f, r.f),
        g: plus(v.g, r.g),
        h: plus(v.h, r.h),
    }
}

/// The hash after the first `n` blocks of `m`.
pub open spec fn hash_blocks(m: Seq<u8>, n: nat) -> Words
    decreases n,
{
    if n == 0 {
        initial_words()
    } else {
        compress(hash_blocks(m, (n - 1) as nat), m.subrange(64 * (n - 1), 64 * n as int))
    }
}

/// The number of zeros between a message of `len` bytes with its end mark and the 8 bytes of its length,
/// which fill it up to whole blocks.
pub open spec fn fill(len: int) -> int {
    (119 - len % 64) % 64
}

/// The bytes of an integer of 64 bits, the highest first.
pub open spec fn be_bytes(n: u64) -> Seq<u8> {
    seq![
        (n / 0x100_0000_0000_0000) as u8,
        (n / 0x1_0000_0000_0000 % 0x100) as u8,
        (n / 0x100_0000_0000 % 0x100) as u8,
        (n / 0x1_0000_0000 % 0x100) as u8,
        (n / 0x100_0000 % 0x100) as u8,
        (n / 0x1_0000 % 0x100) as u8,
        (n / 0x100 % 0x100) as u8,
        (n % 0x100) as u8,
    ]
}

/// A message, filled up to whole blocks: a mark, zeros, and its length in bits, modulo 2^64.
pub open spec fn filled(m: Seq<u8>) -> Seq<u8> {
    m.push(0x80) + Seq::new(fill(m.len() as int) as nat, |i: int| 0u8) + be_bytes(
        ((m.len() % 0x2000_0000_0000_0000) * 8) as u64,
    )
}

/// The bytes of a word, the highest first.
pub open spec fn word_bytes(w: u32) -> Seq<u8> {
    seq![
        (w / 0x100_0000) as u8,
        (w / 0x1_0000 % 0x100) as u8,
        (w / 0x100 % 0x100) as u8,
        (w % 0x100) as u8,
    ]
}

/// The SHA-256 digest of `m`.
pub open spec fn sha256(m: Seq<u8>) -> Seq<u8> {
    let t = filled(m);
    let v = hash_blocks(t, t.len() / 64);
    word_bytes(v.a) + word_bytes(v.b) + word_bytes(v.c) + word_bytes(v.d) + word_bytes(v.e)
        + word_bytes(v.f) + word_bytes(v.g) + word_bytes(v.h)
}

/// A message that is filled up has whole blocks.
proof fn lemma_whole_blocks(m: Seq<u8>)
    ensures
        filled(m).len() == m.len() + 9 + fill(m.len() as int),
        filled(m).len() % 64 == 0,
{
    let n = m.len() as int;
    let zeros = Seq::new(fill(n) as nat, |i: int| 0u8);
    let size = be_bytes(((m.len() % 0x2000_0000_0000_0000) * 8) as u64);
    assert(size.len() == 8);
    assert(filled(m) == m.push(0x80) + zeros + size);
    lemma_fill(n);
}

/// With the mark, the zeros and the length there are whole blocks.
proof fn lemma_fill(n: int)
    requires
        n >= 0,
    ensures
        0 <= fill(n) < 64,
        (n + 9 + fill(n)) % 64 == 0,
{
    let r = n % 64;
    if r <= 55 {
        assert(fill(n) == 55 - r);
    } else {
        assert(fill(n) == 119 - r);
    }
}

fn rotate(x: u32, n: u32) -> (r: u32)
    requires
        0 < n < 32,
    ensures
        r == rotr(x, n),
{
    (x >> n) | (x << (32 - n))
}

/// The message schedule of a block.
fn expand(block: &[u8]) -> (w: Vec<u32>)
    requires
        block.len() == 64,
    ensures
        w@.len() == 64,
        forall|t: int| 0 <= t < 64 ==> w@[t] == schedule(block@, t as nat),
{
    let mut w: Vec<u32> = Vec::new();
    let mut t: usize = 0;
    while t < 64
        invariant
            block.len() == 64,
            t <= 64,
            w@.len() == t,
            forall|i: int| 0 <= i < t ==> w@[i] == schedule(block@, i as nat),
        decreases 64 - t,
    {
        if t < 16 {
            w.push(rd_be32(block, 4 * t));
        } else {
            let x: u32 = w[t - 15];
            let y: u32 = w[t - 2];
            let s0: u32 = rotate(x, 7) ^ rotate(x, 18) ^ (x >> 3u32);
            let s1: u32 = rotate(y, 17) ^ rotate(y, 19) ^ (y >> 10u32);
            let next: u32 = w[t - 16].wrapping_add(s0).wrapping_add(w[t - 7]).wrapping_add(s1);
            assert(next == schedule(block@, t as nat));
            w.push(next);
        }
        t = t + 1;
    }
    w
}

/// One round.
fn one_round(v: Words, w: u32, k: u32) -> (r: Words)
    ensures
        r == round(v, w, k),
{
    let s1: u32 = rotate(v.e, 6) ^ rotate(v.e, 11) ^ rotate(v.e, 25);
    let ch: u32 = (v.e & v.f) ^ (!v.e & v.g);
    let t1: u32 = v.h.wrapping_add(s1).wrapping_add(ch).wrapping_add(k).wrapping_add(w);
    let s0: u32 = rotate(v.a, 2) ^ rotate(v.a, 13) ^ rotate(v.a, 22);
    let maj: u32 = (v.a & v.b) ^ (v.a & v.c) ^ (v.b & v.c);
    Words {
        a: t1.wrapping_add(s0.wrapping_add(maj)),
        b: v.a,
        c: v.b,
        d: v.c,
        e: v.d.wrapping_add(t1),
        f: v.e,
        g: v.f,
        h: v.g,
    }
}

/// Take a block in.
fn absorb(v: Words, block: &[u8]) -> (r: Words)
    requires
        block.len() == 64,
    ensures
        r == compress(v, block@),
{
    let k: [u32; 64] = [
        0x428A_2F98, 0x7137_4491, 0xB5C0_FBCF, 0xE9B5_DBA5, 0x3956_C25B, 0x59F1_11F1,
        0x923F_82A4, 0xAB1C_5ED5, 0xD807_AA98, 0x1283_5B01, 0x2431_85BE, 0x550C_7DC3,
        0x72BE_5D74, 0x80DE_B1FE, 0x9BDC_06A7, 0xC19B_F174, 0xE49B_69C1, 0xEFBE_4786,
        0x0FC1_9DC6, 0x240C_A1CC, 0x2DE9_2C6F, 0x4A74_84AA, 0x5CB0_A9DC, 0x76F9_88DA,
        0x983E_5152, 0xA831_C66D, 0xB003_27C8, 0xBF59_7FC7, 0xC6E0_0BF3, 0xD5A7_9147,
        0x06CA_6351, 0x1429_2967, 0x27B7_0A85, 0x2E1B_2138, 0x4D2C_6DFC, 0x5338_0D13,
        0x650A_7354, 0x766A_0ABB, 0x81C2_C92E, 0x9272_2C85, 0xA2BF_E8A1, 0xA81A_664B,
        0xC24B_8B70, 0xC76C_51A3, 0xD192_E819, 0xD699_0624, 0xF40E_3585, 0x106A_A070,
        0x19A4_C116, 0x1E37_6C08, 0x2748_774C, 0x34B0_BCB5, 0x391C_0CB3, 0x4ED8_AA4A,
        0x5B9C_CA4F, 0x682E_6FF3, 0x748F_82EE, 0x78A5_636F, 0x84C8_7814, 0x8CC7_0208,
        0x90BE_FFFA, 0xA450_6CEB, 0xBEF9_A3F7, 0xC671_78F2,
    ];
    assert(k@ =~= round_constants());
    let w = expand(block);
    let mut x = v;
    let mut t: usize = 0;
    while t < 64
        invariant
            t <= 64,
            w@.len() == 64,
            k@ == round_constants(),
            forall|i: int| 0 <= i < 64 ==> w@[i] == schedule(block@, i as nat),
            x == rounds(v, block@, t as nat),
        decreases 64 - t,
    {
        x = one_round(x, w[t], k[t]);
        t = t + 1;
    }
    Words {
        a: v.a.wrapping_add(x.a),
        b: v.b.wrapping_add(x.b),
        c: v.c.wrapping_add(x.c),
        d: v.d.wrapping_add(x.d),
        e: v.e.wrapping_add(x.e),
        f: v.f.wrapping_add(x.f),
        g: v.g.wrapping_add(x.g),
        h: v.h.wrapping_add(x.h),
    }
}

/// Fill a message up to whole blocks.
fn fill_up(m: &Vec<u8>) -> (t: Vec<u8>)
    ensures
        t@ == filled(m@),
{
    let mut t: Vec<u8> = Vec::new();
    let mut i: usize = 0;
    while i < m.len()
        invariant
            i <= m@.len(),
            t@ == m@.subrange(0, i as int),
        decreases m@.len() - i,
    {
        t.push(m[i]);
        i = i + 1;
    }
    assert(t@ =~= m@);
    t.push(0x80);
    let zeros: usize = (119 - m.len() % 64) % 64;
    let mut k: usize = 0;
    while k < zeros
        invariant
            k <= zeros,
            t@ == m@.push(0x80) + Seq::new(k as nat, |i: int| 0u8),
        decreases zeros - k,
    {
        t.push(0);
        k = k + 1;
    }
    let n: u64 = (m.len() as u64 % 0x2000_0000_0000_0000) * 8;
    t.push((n / 0x100_0000_0000_0000) as u8);
    t.push((n / 0x1_0000_0000_0000 % 0x100) as u8);
    t.push((n / 0x100_0000_0000 % 0x100) as u8);
    t.push((n / 0x1_0000_0000 % 0x100) as u8);
    t.push((n / 0x100_0000 % 0x100) as u8);
    t.push((n / 0x1_0000 % 0x100) as u8);
    t.push((n / 0x100 % 0x100) as u8);
    t.push((n % 0x100) as u8);
    assert(t@ =~= filled(m@));
    t
}

/// The bytes of a word, at the end of a list.
fn push_word(out: &mut Vec<u8>, w: u32)
    ensures
        final(out)@ == old(out)@ + word_bytes(w),
{
    out.push((w / 0x100_0000) as u8);
    out.push((w / 0x1_0000 % 0x100) as u8);
    out.push((w / 0x100 % 0x100) as u8);
    out.push((w % 0x100) as u8);
    assert(out@ =~= old(out)@ + word_bytes(w));
}

/// The SHA-256 digest of a message.
pub fn digest(m: &Vec<u8>) -> (r: [u8; 32])
    ensures
        r@ == sha256(m@),
{
    let t = fill_up(m);
    proof {
        lemma_whole_blocks(m@);
    }
    let n: usize = t.len() / 64;
    let mut v = Words {
        a: 0x6A09_E667,
        b: 0xBB67_AE85,
        c: 0x3C6E_F372,
        d: 0xA54F_F53A,
        e: 0x510E_527F,
        f: 0x9B05_688C,
        g: 0x1F83_D9AB,
        h: 0x5BE0_CD19,
    };
    let mut i: usize = 0;
    while i < n
        invariant
            i <= n,
            64 * n == t@.len(),
            t@.len() <= usize::MAX,
            v == hash_blocks(t@, i as nat),
        decreases n - i,
    {
        v = absorb(v, &t[64 * i..64 * i + 64]);
        i = i + 1;
    }
    let mut out: Vec<u8> = Vec::new();
    push_word(&mut out, v.a);
    assert(out@ =~= word_bytes(v.a));
    push_word(&mut out, v.b);
    push_word(&mut out, v.c);
    push_word(&mut out, v.d);
    push_word(&mut out, v.e);
    push_word(&mut out, v.f);
    push_word(&mut out, v.g);
    push_word(&mut out, v.h);
    let mut r: [u8; 32] = [0u8; 32];
    let mut k: usize = 0;
    while k < 32
        invariant
            k <= 32,
            out@.len() == 32,
            r@.len() == 32,
            forall|j: int| 0 <= j < k ==> r@[j] == out@[j],
        decreases 32 - k,
    {
        r[k] = out[k];
        k = k + 1;
    }
    assert(r@ =~= out@);
    r
}

} // verus!
