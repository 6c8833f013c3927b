//! What holds of the signatures, and of the files that a marker or a field of the header ends.

use crate::carver::engine::{matches_at, max_offset, max_reach, overlap, present, reach, signature_at};
use crate::carver::generic::{
    chunk_len, footer_len, header32_len, line_end, occurrence, sevenzip_len, sizefield_len, sqlite_len,
};
use crate::carver::whole::media::law_uint;
use crate::signatures::Signature;
use vstd::prelude::*;

verus! {

/// The bytes `t` stand at `pos`, all of them before `end`.
pub open spec fn stands_at(s: Seq<u8>, end: int, pos: int, t: Seq<u8>) -> bool {
    &&& pos + t.len() <= end
    &&& forall|i: int| 0 <= i < t.len() ==> s[pos + i] == #[trigger] t[i]
}

/// The first and the second bytes of a signature stand where they are to.
pub open spec fn is_signed(sig: Signature, s: Seq<u8>, end: int, pos: int) -> bool {
    &&& stands_at(s, end, pos, sig.magic@)
    &&& sig.secondary matches Some(x) ==> stands_at(s, end, pos + x.0, x.1@)
}

proof fn lemma_present(s: Seq<u8>, end: int, pos: int, t: Seq<u8>)
    requires
        0 <= pos,
        end <= s.len(),
    ensures
        present(s, end, pos, t) == stands_at(s, end, pos, t),
{
    if pos + t.len() <= end {
        let w = s.subrange(pos, pos + t.len());
        if stands_at(s, end, pos, t) {
            assert(w =~= t);
        } else if w == t {
            assert forall|i: int| 0 <= i < t.len() implies s[pos + i] == #[trigger] t[i] by {
                assert(w[i] == t[i]);
            }
        }
    }
}

/// A signature is found exactly where all its bytes stand.
pub proof fn law_signature(sig: Signature, s: Seq<u8>, end: int, pos: int)
    requires
        0 <= pos,
        end <= s.len(),
    ensures
        matches_at(sig, s, end, pos) <==> is_signed(sig, s, end, pos),
{
    lemma_present(s, end, pos, sig.magic@);
    if let Some(x) = sig.secondary {
        lemma_present(s, end, pos + x.0, x.1@);
    }
}

/// Of several signatures that are found at a place it is the first that counts; there is one unless none is found.
pub proof fn law_first_signature(sigs: Seq<Signature>, s: Seq<u8>, end: int, pos: int, k: int)
    requires
        0 <= pos,
        end <= s.len(),
        0 <= k <= sigs.len(),
    ensures
        match signature_at(sigs, s, end, pos, k) {
            Some(n) => k <= n < sigs.len() && is_signed(sigs[n], s, end, pos) && forall|i: int|
                k <= i < n ==> !is_signed(#[trigger] sigs[i], s, end, pos),
            None => forall|i: int| k <= i < sigs.len() ==> !is_signed(#[trigger] sigs[i], s, end, pos),
        },
    decreases sigs.len() - k,
{
    if k < sigs.len() {
        law_signature(sigs[k], s, end, pos);
        law_first_signature(sigs, s, end, pos, k + 1);
    }
}

proof fn lemma_reaches(sigs: Seq<Signature>, n: int, i: int)
    requires
        0 <= i < n <= sigs.len(),
    ensures
        reach(sigs[i]) <= max_reach(sigs, n),
        sigs[i].magic_offset <= max_offset(sigs, n),
    decreases n,
{
    if i < n - 1 {
        lemma_reaches(sigs, n - 1, i);
    }
}

/// What two parts of an image have in common is enough for any signature: none reaches further, with all its bytes and
/// with what comes before them in the file.
pub proof fn law_overlap(sigs: Seq<Signature>, i: int)
    requires
        0 <= i < sigs.len(),
    ensures
        sigs[i].magic@.len() + sigs[i].magic_offset <= overlap(sigs),
        sigs[i].secondary matches Some(x) ==> x.0 + x.1@.len() + sigs[i].magic_offset <= overlap(sigs),
{
    lemma_reaches(sigs, sigs.len() as int, i);
}

proof fn lemma_occurrence(s: Seq<u8>, end: int, needle: Seq<u8>, i: int)
    requires
        0 <= i,
        end <= s.len(),
        needle.len() > 0,
    ensures
        match occurrence(s, end, needle, i) {
            Some(p) => i <= p && stands_at(s, end, p, needle) && forall|q: int|
                i <= q < p ==> !#[trigger] stands_at(s, end, q, needle),
            None => forall|q: int| i <= q ==> !#[trigger] stands_at(s, end, q, needle),
        },
    decreases end - i,
{
    if i + needle.len() <= end {
        lemma_present(s, end, i, needle);
        lemma_occurrence(s, end, needle, i + 1);
    }
}

proof fn lemma_line_end(f: Seq<u8>, avail: int, p: int, left: nat)
    ensures
        ({
            let r = line_end(f, avail, p, left);
            &&& p <= r <= p + left
            &&& forall|q: int| p <= q < r ==> f[q] == 0x0D || #[trigger] f[q] == 0x0A
            &&& r < p + left && r < avail ==> f[r] != 0x0D && f[r] != 0x0A
            &&& p <= avail ==> r <= avail
        }),
    decreases left,
{
    if left > 0 && p < avail && (f[p] == 0x0D || f[p] == 0x0A) {
        lemma_line_end(f, avail, p + 1, (left - 1) as nat);
    }
}

/// A file that a marker ends reaches to the end of the first one, wherever that is, with up to `trailing` bytes of an end
/// of line behind it; without a marker there is no file.
pub proof fn law_footer(f: Seq<u8>, avail: int, marker: Seq<u8>, trailing: nat, p: int)
    requires
        avail <= f.len(),
        marker.len() > 0,
        0 <= p,
        stands_at(f, avail, p, marker),
        forall|q: int| 0 <= q < p ==> !#[trigger] stands_at(f, avail, q, marker),
    ensures
        footer_len(f, avail, marker, 0) == Some(p + marker.len()),
        footer_len(f, avail, marker, trailing) matches Some(n) && {
            &&& p + marker.len() <= n <= p + marker.len() + trailing
            &&& n <= avail
            &&& forall|q: int| p + marker.len() <= q < n ==> f[q] == 0x0D || #[trigger] f[q] == 0x0A
            &&& n < p + marker.len() + trailing && n < avail ==> f[n] != 0x0D && f[n] != 0x0A
        },
{
    lemma_occurrence(f, avail, marker, 0);
    lemma_line_end(f, avail, p + marker.len(), trailing);
}

/// Without a marker there is no file.
pub proof fn law_no_footer(f: Seq<u8>, avail: int, marker: Seq<u8>, trailing: nat)
    requires
        avail <= f.len(),
        marker.len() > 0,
        forall|q: int| 0 <= q ==> !#[trigger] stands_at(f, avail, q, marker),
    ensures
        footer_len(f, avail, marker, trailing) is None,
{
    lemma_occurrence(f, avail, marker, 0);
}

/// A file whose header says in four bytes how long it is has that many bytes, if there is room for them and they are more
/// than none.
pub proof fn law_header32(f: Seq<u8>, avail: int, at: int, be: bool, n: int)
    requires
        0 <= at,
        at + 4 <= f.len(),
        n == if be {
            0x100_0000 * f[at] + 0x1_0000 * f[at + 1] + 0x100 * f[at + 2] + f[at + 3]
        } else {
            f[at] + 0x100 * f[at + 1] + 0x1_0000 * f[at + 2] + 0x100_0000 * f[at + 3]
        },
    ensures
        0 < n <= avail ==> header32_len(f, avail, at, be) == Some(n),
        n == 0 || n > avail ==> header32_len(f, avail, at, be) is None,
{
}

/// A file that is one chunk has eight bytes more than its header says in the second four.
pub proof fn law_chunk(f: Seq<u8>, avail: int, be: bool, n: int)
    requires
        8 <= f.len(),
        n == if be {
            0x100_0000 * f[4] + 0x1_0000 * f[5] + 0x100 * f[6] + f[7]
        } else {
            f[4] + 0x100 * f[5] + 0x1_0000 * f[6] + 0x100_0000 * f[7]
        },
    ensures
        n > 0 && n + 8 <= avail ==> chunk_len(f, avail, be) == Some(n + 8),
        n == 0 || n + 8 > avail ==> chunk_len(f, avail, be) is None,
{
}

/// A field of two bytes, or of four, is multiplied by `mul`, and `add` is added to it.
pub proof fn law_sizefield(f: Seq<u8>, avail: int, at: int, mul: int, add: int)
    requires
        0 <= at,
        at + 4 <= f.len(),
        avail <= u64::MAX,
    ensures
        ({
            let n = (f[at] + 0x100 * f[at + 1]) * mul + add;
            &&& 0 < n <= avail ==> sizefield_len(f, avail, at, 16, false, mul, add) == Some(n)
            &&& n == 0 || n > avail ==> sizefield_len(f, avail, at, 16, false, mul, add) is None
        }),
        ({
            let n = (0x100 * f[at] + f[at + 1]) * mul + add;
            &&& 0 < n <= avail ==> sizefield_len(f, avail, at, 16, true, mul, add) == Some(n)
            &&& n == 0 || n > avail ==> sizefield_len(f, avail, at, 16, true, mul, add) is None
        }),
        ({
            let n = (f[at] + 0x100 * f[at + 1] + 0x1_0000 * f[at + 2] + 0x100_0000 * f[at + 3]) * mul + add;
            &&& 0 < n <= avail ==> sizefield_len(f, avail, at, 32, false, mul, add) == Some(n)
            &&& n == 0 || n > avail ==> sizefield_len(f, avail, at, 32, false, mul, add) is None
        }),
        ({
            let n = (0x100_0000 * f[at] + 0x1_0000 * f[at + 1] + 0x100 * f[at + 2] + f[at + 3]) * mul + add;
            &&& 0 < n <= avail ==> sizefield_len(f, avail, at, 32, true, mul, add) == Some(n)
            &&& n == 0 || n > avail ==> sizefield_len(f, avail, at, 32, true, mul, add) is None
        }),
{
    let e = Seq::<u8>::empty();
    let a = f[at];
    let b = f[at + 1];
    let c = f[at + 2];
    let d = f[at + 3];
    law_uint(e, a);
    law_uint(e.push(a), b);
    law_uint(e.push(a).push(b), c);
    law_uint(e.push(a).push(b).push(c), d);
    law_uint(e, b);
    law_uint(seq![b] + e, a);
    law_uint(e, d);
    law_uint(seq![d] + e, c);
    law_uint(seq![c] + (seq![d] + e), b);
    law_uint(seq![b] + (seq![c] + (seq![d] + e)), a);
    assert(f.subrange(at, at + 16u8 / 8) =~= e.push(a).push(b));
    assert(f.subrange(at, at + 16u8 / 8) =~= seq![a] + (seq![b] + e));
    assert(f.subrange(at, at + 32u8 / 8) =~= e.push(a).push(b).push(c).push(d));
    assert(f.subrange(at, at + 32u8 / 8) =~= seq![a] + (seq![b] + (seq![c] + (seq![d] + e))));
}

/// An SQLite database has as many pages as its header says at 28, each of the size that it says at 16, where 1 stands for
/// 65536.
pub proof fn law_sqlite(f: Seq<u8>, avail: int, page: int, pages: int)
    requires
        32 <= f.len(),
        page == 0x100 * f[16] + f[17] && page != 1 || page == 0x1_0000 && f[16] == 0 && f[17] == 1,
        pages == 0x100_0000 * f[28] + 0x1_0000 * f[29] + 0x100 * f[30] + f[31],
    ensures
        0 < page * pages <= avail ==> sqlite_len(f, avail) == Some(page * pages),
        page * pages == 0 || page * pages > avail ==> sqlite_len(f, avail) is None,
{
}

/// A 7z archive has a header of 32 bytes, and behind it what is packed, and a header of the length that is given at 20,
/// which begins as far behind as is given at 12.
pub proof fn law_sevenzip(f: Seq<u8>, avail: int, next: int, len: int)
    requires
        32 <= f.len(),
        next == f[12] + 0x100 * f[13] + 0x1_0000 * f[14] + 0x100_0000 * f[15] + 0x1_0000_0000 * (f[16] + 0x100
            * f[17] + 0x1_0000 * f[18] + 0x100_0000 * f[19]),
        len == f[20] + 0x100 * f[21] + 0x1_0000 * f[22] + 0x100_0000 * f[23] + 0x1_0000_0000 * (f[24] + 0x100
            * f[25] + 0x1_0000 * f[26] + 0x100_0000 * f[27]),
    ensures
        next + len > 0 && 32 + next + len <= avail ==> sevenzip_len(f, avail) == Some(32 + next + len),
        next + len == 0 || 32 + next + len > avail ==> sevenzip_len(f, avail) is None,
{
}

} // verus!
