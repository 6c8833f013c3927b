//! What a scan finds, and what it keeps.

use crate::carver::engine::{
    file_name, kept, settled, signature_at, CarveOptions, FileRecord, Run, ScanState, Verdict,
};
use crate::carver::extents::extent_len;
use crate::carver::whole::generic::{is_signed, law_first_signature};
use crate::hash::sha256;
use crate::signatures::Signature;
use crate::strings::{digit_char, numeral};
use vstd::arithmetic::power::{lemma_pow1, pow};
use vstd::prelude::*;

verus! {

/// Digits are written in the order of their characters.
pub proof fn law_digit_char(d: int)
    ensures
        0 <= d < 10 ==> digit_char(d) as u32 == '0' as u32 + d,
        10 <= d < 16 ==> digit_char(d) as u32 == 'a' as u32 + d - 10,
{
    reveal_strlit("0123456789abcdef");
    if 0 <= d < 16 {
        assert(d == 0 || d == 1 || d == 2 || d == 3 || d == 4 || d == 5 || d == 6 || d == 7 || d == 8 || d == 9 || d
            == 10 || d == 11 || d == 12 || d == 13 || d == 14 || d == 15);
    }
}

/// A number with one digit more is written as the number, and the digit.
pub proof fn law_numeral(n: nat, d: nat, radix: nat, width: nat)
    requires
        2 <= radix <= 16,
        d < radix,
        1 <= width,
    ensures
        numeral(n * radix + d, radix, width + 1) == numeral(n, radix, width).push(digit_char(d as int)),
        numeral(d, radix, 1) == seq![digit_char(d as int)],
{
    let x = n * radix + d;
    assert(x / radix == n && x % radix == d) by (nonlinear_arith)
        requires
            x == n * radix + d,
            d < radix,
    ;
    assert((width + 1 - 1) as nat == width);
}

proof fn lemma_numeral_len(n: nat, radix: nat, width: nat)
    requires
        2 <= radix <= 16,
        1 <= width,
        n < pow(radix as int, width),
    ensures
        numeral(n, radix, width).len() == width,
    decreases width,
{
    if width == 1 {
        lemma_pow1(radix as int);
    } else {
        let p = pow(radix as int, (width - 1) as nat);
        assert(pow(radix as int, width) == radix * p) by {
            reveal(pow);
        }
        let q = n / radix;
        assert(q < p) by (nonlinear_arith)
            requires
                n < radix * p,
                q == n / radix,
                radix >= 2,
        ;
        lemma_numeral_len(q, radix, (width - 1) as nat);
    }
}

proof fn lemma_numeral_differs(a: nat, b: nat, radix: nat, width: nat)
    requires
        2 <= radix <= 16,
        1 <= width,
        a < pow(radix as int, width),
        b < pow(radix as int, width),
        numeral(a, radix, width) == numeral(b, radix, width),
    ensures
        a == b,
    decreases width,
{
    law_digit_char((a % radix) as int);
    law_digit_char((b % radix) as int);
    if width == 1 {
        lemma_pow1(radix as int);
        assert(a % radix == a && b % radix == b) by (nonlinear_arith)
            requires
                a < radix,
                b < radix,
        ;
        assert(numeral(a, radix, 1)[0] == digit_char(a as int));
        assert(numeral(b, radix, 1)[0] == digit_char(b as int));
    } else {
        let w = (width - 1) as nat;
        let p = pow(radix as int, w);
        assert(pow(radix as int, width) == radix * p) by {
            reveal(pow);
        }
        let x = a / radix;
        let y = b / radix;
        assert(x < p && y < p) by (nonlinear_arith)
            requires
                a < radix * p,
                b < radix * p,
                x == a / radix,
                y == b / radix,
                radix >= 2,
        ;
        let s = numeral(a, radix, width);
        let t = numeral(b, radix, width);
        assert(s.drop_last() =~= numeral(x, radix, w));
        assert(t.drop_last() =~= numeral(y, radix, w));
        assert(s.last() == digit_char((a % radix) as int));
        assert(t.last() == digit_char((b % radix) as int));
        lemma_numeral_differs(x, y, radix, w);
        assert(a == x * radix + a % radix && b == y * radix + b % radix) by (nonlinear_arith)
            requires
                x == a / radix,
                y == b / radix,
                radix >= 2,
        ;
    }
}

/// The name of a file has its number first, in eight digits, and where it was found, in fourteen; no two files with different
/// numbers, or found at different places, have the same name.
pub proof fn law_names_differ(
    n: nat,
    m: nat,
    at: nat,
    to: nat,
    ext: Seq<char>,
    other: Seq<char>,
)
    requires
        n < pow(10, 8),
        m < pow(10, 8),
        at < pow(16, 14),
        to < pow(16, 14),
    ensures
        file_name(n, at, ext, false).len() == 26 + ext.len(),
        file_name(n, at, ext, false) == file_name(m, to, other, false) ==> n == m && at == to && ext == other,
        file_name(n, at, ext, true) == ext + seq!['/'] + file_name(n, at, ext, false),
{
    reveal_strlit("_0x");
    reveal_strlit(".");
    reveal_strlit("/");
    assert("/"@ =~= seq!['/']);
    lemma_numeral_len(n, 10, 8);
    lemma_numeral_len(m, 10, 8);
    lemma_numeral_len(at, 16, 14);
    lemma_numeral_len(to, 16, 14);
    let x = file_name(n, at, ext, false);
    let y = file_name(m, to, other, false);
    if x == y {
        assert(x.subrange(0, 8) =~= numeral(n, 10, 8));
        assert(y.subrange(0, 8) =~= numeral(m, 10, 8));
        assert(x.subrange(11, 25) =~= numeral(at, 16, 14));
        assert(y.subrange(11, 25) =~= numeral(to, 16, 14));
        lemma_numeral_differs(n, m, 10, 8);
        lemma_numeral_differs(at, to, 16, 14);
        assert(x.subrange(26, x.len() as int) =~= ext);
        assert(y.subrange(26, y.len() as int) =~= other);
    }
}

/// A file that is kept is recorded last, with the place, the length and the digest of its bytes, and counts as one file more
/// with that many bytes; nothing else is counted.
pub proof fn law_kept(
    s: Seq<u8>,
    opts: CarveOptions,
    st: ScanState,
    sig: Signature,
    ext: Seq<char>,
    start: int,
    len: int,
)
    requires
        0 <= start,
        0 < len,
        start + len <= s.len(),
        !opts.dedup || !st.seen.contains(sha256(s.subrange(start, start + len))),
        st.tally.files < u64::MAX,
        st.tally.bytes + len <= u64::MAX,
    ensures
        ({
            let t = kept(s, opts, st, sig, ext, start, len).tally;
            &&& t.list.len() == st.tally.list.len() + 1
            &&& t.list.drop_last() == st.tally.list
            &&& t.list.last().offset == start
            &&& t.list.last().size == len
            &&& t.list.last().ext == ext
            &&& t.list.last().digest == sha256(s.subrange(start, start + len))
            &&& t.list.last().name == file_name(st.tally.files as nat, start as nat, ext, opts.organize)
            &&& t.files == st.tally.files + 1
            &&& t.bytes == st.tally.bytes + len
            &&& t.duplicates == st.tally.duplicates
            &&& t.rejected == st.tally.rejected
            &&& t.large == st.tally.large
        }),
{
    let t = kept(s, opts, st, sig, ext, start, len).tally;
    assert(t.list.drop_last() =~= st.tally.list);
}

/// The same bytes a second time are no file more where each is to be kept once: they count as a duplicate, wherever they are;
/// otherwise they are.
pub proof fn law_second_copy(
    s: Seq<u8>,
    opts: CarveOptions,
    st: ScanState,
    sig: Signature,
    ext: Seq<char>,
    start: int,
    other: int,
    len: int,
)
    requires
        0 <= start,
        0 <= other,
        0 < len,
        start + len <= s.len(),
        other + len <= s.len(),
        forall|i: int| 0 <= i < len ==> s[start + i] == #[trigger] s[other + i],
        st.tally.files + 1 < u64::MAX,
        st.tally.bytes + len + len <= u64::MAX,
        st.tally.duplicates + 1 < u64::MAX,
    ensures
        ({
            let one = kept(s, opts, st, sig, ext, start, len);
            let two = kept(s, opts, one, sig, ext, other, len);
            &&& opts.dedup ==> two.tally.list == one.tally.list && two.tally.files == one.tally.files && two.tally.bytes
                == one.tally.bytes && two.tally.duplicates == one.tally.duplicates + 1 && two.seen == one.seen
            &&& !opts.dedup ==> two.tally.list.len() == one.tally.list.len() + 1 && two.tally.duplicates
                == one.tally.duplicates
        }),
{
    lemma_same(s, start, other, len);
    let one = kept(s, opts, st, sig, ext, start, len);
    let d = sha256(s.subrange(other, other + len));
    if opts.dedup {
        assert(one.seen.contains(d));
        assert(one.seen.insert(d) =~= one.seen);
    }
}

proof fn lemma_same(s: Seq<u8>, start: int, other: int, len: int)
    requires
        0 <= start,
        0 <= other,
        0 < len,
        start + len <= s.len(),
        other + len <= s.len(),
        forall|i: int| 0 <= i < len ==> s[start + i] == #[trigger] s[other + i],
    ensures
        s.subrange(start, start + len) == s.subrange(other, other + len),
{
    let a = s.subrange(start, start + len);
    let b = s.subrange(other, other + len);
    assert forall|i: int| 0 <= i < len implies a[i] == b[i] by {
        assert(s[start + i] == s[other + i]);
    }
    assert(a =~= b);
}

/// What lies in a file that was kept is passed over, and what comes right behind it is not, unless files in files are looked
/// for or it is a volume, which has files in it.
pub proof fn law_inside_is_passed_over(
    run: Run,
    st: ScanState,
    sig: Signature,
    ext: Seq<char>,
    start: int,
    len: int,
    p: int,
)
    requires
        0 < len,
        st.skip_until <= start,
    ensures
        ({
            let r = kept(run.s, run.opts, st, sig, ext, start, len);
            &&& !run.opts.allow_nested && !sig.volume ==> (run.eligible(r, p) <==> p >= start + len)
            &&& run.opts.allow_nested ==> run.eligible(r, p)
            &&& sig.volume && p >= start ==> run.eligible(r, p)
        }),
{
}

/// A file over the size cap is counted as such, and one whose header is not sound as rejected, if that is asked; neither is
/// kept, and only the first is passed over.
pub proof fn law_not_kept(
    s: Seq<u8>,
    opts: CarveOptions,
    st: ScanState,
    sig: Signature,
    start: int,
    len: int,
    v: Verdict,
)
    requires
        st.tally.large < u64::MAX,
        st.tally.rejected < u64::MAX,
    ensures
        ({
            let r = settled(s, opts, st, sig, start, len, v);
            let over = opts.max_size matches Some(max) && len > max;
            let unsound = opts.validate && !v.accept;
            &&& over || unsound ==> r.tally.list == st.tally.list && r.tally.files == st.tally.files && r.tally.bytes
                == st.tally.bytes && r.tally.duplicates == st.tally.duplicates && r.seen == st.seen && r.full
                == st.full
            &&& over ==> r.tally.large == st.tally.large + 1 && r.tally.rejected == st.tally.rejected
            &&& over && !opts.allow_nested && !sig.volume ==> r.skip_until == start + len
            &&& unsound && !over ==> r.tally.rejected == st.tally.rejected + 1 && r.tally.large == st.tally.large
                && r.skip_until == st.skip_until
            &&& !over && !unsound ==> r == kept(s, opts, st, sig, v.ext, start, len)
        }),
{
}

/// A run has enough files once it has as many as it was to find; without such a number it never has.
pub proof fn law_enough(
    s: Seq<u8>,
    opts: CarveOptions,
    st: ScanState,
    sig: Signature,
    ext: Seq<char>,
    start: int,
    len: int,
)
    ensures
        ({
            let r = kept(s, opts, st, sig, ext, start, len);
            &&& opts.max_files is None ==> !r.full
            &&& opts.max_files matches Some(max) ==> (r.full <==> r.tally.files >= max)
        }),
{
}

impl<'a> Run<'a> {
    /// A file is as long as its content from its beginning on says, with the room that the scan and the signature leave.
    pub proof fn law_length_at(self, sig: Signature, start: int)
        ensures
            sig.max_size <= self.end - start ==> self.length_at(sig, start) == extent_len(
                sig.extent,
                self.s.subrange(start, self.s.len() as int),
                sig.max_size as int,
            ),
            sig.max_size > self.end - start ==> self.length_at(sig, start) == extent_len(
                sig.extent,
                self.s.subrange(start, self.s.len() as int),
                self.end - start,
            ),
    {
        reveal(Run::length_at);
    }

    proof fn lemma_first(self, k: int, pos: int)
        requires
            self.end <= self.s.len(),
            0 <= k < self.sigs.len(),
            0 <= pos,
            is_signed(self.sigs[k], self.s, self.end, pos),
            forall|i: int| 0 <= i < k ==> !is_signed(#[trigger] self.sigs[i], self.s, self.end, pos),
        ensures
            signature_at(self.sigs, self.s, self.end, pos, 0) == Some(k),
    {
        law_first_signature(self.sigs, self.s, self.end, pos, 0);
        match signature_at(self.sigs, self.s, self.end, pos, 0) {
            Some(n) => {
                if n < k {
                    assert(!is_signed(self.sigs[n], self.s, self.end, pos));
                } else if k < n {
                    assert(!is_signed(self.sigs[k], self.s, self.end, pos));
                }
            },
            None => {
                assert(!is_signed(self.sigs[k], self.s, self.end, pos));
            },
        }
    }

    /// Where a signature stands, and none of those before it in the list, there is a file: it begins as far before as the
    /// signature has its place in it, and is as long as its content says; unless it would begin before the image, or at
    /// a place that is not asked for, or is too short.
    pub proof fn law_announced(self, k: int, start: int, len: int)
        requires
            self.end <= self.s.len(),
            0 <= k < self.sigs.len(),
            0 <= start,
            is_signed(self.sigs[k], self.s, self.end, start + self.sigs[k].magic_offset),
            forall|i: int|
                0 <= i < k ==> !is_signed(
                    #[trigger] self.sigs[i],
                    self.s,
                    self.end,
                    start + self.sigs[k].magic_offset,
                ),
            self.opts.align > 1 ==> start % self.opts.align as int == 0,
            0 < len <= self.end - start,
            len <= self.sigs[k].max_size,
            len >= self.opts.min_size,
            self.length_at(self.sigs[k], start) == Some(len),
        ensures
            self.candidate(start + self.sigs[k].magic_offset) == Some((k, start, len)),
    {
        self.lemma_first(k, start + self.sigs[k].magic_offset);
    }

    proof fn lemma_list_grows(self, st: ScanState, from: int, mid: int, to: int, v: Map<int, Verdict>)
        requires
            from <= mid <= to,
        ensures
            self.scanned(st, from, mid, v).tally.list.is_prefix_of(self.scanned(st, from, to, v).tally.list),
        decreases to - mid,
    {
        reveal(Run::after);
        let a = self.scanned(st, from, mid, v).tally.list;
        let b = self.scanned(st, from, to, v).tally.list;
        if mid < to {
            self.lemma_list_grows(st, from, mid, to - 1, v);
            let c = self.scanned(st, from, to - 1, v).tally.list;
            assert forall|i: int| 0 <= i < a.len() implies a[i] == b[i] by {
                assert(c.subrange(0, a.len() as int)[i] == c[i]);
            }
        }
        assert(a =~= b.subrange(0, a.len() as int));
    }

    /// Every file that the bytes at `pos` announce is among those that a scan across `pos` has found, if the scan comes so far,
    /// the file is not part of one before it, and nothing is said against it: it is not over the cap, its header is
    /// sound, and the same bytes need not be kept once only.
    pub proof fn law_file_is_found(
        self,
        st: ScanState,
        from: int,
        to: int,
        v: Map<int, Verdict>,
        pos: int,
        k: int,
        start: int,
        len: int,
    ) -> (r: FileRecord)
        requires
            from <= pos < to,
            self.candidate(pos) == Some((k, start, len)),
            !self.scanned(st, from, pos, v).full,
            self.opts.allow_nested || start >= self.scanned(st, from, pos, v).skip_until,
            self.opts.max_size matches Some(max) ==> len <= max,
            self.opts.validate ==> v[pos].accept,
            !self.opts.dedup,
        ensures
            self.scanned(st, from, to, v).tally.list.contains(r),
            r.offset == start,
            r.size == len,
            r.ext == v[pos].ext,
            r.digest == sha256(self.s.subrange(start, start + len)),
    {
        reveal(Run::after);
        let before = self.scanned(st, from, pos, v);
        let after = self.scanned(st, from, pos + 1, v);
        let all = self.scanned(st, from, to, v).tally.list;
        self.lemma_list_grows(st, from, pos + 1, to, v);
        let r = after.tally.list.last();
        let n = before.tally.list.len() as int;
        assert(after.tally.list[n] == all.subrange(0, after.tally.list.len() as int)[n]);
        assert(all[n] == r);
        r
    }
}

} // verus!
