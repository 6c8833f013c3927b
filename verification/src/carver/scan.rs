//! The scan: chunk after chunk of the source, and what is found in it.

use crate::bytes::{capped, is_bytes, larger, max_u64, min_u64, smaller};
use crate::carver::engine::{
    approves, digests, file_name, files_under, has_digest, kept, law_scan_in_parts,
    lemma_digests_push, lemma_heard_frame, lemma_scanned_frame, matches_at, max_offset, max_reach,
    may_answer, overlap, passed, present, reach, signature_at, tally, told_end, told_progress, told_total, CarveOptions, CarveStats,
    CarvedFile, Checkpoint, ProgressSink, Run, ScanState, Tally, Verdict, CHECKPOINT_INTERVAL,
    HEADER_LEN, HEAD_LEN, SCAN_CHUNK,
};
use crate::carver::extents::{extent_fails, file_length, room, stops_scan};
use crate::hash::{digest, sha256};
use crate::signatures::Signature;
use crate::source::{ReadError, Source};
use crate::strings::{numeral, push_numeral, same_text};
use vstd::prelude::*;
use vstd::string::*;

verus! {

/// The bytes of a signature are at `i`.
fn is_match(sig: &Signature, h: &[u8], i: usize) -> (r: bool)
    requires
        i <= h.len(),
    ensures
        r == matches_at(*sig, h@, h@.len() as int, i as int),
{
    if !is_bytes(h, i, sig.magic) {
        return false;
    }
    match sig.secondary {
        Some(x) => {
            let at: usize = x.0;
            if at > h.len() - i {
                return false;
            }
            is_bytes(h, i + at, x.1)
        },
        None => true,
    }
}

/// The first signature whose bytes are at `i`.
fn find_signature(active: &[Signature], h: &[u8], i: usize) -> (r: Option<usize>)
    requires
        i <= h.len(),
    ensures
        match r {
            Some(k) => signature_at(active@, h@, h@.len() as int, i as int, 0) == Some(k as int) && k
                < active@.len(),
            None => signature_at(active@, h@, h@.len() as int, i as int, 0) is None,
        },
{
    let mut k: usize = 0;
    while k < active.len()
        invariant
            k <= active.len(),
            i <= h.len(),
            signature_at(active@, h@, h@.len() as int, i as int, 0) == signature_at(
                active@,
                h@,
                h@.len() as int,
                i as int,
                k as int,
            ),
        decreases active.len() - k,
    {
        if is_match(&active[k], h, i) {
            return Some(k);
        }
        k += 1;
    }
    None
}

/// How far past a chunk the signatures look.
fn overlap_of(active: &[Signature]) -> (r: u64)
    ensures
        r == capped(overlap(active@)),
{
    let mut far: u64 = 0;
    let mut off: u64 = 0;
    let mut k: usize = 0;
    while k < active.len()
        invariant
            k <= active.len(),
            far == capped(max_reach(active@, k as int)),
            off == max_offset(active@, k as int),
            max_reach(active@, k as int) >= 0,
        decreases active.len() - k,
    {
        let sig = &active[k];
        far = max_u64(far, sig.magic.len() as u64);
        if let Some(x) = sig.secondary {
            far = max_u64(far, (x.0 as u64).saturating_add(x.1.len() as u64));
        }
        off = max_u64(off, sig.magic_offset);
        k += 1;
    }
    far.saturating_add(off)
}

/// No signature looks further than all of them.
proof fn lemma_max_reach(sigs: Seq<Signature>, n: int, k: int)
    requires
        0 <= k < n <= sigs.len(),
    ensures
        reach(sigs[k]) <= max_reach(sigs, n),
    decreases n,
{
    if k < n - 1 {
        lemma_max_reach(sigs, n - 1, k);
    }
}

/// The offsets of signatures are not negative.
pub proof fn lemma_max_offset(sigs: Seq<Signature>, n: int)
    requires
        n <= sigs.len(),
    ensures
        max_offset(sigs, n) >= 0,
    decreases n,
{
    if n > 0 {
        lemma_max_offset(sigs, n - 1);
    }
}

/// A part of the image that reaches far enough shows the signatures in it.
proof fn lemma_signature_in_part(
    sigs: Seq<Signature>,
    s: Seq<u8>,
    end: int,
    from: int,
    to: int,
    i: int,
    k: int,
)
    requires
        0 <= from <= to <= end <= s.len(),
        0 <= i <= to - from,
        0 <= k,
        to == end || forall|j: int| 0 <= j < sigs.len() ==> reach(#[trigger] sigs[j]) <= to - from - i,
    ensures
        signature_at(sigs, s.subrange(from, to), to - from, i, k) == signature_at(
            sigs,
            s,
            end,
            from + i,
            k,
        ),
    decreases sigs.len() - k,
{
    if k < sigs.len() {
        let sig = sigs[k];
        let h = s.subrange(from, to);
        assert(reach(sigs[k]) <= to - from - i || to == end);
        assert(present(h, to - from, i, sig.magic@) == present(s, end, from + i, sig.magic@)) by {
            if from + i + sig.magic@.len() <= to {
                assert(h.subrange(i, i + sig.magic@.len()) =~= s.subrange(
                    from + i,
                    from + i + sig.magic@.len(),
                ));
            }
        }
        if let Some(x) = sig.secondary {
            assert(present(h, to - from, i + x.0, x.1@) == present(s, end, from + i + x.0, x.1@)) by {
                if from + i + x.0 + x.1@.len() <= to {
                    assert(h.subrange(i + x.0, i + x.0 + x.1@.len()) =~= s.subrange(
                        from + i + x.0,
                        from + i + x.0 + x.1@.len(),
                    ));
                }
            }
        }
        lemma_signature_in_part(sigs, s, end, from, to, i, k + 1);
    }
}

/// Where a scan ends: at the end that was asked for, or that of the image.
pub open spec fn scan_end(opts: CarveOptions, size: int) -> int {
    match opts.end {
        Some(end) => smaller(end as int, size),
        None => size,
    }
}

/// Where a scan starts.
pub open spec fn scan_start(opts: CarveOptions, size: int) -> int {
    smaller(opts.start as int, scan_end(opts, size))
}

/// A scan goes on from what was saved of an earlier one.
pub open spec fn resumes(opts: CarveOptions, saved: Option<Checkpoint>) -> bool {
    opts.resume && opts.checkpoint is Some && saved is Some
}

/// The position from which a scan goes: the saved one, as far as it lies in the scan.
pub open spec fn first_pos(opts: CarveOptions, size: int, saved: Option<Checkpoint>) -> int {
    if resumes(opts, saved) {
        smaller(
            larger(saved->Some_0.pos as int, scan_start(opts, size)),
            scan_end(opts, size),
        )
    } else {
        scan_start(opts, size)
    }
}

/// The state in which a scan begins.
pub open spec fn first_state(
    opts: CarveOptions,
    seed: Seq<[u8; 32]>,
    saved: Option<Checkpoint>,
) -> ScanState {
    if resumes(opts, saved) {
        let c = saved->Some_0;
        ScanState {
            skip_until: c.skip_until as int,
            seen: digests(seed).union(digests(c.seen@)),
            tally: tally(c.stats),
            full: false,
        }
    } else {
        fresh_state(digests(seed))
    }
}

/// The state in which nothing has been found.
pub open spec fn fresh_state(seen: Set<Seq<u8>>) -> ScanState {
    ScanState {
        skip_until: 0,
        seen,
        tally: Tally {
            files: 0,
            bytes: 0,
            rejected: 0,
            duplicates: 0,
            large: 0,
            list: Seq::empty(),
        },
        full: false,
    }
}

/// What a scan is made of.
pub open spec fn run_of<'a>(
    source: Source,
    active: Seq<Signature<'a>>,
    opts: CarveOptions,
) -> Run<'a> {
    Run { s: source@, sigs: active, opts, end: scan_end(opts, source@.len() as int) }
}

/// A scan under way.
pub struct Scan {
    /// Where it started.
    pub base: u64,
    /// Where it ends.
    pub end: u64,
    /// The next position to look at.
    pub pos: u64,
    /// Files that start below lie inside one that was found.
    pub skip_until: u64,
    /// As many files were found as were asked for.
    pub full: bool,
    /// The digests of what was found.
    pub seen: Vec<[u8; 32]>,
    /// What was found.
    pub stats: CarveStats,
}

impl Scan {
    /// The scan is one of `source`.
    pub open spec fn wf(&self, source: Source) -> bool {
        &&& source.wf()
        &&& self.base <= self.pos <= self.end <= source@.len()
        &&& self.stats.wf()
    }

    /// How far the scan has come.
    pub open spec fn state(&self) -> ScanState {
        ScanState {
            skip_until: self.skip_until as int,
            seen: digests(self.seen@),
            tally: tally(self.stats),
            full: self.full,
        }
    }

    /// Begin a scan of `source`, or go on with one that was saved. `seed` holds digests of content that
    /// was recovered by other means.
    pub fn begin(
        source: &Source,
        opts: &CarveOptions,
        seed: Vec<[u8; 32]>,
        saved: Option<Checkpoint>,
    ) -> (r: Self)
        requires
            source.wf(),
            saved matches Some(c) ==> c.stats.wf(),
        ensures
            r.wf(*source),
            r.base == scan_start(*opts, source@.len() as int),
            r.end == scan_end(*opts, source@.len() as int),
            r.pos == first_pos(*opts, source@.len() as int, saved),
            r.state() == first_state(*opts, seed@, saved),
            r.stats.bytes_scanned == if resumes(*opts, saved) {
                saved->Some_0.stats.bytes_scanned
            } else {
                0
            },
    {
        let size: u64 = source.size();
        let end: u64 = match opts.end {
            Some(end) => min_u64(end, size),
            None => size,
        };
        let base: u64 = min_u64(opts.start, end);
        let mut seen = seed;
        if opts.resume && opts.checkpoint.is_some() {
            if let Some(c) = saved {
                let pos: u64 = min_u64(max_u64(c.pos, base), end);
                let mut more = c.seen;
                proof {
                    assert forall|d: Seq<u8>|
                        digests(seed@ + c.seen@).contains(d) == digests(seed@).union(
                            digests(c.seen@),
                        ).contains(d) by {
                        let both = seed@ + c.seen@;
                        if digests(seed@).contains(d) {
                            let i = choose|i: int| 0 <= i < seed@.len() && #[trigger] seed@[i]@ == d;
                            assert(both[i]@ == d);
                        }
                        if digests(c.seen@).contains(d) {
                            let i = choose|i: int|
                                0 <= i < c.seen@.len() && #[trigger] c.seen@[i]@ == d;
                            assert(both[seed@.len() + i]@ == d);
                        }
                        if digests(both).contains(d) {
                            let i = choose|i: int| 0 <= i < both.len() && #[trigger] both[i]@ == d;
                            if i < seed@.len() {
                                assert(seed@[i]@ == d);
                            } else {
                                assert(c.seen@[i - seed@.len()]@ == d);
                            }
                        }
                    }
                    assert(digests(seed@ + c.seen@) =~= digests(seed@).union(digests(c.seen@)));
                }
                seen.append(&mut more);
                return Scan {
                    base,
                    end,
                    pos,
                    skip_until: c.skip_until,
                    full: false,
                    seen,
                    stats: c.stats,
                };
            }
        }
        let stats = CarveStats::empty();
        Scan { base, end, pos: base, skip_until: 0, full: false, seen, stats }
    }

    /// Whether the scan should be checkpointed again, the last checkpoint being at `last`.
    pub fn checkpoint_due(&self, last: u64) -> (r: bool)
        requires
            last <= self.pos,
        ensures
            r == (self.pos - last >= CHECKPOINT_INTERVAL),
    {
        self.pos - last >= CHECKPOINT_INTERVAL
    }

    /// Whether nothing is left to scan.
    pub fn done(&self) -> (r: bool)
        ensures
            r == (self.full || self.pos >= self.end),
    {
        self.full || self.pos >= self.end
    }
}

/// A read that is made where the bytes at `pos` are looked at in state `st` runs into an unreadable byte: one by which
/// a file that they announce is sized, one of its header, where that is checked, or, unless the header is found
/// unsound (`accept` being what is answered), one by which it is told what the file holds, or of the file itself.
#[verifier::opaque]
pub open spec fn unread(source: Source, c: Run, st: ScanState, pos: int, accept: bool) -> bool {
    match signature_at(c.sigs, c.s, c.end, pos, 0) {
        None => false,
        Some(k) => {
            let sig = c.sigs[k];
            let start = pos - sig.magic_offset;
            start >= 0 && !(c.opts.align > 1 && start % c.opts.align as int != 0) && c.eligible(st, start)
                && (extent_fails(sig.extent, source, start, room(sig, start, c.end))
                || match c.candidate(pos) {
                None => false,
                Some((_, _, len)) => !c.is_over(len) && ((c.opts.validate && source.faulty(
                    start,
                    smaller(len, HEADER_LEN as int),
                )) || ((!c.opts.validate || accept) && (((sig.ext@ == "zip"@ || sig.ext@ == "ole"@)
                    && source.faulty(start, smaller(len, HEAD_LEN as int))) || source.faulty(start, len)))),
            })
        },
    }
}

/// A read that is made where the bytes at `pos` are looked at in state `st` runs into an unreadable byte, whatever
/// `accepts` answers or because it answers that the header is sound.
pub open spec fn fails_at<A: Fn(&Signature, &Vec<u8>) -> bool>(
    source: Source,
    c: Run,
    accepts: A,
    st: ScanState,
    pos: int,
) -> bool {
    ||| unread(source, c, st, pos, false)
    ||| unread(source, c, st, pos, true) && (c.opts.validate ==> match c.candidate(pos) {
        Some((k, start, len)) => approves(
            accepts,
            c.sigs[k],
            c.beginning(start, len, HEADER_LEN as int),
            true,
        ),
        None => false,
    })
}

/// No read runs into an unreadable byte where a scan from `from` to `to` that began in state `st` looks, `v` being
/// what was answered.
pub open spec fn clear(
    source: Source,
    c: Run,
    st: ScanState,
    from: int,
    to: int,
    v: Map<int, Verdict>,
) -> bool {
    forall|p: int|
        from <= p < to && !c.scanned(st, from, p, v).full ==> !#[trigger] unread(
            source,
            c,
            c.scanned(st, from, p, v),
            p,
            v[p].accept,
        )
}

/// How much of the image is read for the chunk at `pos`.
pub open spec fn chunk_read(c: Run, pos: int) -> int {
    smaller(c.end - pos, SCAN_CHUNK + overlap(c.sigs))
}

/// A scan from `from` that began in state `st` has come to `p`, `v` being what was answered, and a read there runs into
/// an unreadable byte.
pub open spec fn blocked_at<
    A: Fn(&Signature, &Vec<u8>) -> bool,
    K: Fn(&str, &Vec<u8>) -> Option<String>,
>(
    source: Source,
    c: Run,
    accepts: A,
    classify: K,
    st: ScanState,
    from: int,
    p: int,
    v: Map<int, Verdict>,
) -> bool {
    &&& c.heard(accepts, classify, st, from, p, v)
    &&& clear(source, c, st, from, p, v)
    &&& !c.scanned(st, from, p, v).full
    &&& fails_at(source, c, accepts, c.scanned(st, from, p, v), p)
}

/// The chunk at `from`, which ends at `to`, cannot be scanned in state `st`: it cannot be read itself, or a read at one
/// of its positions runs into an unreadable byte.
pub open spec fn blocked<
    A: Fn(&Signature, &Vec<u8>) -> bool,
    K: Fn(&str, &Vec<u8>) -> Option<String>,
>(
    source: Source,
    c: Run,
    accepts: A,
    classify: K,
    st: ScanState,
    from: int,
    to: int,
) -> bool {
    ||| source.faulty(from, chunk_read(c, from))
    ||| exists|p: int, v: Map<int, Verdict>|
        from <= p < to && #[trigger] blocked_at(source, c, accepts, classify, st, from, p, v)
}

/// Check the header of the file of type `sig` with `len` bytes at `file_start`: `accepts` answers whether its
/// beginning could be that of such a file.
pub fn passes_validation<A: Fn(&Signature, &Vec<u8>) -> bool>(
    source: &Source,
    sig: &Signature,
    accepts: &A,
    file_start: u64,
    len: u64,
) -> (r: Result<bool, ReadError>)
    requires
        source.wf(),
        file_start + len <= source@.len(),
        forall|s: &Signature, h: &Vec<u8>| call_requires(*accepts, (s, h)),
    ensures
        match r {
            Ok(accept) => approves(
                *accepts,
                *sig,
                source@.subrange(
                    file_start as int,
                    file_start + smaller(len as int, HEADER_LEN as int),
                ),
                accept,
            ),
            Err(e) => source.explains(e) && e.offset < file_start + len,
        },
        r is Err <==> source.faulty(file_start as int, smaller(len as int, HEADER_LEN as int)),
{
    let take: u64 = min_u64(len, HEADER_LEN as u64);
    let header = source.read_at(file_start, take as usize)?;
    assert(header@ =~= source@.subrange(
        file_start as int,
        file_start + smaller(len as int, HEADER_LEN as int),
    ));
    let accept = accepts(sig, &header);
    assert(call_ensures(*accepts, (sig, &header), accept));
    Ok(accept)
}

/// The extension to write a carved file under: that of the signature, or, for archives and compound files,
/// that of what `classify` answers they hold.
pub fn effective_ext<K: Fn(&str, &Vec<u8>) -> Option<String>>(
    source: &Source,
    sig: &Signature,
    classify: &K,
    file_start: u64,
    len: u64,
) -> (r: Result<String, ReadError>)
    requires
        source.wf(),
        file_start + len <= source@.len(),
        forall|e: &str, h: &Vec<u8>| call_requires(*classify, (e, h)),
    ensures
        match r {
            Ok(ext) => files_under(
                *classify,
                *sig,
                source@.subrange(
                    file_start as int,
                    file_start + smaller(len as int, HEAD_LEN as int),
                ),
                ext@,
            ),
            Err(e) => source.explains(e) && e.offset < file_start + len,
        },
        r is Err <==> (sig.ext@ == "zip"@ || sig.ext@ == "ole"@) && source.faulty(
            file_start as int,
            smaller(len as int, HEAD_LEN as int),
        ),
{
    if !same_text(sig.ext, "zip") && !same_text(sig.ext, "ole") {
        return Ok(sig.ext.to_owned());
    }
    let take: u64 = min_u64(len, HEAD_LEN as u64);
    let head = source.read_at(file_start, take as usize)?;
    assert(head@ =~= source@.subrange(
        file_start as int,
        file_start + smaller(len as int, HEAD_LEN as int),
    ));
    let answer = classify(sig.ext, &head);
    assert(call_ensures(*classify, (sig.ext, &head), answer));
    match answer {
        Some(ext) => Ok(ext),
        None => Ok(sig.ext.to_owned()),
    }
}

/// The name of a carved file.
fn carved_name(number: u64, offset: u64, ext: &str, organize: bool) -> (r: String)
    ensures
        r@ == file_name(number as nat, offset as nat, ext@, organize),
{
    let mut name = String::new();
    if organize {
        name.append(ext);
        name.append("/");
    }
    let ghost dir = name@;
    push_numeral(&mut name, number, 10, 8);
    name.append("_0x");
    push_numeral(&mut name, offset, 16, 14);
    name.append(".");
    name.append(ext);
    assert(name@ =~= dir + (numeral(number as nat, 10, 8) + "_0x"@ + numeral(offset as nat, 16, 14)
        + "."@ + ext@));
    assert(organize ==> dir =~= ext@ + "/"@);
    assert(name@ =~= file_name(number as nat, offset as nat, ext@, organize));
    name
}

impl Scan {
    /// Nothing more starts in the file of type `sig` with `len` bytes at `file_start`, unless nested files
    /// are looked for or it is an image of a file system, whose files are what the scan is for.
    fn pass_over(&mut self, sig: &Signature, opts: &CarveOptions, file_start: u64, len: u64)
        requires
            file_start + len <= u64::MAX,
        ensures
            final(self).state() == (ScanState {
                skip_until: passed(
                    *opts,
                    old(self).state(),
                    *sig,
                    file_start as int,
                    len as int,
                ),
                ..old(self).state()
            }),
            final(self).base == old(self).base,
            final(self).end == old(self).end,
            final(self).pos == old(self).pos,
            final(self).stats == old(self).stats,
    {
        if !opts.allow_nested && !sig.is_volume() {
            self.skip_until = file_start + len;
        }
    }

    /// Recover the file of type `sig` with `len` bytes at `file_start` under an extension. Content that was
    /// found before counts as a duplicate when duplicates are dropped.
    pub fn keep_file(
        &mut self,
        source: &Source,
        sig: &Signature,
        opts: &CarveOptions,
        file_start: u64,
        len: u64,
        ext: String,
    ) -> (r: Result<(), ReadError>)
        requires
            old(self).wf(*source),
            file_start + len <= source@.len(),
        ensures
            match r {
                Ok(_) => {
                    &&& final(self).wf(*source)
                    &&& final(self).state() == kept(
                        source@,
                        *opts,
                        old(self).state(),
                        *sig,
                        ext@,
                        file_start as int,
                        len as int,
                    )
                    &&& final(self).base == old(self).base
                    &&& final(self).end == old(self).end
                    &&& final(self).pos == old(self).pos
                    &&& final(self).stats.bytes_scanned == old(self).stats.bytes_scanned
                },
                Err(e) => source.explains(e) && e.offset < file_start + len,
            },
            r is Err <==> source.faulty(file_start as int, len as int),
    {
        let ghost st = self.state();
        let content = source.read_at(file_start, len as usize)?;
        assert(content@ =~= source@.subrange(file_start as int, file_start + len));
        let sum = digest(&content);
        if opts.dedup && has_digest(&self.seen, &sum) {
            self.stats.duplicates = self.stats.duplicates.saturating_add(1);
            assert(st.seen.insert(sum@) =~= st.seen);
        } else {
            if opts.dedup {
                proof {
                    lemma_digests_push(self.seen@, sum);
                }
                self.seen.push(sum);
            }
            let name = carved_name(
                self.stats.files_recovered,
                file_start,
                ext.as_str(),
                opts.organize,
            );
            self.stats.files_recovered = self.stats.files_recovered.saturating_add(1);
            self.stats.bytes_recovered = self.stats.bytes_recovered.saturating_add(len);
            self.stats.list_file(
                CarvedFile { name, ext, offset: file_start, size: len, sha256: sum },
            );
        }
        self.pass_over(sig, opts, file_start, len);
        self.full = match opts.max_files {
            Some(max) => self.stats.files_recovered >= max,
            None => false,
        };
        assert(self.state() =~= kept(
            source@,
            *opts,
            st,
            *sig,
            ext@,
            file_start as int,
            len as int,
        ));
        Ok(())
    }

    /// Deal with the bytes of the signature `active[k]` at `at`.
    fn meet<A: Fn(&Signature, &Vec<u8>) -> bool, K: Fn(&str, &Vec<u8>) -> Option<String>>(
        &mut self,
        source: &Source,
        active: &[Signature],
        opts: &CarveOptions,
        accepts: &A,
        classify: &K,
        at: u64,
        k: usize,
    ) -> (r: Result<Ghost<Verdict>, ReadError>)
        requires
            old(self).wf(*source),
            !old(self).full,
            old(self).end == scan_end(*opts, source@.len() as int),
            k < active@.len(),
            active@[k as int].extent.wf(),
            at <= old(self).end,
            signature_at(active@, source@, old(self).end as int, at as int, 0) == Some(k as int),
            forall|s: &Signature, h: &Vec<u8>| call_requires(*accepts, (s, h)),
            forall|e: &str, h: &Vec<u8>| call_requires(*classify, (e, h)),
        ensures
            match r {
                Ok(v) => {
                    let c = run_of(*source, active@, *opts);
                    &&& final(self).wf(*source)
                    &&& final(self).state() == c.after(old(self).state(), at as int, v@)
                    &&& c.answered(*accepts, *classify, old(self).state(), at as int, v@)
                    &&& !unread(*source, c, old(self).state(), at as int, v@.accept)
                    &&& final(self).base == old(self).base
                    &&& final(self).end == old(self).end
                    &&& final(self).pos == old(self).pos
                    &&& final(self).stats.bytes_scanned == old(self).stats.bytes_scanned
                },
                Err(e) => stops_scan(*source, active@, old(self).end as int, e) && fails_at(
                    *source,
                    run_of(*source, active@, *opts),
                    *accepts,
                    old(self).state(),
                    at as int,
                ),
            },
    {
        proof {
            reveal(Run::after);
            reveal(unread);
        }
        let sig = &active[k];
        let ghost st = self.state();
        let ghost c = run_of(*source, active@, *opts);
        let ghost none = Verdict { accept: false, ext: Seq::empty() };
        if at < sig.magic_offset {
            return Ok(Ghost(none));
        }
        let file_start: u64 = at - sig.magic_offset;
        if opts.align > 1 && file_start % opts.align != 0 {
            return Ok(Ghost(none));
        }
        if !opts.allow_nested && file_start < self.skip_until {
            return Ok(Ghost(none));
        }
        assert(c.tail(file_start as int) == source.tail(file_start as int));
        proof {
            reveal(Run::length_at);
        }
        let len: u64 = match file_length(source, sig, file_start, self.end)? {
            Some(len) => len,
            None => {
                return Ok(Ghost(none));
            },
        };
        if len < opts.min_size {
            return Ok(Ghost(none));
        }
        assert(c.candidate(at as int) == Some((k as int, file_start as int, len as int)));
        assert(c.eligible(st, file_start as int));
        assert(!extent_fails(
            sig.extent,
            *source,
            file_start as int,
            room(*sig, file_start as int, c.end),
        ));
        let over = match opts.max_size {
            Some(max) => len > max,
            None => false,
        };
        if over {
            self.stats.skipped_large = self.stats.skipped_large.saturating_add(1);
            self.pass_over(sig, opts, file_start, len);
            assert(self.state() =~= c.after(st, at as int, none));
            return Ok(Ghost(none));
        }
        if opts.validate && !passes_validation(source, sig, accepts, file_start, len)? {
            self.stats.rejected = self.stats.rejected.saturating_add(1);
            assert(self.state() =~= c.after(st, at as int, none));
            return Ok(Ghost(none));
        }
        let ext = effective_ext(source, sig, classify, file_start, len)?;
        let ghost v = Verdict { accept: true, ext: ext@ };
        self.keep_file(source, sig, opts, file_start, len, ext)?;
        Ok(Ghost(v))
    }
}

impl Scan {
    /// Scan the next chunk.
    pub fn advance<A: Fn(&Signature, &Vec<u8>) -> bool, K: Fn(&str, &Vec<u8>) -> Option<String>>(
        &mut self,
        source: &Source,
        active: &[Signature],
        opts: &CarveOptions,
        accepts: &A,
        classify: &K,
    ) -> (r: Result<(), ReadError>)
        requires
            old(self).wf(*source),
            !old(self).full,
            old(self).pos < old(self).end,
            old(self).end == scan_end(*opts, source@.len() as int),
            forall|k: int| 0 <= k < active@.len() ==> (#[trigger] active@[k]).extent.wf(),
            forall|s: &Signature, h: &Vec<u8>| call_requires(*accepts, (s, h)),
            forall|e: &str, h: &Vec<u8>| call_requires(*classify, (e, h)),
        ensures
            match r {
                Ok(_) => {
                    let c = run_of(*source, active@, *opts);
                    let to = c.chunk_end(old(self).pos as int);
                    &&& final(self).wf(*source)
                    &&& final(self).base == old(self).base
                    &&& final(self).end == old(self).end
                    &&& !source.faulty(old(self).pos as int, chunk_read(c, old(self).pos as int))
                    &&& exists|v: Map<int, Verdict>|
                        {
                            &&& #[trigger] c.heard(
                                *accepts,
                                *classify,
                                old(self).state(),
                                old(self).pos as int,
                                to,
                                v,
                            )
                            &&& clear(
                                *source,
                                c,
                                old(self).state(),
                                old(self).pos as int,
                                to,
                                v,
                            )
                            &&& final(self).state() == c.scanned(
                                old(self).state(),
                                old(self).pos as int,
                                to,
                                v,
                            )
                        }
                    &&& final(self).pos == if final(self).full {
                        old(self).pos as int
                    } else {
                        to
                    }
                    &&& final(self).stats.bytes_scanned == if final(self).full {
                        old(self).stats.bytes_scanned as int
                    } else {
                        to - final(self).base
                    }
                },
                Err(e) => {
                    let c = run_of(*source, active@, *opts);
                    &&& stops_scan(*source, active@, old(self).end as int, e)
                    &&& blocked(
                        *source,
                        c,
                        *accepts,
                        *classify,
                        old(self).state(),
                        old(self).pos as int,
                        c.chunk_end(old(self).pos as int),
                    )
                },
            },
    {
        let ghost c = run_of(*source, active@, *opts);
        let ghost st = self.state();
        let ghost before = self.stats.bytes_scanned;
        let ghost mut v: Map<int, Verdict> = Map::empty();
        let from: u64 = self.pos;
        let base: u64 = self.base;
        let end: u64 = self.end;
        let beyond: u64 = overlap_of(active);
        proof {
            lemma_max_offset(active@, active@.len() as int);
            lemma_max_reach_sign(active@, active@.len() as int);
        }
        let want: u64 = min_u64(end - from, SCAN_CHUNK.saturating_add(beyond));
        assert(want == chunk_read(c, from as int));
        let h = source.read_at(from, want as usize)?;
        assert(h@ =~= source@.subrange(from as int, from + want));
        let count: u64 = if want == end - from {
            want
        } else {
            SCAN_CHUNK
        };
        assert(from + count == c.chunk_end(from as int));
        let mut i: u64 = 0;
        while i < count
            invariant
                self.wf(*source),
                self.pos == from,
                self.base == base,
                self.end == end,
                !self.full,
                self.stats.bytes_scanned == before,
                end == scan_end(*opts, source@.len() as int),
                c == run_of(*source, active@, *opts),
                i <= count <= want == h@.len(),
                from + want <= end,
                h@ == source@.subrange(from as int, from + want),
                from + want == end || want == count + overlap(active@),
                max_offset(active@, active@.len() as int) >= 0,
                from + count == c.chunk_end(from as int),
                forall|k: int| 0 <= k < active@.len() ==> (#[trigger] active@[k]).extent.wf(),
                forall|s: &Signature, h: &Vec<u8>| call_requires(*accepts, (s, h)),
                forall|e: &str, h: &Vec<u8>| call_requires(*classify, (e, h)),
                self.state() == c.scanned(st, from as int, from + i, v),
                c.heard(*accepts, *classify, st, from as int, from + i, v),
                clear(*source, c, st, from as int, from + i, v),
                !source.faulty(from as int, chunk_read(c, from as int)),
                st == old(self).state(),
                from == old(self).pos,
                base == old(self).base,
                end == old(self).end,
                before == old(self).stats.bytes_scanned,
            decreases count - i,
        {
            proof {
                assert forall|j: int| 0 <= j < active@.len() && want == count + overlap(
                    active@,
                ) implies reach(#[trigger] active@[j]) <= want - i by {
                    lemma_max_reach(active@, active@.len() as int, j);
                }
                lemma_signature_in_part(
                    active@,
                    source@,
                    end as int,
                    from as int,
                    from + want,
                    i as int,
                    0,
                );
            }
            let ghost now = self.state();
            let ghost mut verdict = Verdict { accept: false, ext: Seq::empty() };
            match find_signature(active, &h, i as usize) {
                Some(k) => {
                    match self.meet(source, active, opts, accepts, classify, from + i, k) {
                        Ok(met) => {
                            proof {
                                verdict = met@;
                            }
                        },
                        Err(e) => {
                            assert(blocked_at(
                                *source,
                                c,
                                *accepts,
                                *classify,
                                st,
                                from as int,
                                from + i,
                                v,
                            ));
                            return Err(e);
                        },
                    }
                },
                None => {
                    proof {
                        lemma_nothing_met(*source, c, now, from + i, verdict);
                    }
                },
            }
            proof {
                lemma_one_more(
                    *source,
                    c,
                    *accepts,
                    *classify,
                    st,
                    from as int,
                    from + i,
                    v,
                    verdict,
                );
                v = v.insert(from + i, verdict);
            }
            i = i + 1;
            if self.full {
                proof {
                    lemma_full(c, st, from as int, from + i, from + count, v);
                    lemma_full_heard(
                        *source,
                        c,
                        *accepts,
                        *classify,
                        st,
                        from as int,
                        from + i,
                        from + count,
                        v,
                    );
                }
                return Ok(());
            }
        }
        self.pos = from + count;
        self.stats.bytes_scanned = self.pos - base;
        assert(self.state() =~= c.scanned(st, from as int, from + count, v));
        Ok(())
    }
}

/// One position more of a scan.
proof fn lemma_one_more<
    A: Fn(&Signature, &Vec<u8>) -> bool,
    K: Fn(&str, &Vec<u8>) -> Option<String>,
>(
    source: Source,
    c: Run,
    accepts: A,
    classify: K,
    st: ScanState,
    from: int,
    at: int,
    v: Map<int, Verdict>,
    verdict: Verdict,
)
    requires
        from <= at,
        c.heard(accepts, classify, st, from, at, v),
        !c.scanned(st, from, at, v).full,
        c.answered(accepts, classify, c.scanned(st, from, at, v), at, verdict),
        clear(source, c, st, from, at, v),
        !unread(source, c, c.scanned(st, from, at, v), at, verdict.accept),
    ensures
        ({
            let w = v.insert(at, verdict);
            &&& c.heard(accepts, classify, st, from, at + 1, w)
            &&& clear(source, c, st, from, at + 1, w)
            &&& c.scanned(st, from, at + 1, w) == c.after(
                c.scanned(st, from, at, v),
                at,
                verdict,
            )
        }),
{
    let w = v.insert(at, verdict);
    lemma_scanned_frame(c, st, from, at, v, w);
    lemma_heard_frame(c, accepts, classify, st, from, at, v, w);
    assert(w[at] == verdict);
    assert forall|p: int| from <= p < at + 1 implies #[trigger] c.answered(
        accepts,
        classify,
        c.scanned(st, from, p, w),
        p,
        w[p],
    ) by {
        if p == at {
            assert(c.answered(accepts, classify, c.scanned(st, from, at, w), at, verdict));
        }
    }
    assert forall|p: int| from <= p < at + 1 && !c.scanned(st, from, p, w).full implies !#[trigger] unread(
        source,
        c,
        c.scanned(st, from, p, w),
        p,
        w[p].accept,
    ) by {
        lemma_scanned_frame(c, st, from, p, v, w);
        if p < at {
            assert(!unread(source, c, c.scanned(st, from, p, v), p, v[p].accept));
        }
    }
}

/// Where there are no bytes of a signature, nothing is found, and nothing is asked.
proof fn lemma_nothing_met(source: Source, c: Run, st: ScanState, pos: int, v: Verdict)
    requires
        signature_at(c.sigs, c.s, c.end, pos, 0) is None,
    ensures
        c.after(st, pos, v) == st,
        c.candidate(pos) is None,
        !unread(source, c, st, pos, v.accept),
{
    reveal(Run::after);
    reveal(unread);
}

/// What signatures look at is not negative.
pub proof fn lemma_max_reach_sign(sigs: Seq<Signature>, n: int)
    ensures
        max_reach(sigs, n) >= 0,
    decreases n,
{
    if n > 0 {
        lemma_max_reach_sign(sigs, n - 1);
    }
}

/// A full run goes no further.
pub proof fn lemma_full(
    c: Run,
    st: ScanState,
    from: int,
    mid: int,
    to: int,
    v: Map<int, Verdict>,
)
    requires
        from <= mid <= to,
        c.scanned(st, from, mid, v).full,
    ensures
        c.scanned(st, from, to, v) == c.scanned(st, from, mid, v),
    decreases to - mid,
{
    if mid < to {
        lemma_full(c, st, from, mid, to - 1, v);
    }
}

/// A full run asks nothing more.
proof fn lemma_full_heard<
    A: Fn(&Signature, &Vec<u8>) -> bool,
    K: Fn(&str, &Vec<u8>) -> Option<String>,
>(
    source: Source,
    c: Run,
    accepts: A,
    classify: K,
    st: ScanState,
    from: int,
    mid: int,
    to: int,
    v: Map<int, Verdict>,
)
    requires
        from <= mid <= to,
        c.scanned(st, from, mid, v).full,
        c.heard(accepts, classify, st, from, mid, v),
        clear(source, c, st, from, mid, v),
    ensures
        c.heard(accepts, classify, st, from, to, v),
        clear(source, c, st, from, to, v),
{
    assert forall|p: int| from <= p < to implies #[trigger] c.answered(
        accepts,
        classify,
        c.scanned(st, from, p, v),
        p,
        v[p],
    ) by {
        if p >= mid {
            lemma_full(c, st, from, mid, p, v);
        }
    }
    assert forall|p: int| from <= p < to && !c.scanned(st, from, p, v).full implies !#[trigger] unread(
        source,
        c,
        c.scanned(st, from, p, v),
        p,
        v[p].accept,
    ) by {
        if p >= mid {
            lemma_full(c, st, from, mid, p, v);
        }
    }
}

/// The answers of two parts of a scan are those of the whole.
proof fn lemma_heard_in_parts<
    A: Fn(&Signature, &Vec<u8>) -> bool,
    K: Fn(&str, &Vec<u8>) -> Option<String>,
>(
    c: Run,
    accepts: A,
    classify: K,
    st: ScanState,
    from: int,
    mid: int,
    to: int,
    v: Map<int, Verdict>,
)
    requires
        from <= mid <= to,
        c.heard(accepts, classify, st, from, mid, v),
        c.heard(accepts, classify, c.scanned(st, from, mid, v), mid, to, v),
    ensures
        c.heard(accepts, classify, st, from, to, v),
{
    let half = c.scanned(st, from, mid, v);
    assert forall|p: int| from <= p < to implies #[trigger] c.answered(
        accepts,
        classify,
        c.scanned(st, from, p, v),
        p,
        v[p],
    ) by {
        if p >= mid {
            law_scan_in_parts(c, st, from, mid, p, v);
            assert(c.answered(accepts, classify, c.scanned(half, mid, p, v), p, v[p]));
        }
    }
}

/// What was decided before `at`, and what from there on.
spec fn spliced(v: Map<int, Verdict>, w: Map<int, Verdict>, at: int) -> Map<int, Verdict> {
    Map::new(
        |p: int| true,
        |p: int|
            if p < at {
                v[p]
            } else {
                w[p]
            },
    )
}

/// A scan and what is scanned after it make one scan.
proof fn lemma_spliced<
    A: Fn(&Signature, &Vec<u8>) -> bool,
    K: Fn(&str, &Vec<u8>) -> Option<String>,
>(
    source: Source,
    c: Run,
    accepts: A,
    classify: K,
    st: ScanState,
    from: int,
    mid: int,
    to: int,
    v: Map<int, Verdict>,
    w: Map<int, Verdict>,
)
    requires
        from <= mid <= to,
        c.heard(accepts, classify, st, from, mid, v),
        c.heard(accepts, classify, c.scanned(st, from, mid, v), mid, to, w),
        clear(source, c, st, from, mid, v),
        clear(source, c, c.scanned(st, from, mid, v), mid, to, w),
    ensures
        ({
            let x = spliced(v, w, mid);
            &&& c.heard(accepts, classify, st, from, to, x)
            &&& clear(source, c, st, from, to, x)
            &&& c.scanned(st, from, to, x) == c.scanned(c.scanned(st, from, mid, v), mid, to, w)
            &&& forall|p: int| p <= mid ==> #[trigger] c.scanned(st, from, p, x) == c.scanned(
                st,
                from,
                p,
                v,
            )
        }),
{
    let x = spliced(v, w, mid);
    let half = c.scanned(st, from, mid, v);
    assert forall|p: int| p <= mid implies #[trigger] c.scanned(st, from, p, x) == c.scanned(
        st,
        from,
        p,
        v,
    ) by {
        lemma_scanned_frame(c, st, from, p, v, x);
    }
    lemma_heard_frame(c, accepts, classify, st, from, mid, v, x);
    lemma_scanned_frame(c, half, mid, to, w, x);
    lemma_heard_frame(c, accepts, classify, half, mid, to, w, x);
    law_scan_in_parts(c, st, from, mid, to, x);
    lemma_heard_in_parts(c, accepts, classify, st, from, mid, to, x);
    assert forall|p: int| from <= p < to && !c.scanned(st, from, p, x).full implies !#[trigger] unread(
        source,
        c,
        c.scanned(st, from, p, x),
        p,
        x[p].accept,
    ) by {
        if p < mid {
            assert(!unread(source, c, c.scanned(st, from, p, v), p, v[p].accept));
        } else {
            law_scan_in_parts(c, st, from, mid, p, x);
            lemma_scanned_frame(c, half, mid, p, w, x);
            assert(!unread(source, c, c.scanned(half, mid, p, w), p, w[p].accept));
        }
    }
}

/// Scan `source` for the `active` signatures and tally what can be recovered.
///
/// `accepts` answers whether the beginning of a candidate could be that of a file of its type, and `classify`
/// by its beginning what an archive or compound file holds. The scan ends early when `progress` says so, and
/// when as many files were found as were asked for. It goes on from `saved` where it is to resume.
pub fn carve<
    P: ProgressSink,
    A: Fn(&Signature, &Vec<u8>) -> bool,
    K: Fn(&str, &Vec<u8>) -> Option<String>,
>(
    source: &Source,
    active: &[Signature],
    opts: &CarveOptions,
    progress: &P,
    accepts: &A,
    classify: &K,
    saved: Option<Checkpoint>,
) -> (r: Result<CarveStats, ReadError>)
    requires
        source.wf(),
        saved matches Some(c) ==> c.stats.wf(),
        forall|k: int| 0 <= k < active@.len() ==> (#[trigger] active@[k]).extent.wf(),
        forall|s: &Signature, h: &Vec<u8>| call_requires(*accepts, (s, h)),
        forall|e: &str, h: &Vec<u8>| call_requires(*classify, (e, h)),
    ensures
        match r {
            Ok(stats) => stats.wf() && exists|n: nat, v: Map<int, Verdict>| #[trigger]
                carved(
                    *source,
                    active@,
                    *opts,
                    *progress,
                    *accepts,
                    *classify,
                    Seq::empty(),
                    saved,
                    n,
                    v,
                    stats,
                ) && got_through(*source, active@, *opts, Seq::empty(), saved, n, v),
            Err(e) => stops_scan(*source, active@, scan_end(*opts, source@.len() as int), e)
                && exists|n: nat, v: Map<int, Verdict>| #[trigger]
                broke_off(
                    *source,
                    active@,
                    *opts,
                    *progress,
                    *accepts,
                    *classify,
                    Seq::empty(),
                    saved,
                    n,
                    v,
                ),
        },
{
    carve_seeded(source, active, opts, progress, accepts, classify, Vec::new(), saved)
}

/// How many bytes the sink is told have been scanned, each time that it is told so in a scan of `n` chunks, `v` being
/// what was answered at each position: first where the scan begins, and then where each chunk ends, but for the one in
/// which the run gets full.
pub open spec fn reports(
    source: Source,
    active: Seq<Signature>,
    opts: CarveOptions,
    seed: Seq<[u8; 32]>,
    saved: Option<Checkpoint>,
    n: nat,
    v: Map<int, Verdict>,
) -> Seq<int> {
    let size = source@.len() as int;
    let c = run_of(source, active, opts);
    let from = first_pos(opts, size, saved);
    let full = c.scanned(first_state(opts, seed, saved), from, c.chunks_end(from, n), v).full;
    Seq::new(
        if n > 0 && full {
            n
        } else {
            n + 1
        },
        |m: int| c.chunks_end(from, m as nat) - scan_start(opts, size),
    )
}

/// The sink was told how many bytes there are to scan, and how many had been each time.
pub open spec fn reported<P: ProgressSink>(
    progress: P,
    source: Source,
    active: Seq<Signature>,
    opts: CarveOptions,
    seed: Seq<[u8; 32]>,
    saved: Option<Checkpoint>,
    n: nat,
    v: Map<int, Verdict>,
) -> bool {
    let size = source@.len() as int;
    let told = reports(source, active, opts, seed, saved, n, v);
    &&& told_total(progress, (scan_end(opts, size) - scan_start(opts, size)) as u64)
    &&& forall|m: int| 0 <= m < told.len() ==> told_progress(progress, #[trigger] told[m] as u64)
}

/// What a scan comes to that goes over `n` chunks, `v` being what was answered at each position. Before every
/// chunk the sink is asked whether to stop, and the scan goes on only if it answers that it need not, and stops
/// early only if it answers that it must. It is told how far the scan is.
pub open spec fn carved<
    P: ProgressSink,
    A: Fn(&Signature, &Vec<u8>) -> bool,
    K: Fn(&str, &Vec<u8>) -> Option<String>,
>(
    source: Source,
    active: Seq<Signature>,
    opts: CarveOptions,
    progress: P,
    accepts: A,
    classify: K,
    seed: Seq<[u8; 32]>,
    saved: Option<Checkpoint>,
    n: nat,
    v: Map<int, Verdict>,
    stats: CarveStats,
) -> bool {
    let size = source@.len() as int;
    let c = run_of(source, active, opts);
    let st = first_state(opts, seed, saved);
    let from = first_pos(opts, size, saved);
    &&& c.heard(accepts, classify, st, from, c.chunks_end(from, n), v)
    &&& n > 0 ==> may_answer(progress, false)
    &&& reported(progress, source, active, opts, seed, saved, n, v)
    &&& told_end(progress, stats.bytes_scanned)
    &&& c.ended(
        st,
        from,
        n,
        v,
        may_answer(progress, true),
        scan_start(opts, size),
        if resumes(opts, saved) {
            saved->Some_0.stats.bytes_scanned as int
        } else {
            0
        },
        stats,
    )
}

/// A scan of `n` chunks runs into no unreadable byte, neither in the chunks nor where it looks in them, `v` being what
/// was answered at each position.
pub open spec fn got_through(
    source: Source,
    active: Seq<Signature>,
    opts: CarveOptions,
    seed: Seq<[u8; 32]>,
    saved: Option<Checkpoint>,
    n: nat,
    v: Map<int, Verdict>,
) -> bool {
    let c = run_of(source, active, opts);
    let st = first_state(opts, seed, saved);
    let from = first_pos(opts, source@.len() as int, saved);
    &&& forall|m: nat|
        m < n ==> !source.faulty(
            #[trigger] c.chunks_end(from, m),
            chunk_read(c, c.chunks_end(from, m)),
        )
    &&& clear(source, c, st, from, c.chunks_end(from, n), v)
}

/// A scan goes over `n` chunks, `v` being what was answered at each position, and runs into an unreadable byte in the
/// next one. The sink has not asked it to stop.
pub open spec fn broke_off<
    P: ProgressSink,
    A: Fn(&Signature, &Vec<u8>) -> bool,
    K: Fn(&str, &Vec<u8>) -> Option<String>,
>(
    source: Source,
    active: Seq<Signature>,
    opts: CarveOptions,
    progress: P,
    accepts: A,
    classify: K,
    seed: Seq<[u8; 32]>,
    saved: Option<Checkpoint>,
    n: nat,
    v: Map<int, Verdict>,
) -> bool {
    let c = run_of(source, active, opts);
    let st = first_state(opts, seed, saved);
    let from = first_pos(opts, source@.len() as int, saved);
    let at = c.chunks_end(from, n);
    &&& c.heard(accepts, classify, st, from, at, v)
    &&& got_through(source, active, opts, seed, saved, n, v)
    &&& may_answer(progress, false)
    &&& reported(progress, source, active, opts, seed, saved, n, v)
    &&& forall|m: nat|
        m <= n ==> #[trigger] c.chunks_end(from, m) < c.end && !c.scanned(
            st,
            from,
            c.chunks_end(from, m),
            v,
        ).full
    &&& blocked(source, c, accepts, classify, c.scanned(st, from, at, v), at, c.chunk_end(at))
}

/// Like [`carve`], but pre-seed the dedup set with content digests already recovered elsewhere (e.g. by
/// undeletion), so carving only recovers files whose content is new. Has no effect unless
/// [`CarveOptions::dedup`] is set.
pub fn carve_seeded<
    P: ProgressSink,
    A: Fn(&Signature, &Vec<u8>) -> bool,
    K: Fn(&str, &Vec<u8>) -> Option<String>,
>(
    source: &Source,
    active: &[Signature],
    opts: &CarveOptions,
    progress: &P,
    accepts: &A,
    classify: &K,
    seed: Vec<[u8; 32]>,
    saved: Option<Checkpoint>,
) -> (r: Result<CarveStats, ReadError>)
    requires
        source.wf(),
        saved matches Some(c) ==> c.stats.wf(),
        forall|k: int| 0 <= k < active@.len() ==> (#[trigger] active@[k]).extent.wf(),
        forall|s: &Signature, h: &Vec<u8>| call_requires(*accepts, (s, h)),
        forall|e: &str, h: &Vec<u8>| call_requires(*classify, (e, h)),
    ensures
        match r {
            Ok(stats) => stats.wf() && exists|n: nat, v: Map<int, Verdict>| #[trigger]
                carved(
                    *source,
                    active@,
                    *opts,
                    *progress,
                    *accepts,
                    *classify,
                    seed@,
                    saved,
                    n,
                    v,
                    stats,
                ) && got_through(*source, active@, *opts, seed@, saved, n, v),
            Err(e) => stops_scan(*source, active@, scan_end(*opts, source@.len() as int), e)
                && exists|n: nat, v: Map<int, Verdict>| #[trigger]
                broke_off(
                    *source,
                    active@,
                    *opts,
                    *progress,
                    *accepts,
                    *classify,
                    seed@,
                    saved,
                    n,
                    v,
                ),
        },
{
    let ghost c = run_of(*source, active@, *opts);
    let ghost st = first_state(*opts, seed@, saved);
    let mut scan = Scan::begin(source, opts, seed, saved);
    let ghost from = scan.pos as int;
    let ghost base = scan.base as int;
    let ghost before = scan.stats.bytes_scanned as int;
    let ghost mut n: nat = 0;
    let ghost mut v: Map<int, Verdict> = Map::empty();
    progress.begin(scan.end - scan.base);
    progress.update(scan.pos - scan.base);
    let mut stop = scan.done();
    while !stop
        invariant
            scan.wf(*source),
            scan.base == base,
            scan.end == scan_end(*opts, source@.len() as int),
            forall|k: int| 0 <= k < active@.len() ==> (#[trigger] active@[k]).extent.wf(),
            forall|s: &Signature, h: &Vec<u8>| call_requires(*accepts, (s, h)),
            forall|e: &str, h: &Vec<u8>| call_requires(*classify, (e, h)),
            scan.state() == c.scanned(st, from, c.chunks_end(from, n), v),
            c.heard(*accepts, *classify, st, from, c.chunks_end(from, n), v),
            from <= c.chunks_end(from, n),
            !scan.full ==> scan.pos == c.chunks_end(from, n),
            forall|m: nat|
                m < n ==> #[trigger] c.chunks_end(from, m) < c.end && c.chunks_end(from, m)
                    <= c.chunks_end(from, n) && !c.scanned(st, from, c.chunks_end(from, m), v).full,
            scan.full ==> n > 0,
            c == run_of(*source, active@, *opts),
            st == first_state(*opts, seed@, saved),
            from == first_pos(*opts, source@.len() as int, saved),
            got_through(*source, active@, *opts, seed@, saved, n, v),
            scan.stats.bytes_scanned == ({
                let whole = if scan.full {
                    n - 1
                } else {
                    n as int
                };
                if whole <= 0 {
                    before
                } else {
                    c.chunks_end(from, whole as nat) - base
                }
            }),
            !stop ==> !scan.full && scan.pos < scan.end,
            stop ==> scan.full || c.chunks_end(from, n) >= c.end || may_answer(*progress, true),
            n > 0 ==> may_answer(*progress, false),
            base == scan_start(*opts, source@.len() as int),
            told_total(*progress, (scan.end - base) as u64),
            forall|m: nat|
                m < n || m == n && !scan.full ==> told_progress(
                    *progress,
                    (#[trigger] c.chunks_end(from, m) - base) as u64,
                ),
        decreases scan.end - scan.pos,
            if stop {
                0int
            } else {
                1
            },
    {
        if progress.cancelled() {
            stop = true;
        } else {
            let ghost at = scan.pos as int;
            let ghost half = scan.state();
            if let Err(e) = scan.advance(source, active, opts, accepts, classify) {
                assert(broke_off(
                    *source,
                    active@,
                    *opts,
                    *progress,
                    *accepts,
                    *classify,
                    seed@,
                    saved,
                    n,
                    v,
                ));
                return Err(e);
            }
            if !scan.full {
                progress.update(scan.stats.bytes_scanned);
            }
            proof {
                let to = c.chunk_end(at);
                let w = choose|w: Map<int, Verdict>|
                    #[trigger] c.heard(*accepts, *classify, half, at, to, w) && clear(
                        *source,
                        c,
                        half,
                        at,
                        to,
                        w,
                    ) && scan.state() == c.scanned(half, at, to, w);
                lemma_max_offset(active@, active@.len() as int);
                lemma_max_reach_sign(active@, active@.len() as int);
                lemma_spliced(*source, c, *accepts, *classify, st, from, at, to, v, w);
                v = spliced(v, w, at);
                assert(c.chunks_end(from, (n + 1) as nat) == to);
                assert(!c.scanned(st, from, c.chunks_end(from, n), v).full);
                n = n + 1;
            }
            stop = scan.done();
        }
    }
    progress.finish(scan.stats.bytes_scanned);
    let r: Result<CarveStats, ReadError> = Ok(scan.stats);
    assert(carved(
        *source,
        active@,
        *opts,
        *progress,
        *accepts,
        *classify,
        seed@,
        saved,
        n,
        v,
        r->Ok_0,
    ));
    r
}

} // verus!
