//! The carving engine: scan the source for headers and reconstruct files.

use crate::bytes::{capped, larger, smaller};
use crate::carver::extents::{extent_len, room};
use crate::hash::{digest, sha256};
use crate::signatures::Signature;
use crate::strings::{
    comes_before, lemma_text_between, lemma_text_order, numeral, same_text, text_before,
};
use vstd::prelude::*;
use vstd::string::*;

verus! {

/// Tunable knobs for a carving run.
pub struct CarveOptions {
    /// Directory recovered files are written into (created if missing).
    pub output_dir: String,
    /// First byte offset to scan.
    pub start: u64,
    /// Exclusive end offset; `None` means scan to the end of the device.
    pub end: Option<u64>,
    /// Ignore carved files smaller than this many bytes.
    pub min_size: u64,
    /// Ignore carved files larger than this many bytes (`None` = no cap). This gates the *computed* file
    /// length, on top of each type's built-in `max_size` runaway guard, so a run can skip large files
    /// entirely.
    pub max_size: Option<u64>,
    /// Stop after recovering this many files (`None` = no limit).
    pub max_files: Option<u64>,
    /// Find files even when nested inside another carved file (e.g. a JPEG thumbnail inside a JPEG). Off
    /// by default to avoid duplicates.
    pub allow_nested: bool,
    /// Reject candidates whose header fails a structural check, cutting the false positives that
    /// coincidental magic bytes produce. On by default.
    pub validate: bool,
    /// Skip writing a file whose content (by SHA-256) was already recovered in this run. Off by default.
    pub dedup: bool,
    /// Report progress to stderr.
    pub progress: bool,
    /// Optional checkpoint file. When set, the scan position and recovered-file tally are written here
    /// periodically so an interrupted scan can `resume`.
    pub checkpoint: Option<String>,
    /// Resume from the checkpoint file if it exists: continue from the saved position with the prior
    /// run's tally (and dedup set). Requires the same output directory and options as the original run.
    pub resume: bool,
    /// Group recovered files into a per-type subdirectory of the output directory (e.g. `jpg/`, `png/`)
    /// instead of a single flat directory.
    pub organize: bool,
    /// Preview only: find recoverable files and tally them (counts, sizes, per-type, and the manifest
    /// records) without writing any output.
    pub dry_run: bool,
    /// Only accept candidates whose start offset is a multiple of this many bytes (1 = every offset).
    /// Files inside a filesystem begin on cluster (sector-multiple) boundaries, so a sector alignment like
    /// 512 discards the coincidental mid-sector magic matches that produce false positives.
    pub align: u64,
}

/// One carved file, recorded for the recovery report.
pub struct CarvedFile {
    /// Output file name within the output directory.
    pub name: String,
    /// File-type extension, e.g. `"jpg"`.
    pub ext: String,
    /// Byte offset of the file's start within the source.
    pub offset: u64,
    /// Number of bytes in the file.
    pub size: u64,
    /// SHA-256 of those bytes.
    pub sha256: [u8; 32],
}

/// How many files of a type were recovered.
pub struct TypeCount {
    pub ext: String,
    pub count: u64,
}

/// Outcome of a carving run.
pub struct CarveStats {
    pub bytes_scanned: u64,
    pub files_recovered: u64,
    pub bytes_recovered: u64,
    /// Candidates dropped because their header failed structural validation.
    pub rejected: u64,
    /// Files dropped by `--dedup` because identical content was already written.
    pub duplicates: u64,
    /// Recognised files skipped because they exceeded the `--max-size` cap.
    pub skipped_large: u64,
    /// Recovered-file count per extension, one entry for each, in their order.
    pub per_type: Vec<TypeCount>,
    /// Per-file records, populated for the recovery report.
    pub files: Vec<CarvedFile>,
}

/// The number of files with an extension.
pub open spec fn count_ext(files: Seq<CarvedFile>, ext: Seq<char>) -> int
    decreases files.len(),
{
    if files.len() == 0 {
        0
    } else if files.last().ext@ == ext {
        count_ext(files.drop_last(), ext) + 1
    } else {
        count_ext(files.drop_last(), ext)
    }
}

/// What a list of counts says for an extension; nothing is zero.
pub open spec fn counted(counts: Seq<TypeCount>, ext: Seq<char>) -> int
    decreases counts.len(),
{
    if counts.len() == 0 {
        0
    } else if counts.last().ext@ == ext {
        counts.last().count as int
    } else {
        counted(counts.drop_last(), ext)
    }
}

/// Counts in the order of their extensions, one for each.
pub open spec fn in_order(counts: Seq<TypeCount>) -> bool {
    forall|i: int, j: int|
        0 <= i < j < counts.len() ==> text_before(
            (#[trigger] counts[i]).ext@,
            (#[trigger] counts[j]).ext@,
        )
}

impl CarveStats {
    /// The counts per extension are those of the files, for the extensions that there are, in their order.
    pub open spec fn wf(&self) -> bool {
        &&& forall|e: Seq<char>| #[trigger] counted(self.per_type@, e) == count_ext(self.files@, e)
        &&& forall|i: int| 0 <= i < self.per_type@.len() ==> (#[trigger] self.per_type@[i]).count > 0
        &&& in_order(self.per_type@)
    }

    /// The outcome of a run that has found nothing yet.
    pub fn empty() -> (r: Self)
        ensures
            r.wf(),
            tally(r) == (Tally {
                files: 0,
                bytes: 0,
                rejected: 0,
                duplicates: 0,
                large: 0,
                list: Seq::empty(),
            }),
            r.bytes_scanned == 0,
            r.per_type@.len() == 0,
    {
        let r = CarveStats {
            bytes_scanned: 0,
            files_recovered: 0,
            bytes_recovered: 0,
            rejected: 0,
            duplicates: 0,
            skipped_large: 0,
            per_type: Vec::new(),
            files: Vec::new(),
        };
        assert(tally(r).list =~= Seq::empty());
        r
    }
}

/// A carved file as it is reported.
#[verifier::ext_equal]
pub struct FileRecord {
    pub name: Seq<char>,
    pub ext: Seq<char>,
    pub offset: int,
    pub size: int,
    pub digest: Seq<u8>,
}

/// What a run has come to: numbers of files, bytes, rejected candidates, duplicates and files that were
/// too large, and the files.
#[verifier::ext_equal]
pub struct Tally {
    pub files: int,
    pub bytes: int,
    pub rejected: int,
    pub duplicates: int,
    pub large: int,
    pub list: Seq<FileRecord>,
}

/// The report of a carved file.
pub open spec fn record(f: CarvedFile) -> FileRecord {
    FileRecord {
        name: f.name@,
        ext: f.ext@,
        offset: f.offset as int,
        size: f.size as int,
        digest: f.sha256@,
    }
}

/// The reports of carved files.
pub open spec fn records(files: Seq<CarvedFile>) -> Seq<FileRecord> {
    Seq::new(files.len(), |i: int| record(files[i]))
}

/// What an outcome says.
pub open spec fn tally(s: CarveStats) -> Tally {
    Tally {
        files: s.files_recovered as int,
        bytes: s.bytes_recovered as int,
        rejected: s.rejected as int,
        duplicates: s.duplicates as int,
        large: s.skipped_large as int,
        list: records(s.files@),
    }
}

/// The bytes of a candidate's beginning that its header check sees.
pub const HEADER_LEN: usize = 4096;

/// The bytes of a candidate's beginning by which what it holds is told.
pub const HEAD_LEN: usize = 65536;

/// How much of the source is scanned at a time.
pub const SCAN_CHUNK: u64 = 8_388_608;

/// A scan with a checkpoint file is checkpointed at least this often, so that an interrupted scan of a
/// large drive loses little progress.
pub const CHECKPOINT_INTERVAL: u64 = 268_435_456;

/// Sink for progress reporting so the engine stays decoupled from the UI.
pub trait ProgressSink {
    fn begin(&self, _total: u64) {
    }

    fn update(&self, _scanned: u64) {
    }

    fn finish(&self, _scanned: u64) {
    }

    /// Whether the caller has requested cancellation. The scan loop checks this once per chunk and stops
    /// early, returning what it has recovered so far.
    fn cancelled(&self) -> (r: bool)
        default_ensures
            !r,
    {
        false
    }
}

/// `r` is what the sink may answer when it is asked whether the caller has requested cancellation.
pub open spec fn may_answer<P: ProgressSink>(progress: P, r: bool) -> bool {
    call_ensures(P::cancelled, (&progress,), r)
}

/// The sink was told that a scan begins, and how many bytes there are to scan.
pub open spec fn told_total<P: ProgressSink>(progress: P, total: u64) -> bool {
    call_ensures(P::begin, (&progress, total), ())
}

/// The sink was told how many bytes have been scanned.
pub open spec fn told_progress<P: ProgressSink>(progress: P, scanned: u64) -> bool {
    call_ensures(P::update, (&progress, scanned), ())
}

/// The sink was told that a scan has ended, and how many bytes were scanned.
pub open spec fn told_end<P: ProgressSink>(progress: P, scanned: u64) -> bool {
    call_ensures(P::finish, (&progress, scanned), ())
}

/// A no-op progress sink.
pub struct NoProgress;

impl ProgressSink for NoProgress {
}

/// What a run scans, by what, and how: the image, the signatures, the options, and where the scan ends.
pub struct Run<'a> {
    pub s: Seq<u8>,
    pub sigs: Seq<Signature<'a>>,
    pub opts: CarveOptions,
    pub end: int,
}

/// How far a run has come: below `skip_until` lies what belongs to files already found; `seen` are the
/// digests of what was found; and a `full` run has found as many files as it was to.
#[verifier::ext_equal]
pub struct ScanState {
    pub skip_until: int,
    pub seen: Set<Seq<u8>>,
    pub tally: Tally,
    pub full: bool,
}

/// What is decided of a candidate from its content: whether its header is sound, and the extension it is
/// filed under.
#[verifier::ext_equal]
pub struct Verdict {
    pub accept: bool,
    pub ext: Seq<char>,
}

/// The bytes `t` stand at `pos`, before `end`.
pub open spec fn present(s: Seq<u8>, end: int, pos: int, t: Seq<u8>) -> bool {
    pos + t.len() <= end && s.subrange(pos, pos + t.len()) == t
}

/// The bytes at `pos`, of those before `end`, are those of a signature.
pub open spec fn matches_at(sig: Signature, s: Seq<u8>, end: int, pos: int) -> bool {
    &&& present(s, end, pos, sig.magic@)
    &&& sig.secondary matches Some(x) ==> present(s, end, pos + x.0, x.1@)
}

/// The first signature from `k` on whose bytes are at `pos`.
pub open spec fn signature_at(
    sigs: Seq<Signature>,
    s: Seq<u8>,
    end: int,
    pos: int,
    k: int,
) -> Option<int>
    decreases sigs.len() - k,
{
    if k >= sigs.len() {
        None
    } else if matches_at(sigs[k], s, end, pos) {
        Some(k)
    } else {
        signature_at(sigs, s, end, pos, k + 1)
    }
}

/// How many bytes a signature looks at.
pub open spec fn reach(sig: Signature) -> int {
    match sig.secondary {
        Some(x) => larger(sig.magic@.len() as int, x.0 + x.1@.len()),
        None => sig.magic@.len() as int,
    }
}

/// How many bytes the first `n` signatures look at.
pub open spec fn max_reach(sigs: Seq<Signature>, n: int) -> int
    decreases n,
{
    if n <= 0 {
        0
    } else {
        larger(max_reach(sigs, n - 1), reach(sigs[n - 1]))
    }
}

/// How far into a file the bytes of the first `n` signatures are.
pub open spec fn max_offset(sigs: Seq<Signature>, n: int) -> int
    decreases n,
{
    if n <= 0 {
        0
    } else {
        larger(max_offset(sigs, n - 1), sigs[n - 1].magic_offset as int)
    }
}

/// How far past the chunk that is scanned the signatures look.
pub open spec fn overlap(sigs: Seq<Signature>) -> int {
    max_reach(sigs, sigs.len() as int) + max_offset(sigs, sigs.len() as int)
}

/// The name under which a file is kept: its number, its offset, and the extension, which is also the
/// directory where files are grouped.
pub open spec fn file_name(number: nat, offset: nat, ext: Seq<char>, organize: bool) -> Seq<char> {
    let base = numeral(number, 10, 8) + "_0x"@ + numeral(offset, 16, 14) + "."@ + ext;
    if organize {
        ext + "/"@ + base
    } else {
        base
    }
}

/// `accept` is an answer of `accepts` to whether a beginning could be that of a file of the signature.
pub open spec fn approves<A: Fn(&Signature, &Vec<u8>) -> bool>(
    accepts: A,
    sig: Signature,
    header: Seq<u8>,
    accept: bool,
) -> bool {
    exists|h: &Vec<u8>| h@ == header && call_ensures(accepts, (&sig, h), accept)
}

/// `ext` is the extension that a file of the signature is filed under: archives and compound files are filed
/// by what `classify` answers that they hold, where it can tell.
pub open spec fn files_under<K: Fn(&str, &Vec<u8>) -> Option<String>>(
    classify: K,
    sig: Signature,
    head: Seq<u8>,
    ext: Seq<char>,
) -> bool {
    if sig.ext@ == "zip"@ || sig.ext@ == "ole"@ {
        exists|h: &Vec<u8>, r: Option<String>|
            h@ == head && #[trigger] call_ensures(classify, (sig.ext, h), r) && ext == match r {
                Some(e) => e@,
                None => sig.ext@,
            }
    } else {
        ext == sig.ext@
    }
}

/// Where files may start again after one of `sig` with `len` bytes at `start`.
pub open spec fn passed(opts: CarveOptions, st: ScanState, sig: Signature, start: int, len: int) -> int {
    if opts.allow_nested || sig.volume {
        st.skip_until
    } else {
        start + len
    }
}

/// The tally of a run has as many files as it was to find.
pub open spec fn enough(opts: CarveOptions, t: Tally) -> bool {
    opts.max_files matches Some(max) && t.files >= max
}

/// The tally with one file more.
pub open spec fn with_file(
    s: Seq<u8>,
    opts: CarveOptions,
    t: Tally,
    ext: Seq<char>,
    start: int,
    len: int,
) -> Tally {
    Tally {
        files: capped(t.files + 1),
        bytes: capped(t.bytes + len),
        list: t.list.push(
            FileRecord {
                name: file_name(t.files as nat, start as nat, ext, opts.organize),
                ext,
                offset: start,
                size: len,
                digest: sha256(s.subrange(start, start + len)),
            },
        ),
        ..t
    }
}

/// The state after a file has been recovered, or has turned out to be one that was found before.
pub open spec fn kept(
    s: Seq<u8>,
    opts: CarveOptions,
    st: ScanState,
    sig: Signature,
    ext: Seq<char>,
    start: int,
    len: int,
) -> ScanState {
    let d = sha256(s.subrange(start, start + len));
    let t = if opts.dedup && st.seen.contains(d) {
        Tally { duplicates: capped(st.tally.duplicates + 1), ..st.tally }
    } else {
        with_file(s, opts, st.tally, ext, start, len)
    };
    ScanState {
        skip_until: passed(opts, st, sig, start, len),
        seen: if opts.dedup {
            st.seen.insert(d)
        } else {
            st.seen
        },
        tally: t,
        full: enough(opts, t),
    }
}

/// The state after the candidate of `sig` with `len` bytes at `start` has been dealt with: one over the
/// size cap is passed over, one whose header is not sound is dropped, and any other is recovered.
pub open spec fn settled(
    s: Seq<u8>,
    opts: CarveOptions,
    st: ScanState,
    sig: Signature,
    start: int,
    len: int,
    v: Verdict,
) -> ScanState {
    if opts.max_size matches Some(max) && len > max {
        ScanState {
            skip_until: passed(opts, st, sig, start, len),
            tally: Tally { large: capped(st.tally.large + 1), ..st.tally },
            ..st
        }
    } else if opts.validate && !v.accept {
        ScanState { tally: Tally { rejected: capped(st.tally.rejected + 1), ..st.tally }, ..st }
    } else {
        kept(s, opts, st, sig, v.ext, start, len)
    }
}

impl<'a> Run<'a> {
    /// What is left of the image from `start` on.
    pub open spec fn tail(self, start: int) -> Seq<u8> {
        self.s.subrange(start, self.s.len() as int)
    }

    /// How long a file of `sig` at `start` is.
    #[verifier::opaque]
    pub open spec fn length_at(self, sig: Signature, start: int) -> Option<int> {
        extent_len(sig.extent, self.tail(start), room(sig, start, self.end))
    }

    /// The file that the bytes at `pos` announce: by which signature, where it starts, and how long it is.
    pub open spec fn candidate(self, pos: int) -> Option<(int, int, int)> {
        match signature_at(self.sigs, self.s, self.end, pos, 0) {
            None => None,
            Some(k) => {
                let sig = self.sigs[k];
                let start = pos - sig.magic_offset;
                if start < 0 || (self.opts.align > 1 && start % self.opts.align as int != 0) {
                    None
                } else {
                    let avail = room(sig, start, self.end);
                    match self.length_at(sig, start) {
                        Some(len) if 0 < len <= avail && len >= self.opts.min_size => Some(
                            (k, start, len),
                        ),
                        _ => None,
                    }
                }
            },
        }
    }

    /// The file at `start` is not part of one that was found before, or may be.
    pub open spec fn eligible(self, st: ScanState, start: int) -> bool {
        self.opts.allow_nested || start >= st.skip_until
    }

    /// The candidate with `len` bytes is over the size cap.
    pub open spec fn is_over(self, len: int) -> bool {
        self.opts.max_size matches Some(max) && len > max
    }

    /// The beginning of the candidate with `len` bytes at `start`, of which `n` bytes are looked at.
    pub open spec fn beginning(self, start: int, len: int, n: int) -> Seq<u8> {
        self.s.subrange(start, start + smaller(len, n))
    }

    /// `v` is what `accepts` and `classify` have answered, as far as they were asked, when the bytes at `pos`
    /// were looked at in state `st`.
    pub open spec fn answered<
        A: Fn(&Signature, &Vec<u8>) -> bool,
        K: Fn(&str, &Vec<u8>) -> Option<String>,
    >(self, accepts: A, classify: K, st: ScanState, pos: int, v: Verdict) -> bool {
        match self.candidate(pos) {
            Some((k, start, len)) if !st.full && self.eligible(st, start) && !self.is_over(len) => {
                let sig = self.sigs[k];
                &&& self.opts.validate ==> approves(
                    accepts,
                    sig,
                    self.beginning(start, len, HEADER_LEN as int),
                    v.accept,
                )
                &&& !self.opts.validate || v.accept ==> files_under(
                    classify,
                    sig,
                    self.beginning(start, len, HEAD_LEN as int),
                    v.ext,
                )
            },
            _ => true,
        }
    }

    /// `v` is what was answered at each position of a scan from `from` to `to` that began in state `st`.
    pub open spec fn heard<
        A: Fn(&Signature, &Vec<u8>) -> bool,
        K: Fn(&str, &Vec<u8>) -> Option<String>,
    >(
        self,
        accepts: A,
        classify: K,
        st: ScanState,
        from: int,
        to: int,
        v: Map<int, Verdict>,
    ) -> bool {
        forall|p: int|
            from <= p < to ==> #[trigger] self.answered(
                accepts,
                classify,
                self.scanned(st, from, p, v),
                p,
                v[p],
            )
    }

    /// The state after the bytes at `pos` have been looked at, `v` being what is decided of a candidate.
    #[verifier::opaque]
    pub open spec fn after(self, st: ScanState, pos: int, v: Verdict) -> ScanState {
        match self.candidate(pos) {
            Some((k, start, len)) if self.eligible(st, start) => settled(
                self.s,
                self.opts,
                st,
                self.sigs[k],
                start,
                len,
                v,
            ),
            _ => st,
        }
    }

    /// The state after a scan from `from` to `to`, `v` giving what is decided at each position. A full run goes
    /// no further.
    pub open spec fn scanned(
        self,
        st: ScanState,
        from: int,
        to: int,
        v: Map<int, Verdict>,
    ) -> ScanState
        decreases to - from,
    {
        if to <= from {
            st
        } else {
            let before = self.scanned(st, from, to - 1, v);
            if before.full {
                before
            } else {
                self.after(before, to - 1, v[to - 1])
            }
        }
    }

    /// Where the chunk that begins at `pos` ends: the rest is one chunk where it is little longer.
    pub open spec fn chunk_end(self, pos: int) -> int {
        if self.end - pos <= SCAN_CHUNK + overlap(self.sigs) {
            self.end
        } else {
            pos + SCAN_CHUNK
        }
    }

    /// Where the `n` chunks that begin at `pos` end.
    pub open spec fn chunks_end(self, pos: int, n: nat) -> int
        decreases n,
    {
        if n == 0 {
            pos
        } else {
            self.chunk_end(self.chunks_end(pos, (n - 1) as nat))
        }
    }

    /// A scan that began in state `st` at `from` has come to an end after `n` chunks, `base` being where the
    /// scan started and `before` the bytes that had been scanned: it was `stopped`, or is full, or has
    /// nothing left to scan.
    pub open spec fn ended(
        self,
        st: ScanState,
        from: int,
        n: nat,
        v: Map<int, Verdict>,
        stopped: bool,
        base: int,
        before: int,
        stats: CarveStats,
    ) -> bool {
        let last = self.scanned(st, from, self.chunks_end(from, n), v);
        let whole = if last.full {
            n - 1
        } else {
            n as int
        };
        &&& forall|m: nat|
            m < n ==> #[trigger] self.chunks_end(from, m) < self.end && !self.scanned(
                st,
                from,
                self.chunks_end(from, m),
                v,
            ).full
        &&& last.full || self.chunks_end(from, n) >= self.end || stopped
        &&& tally(stats) == last.tally
        &&& stats.bytes_scanned == if whole <= 0 {
            before
        } else {
            self.chunks_end(from, whole as nat) - base
        }
    }
}

/// State restored from a scan checkpoint.
pub struct Checkpoint {
    pub pos: u64,
    pub skip_until: u64,
    pub seen: Vec<[u8; 32]>,
    pub stats: CarveStats,
}

/// A scan that is stopped and taken up again where it stopped, with what it had found, finds what it would
/// have found in one go.
pub proof fn law_scan_in_parts(
    c: Run,
    st: ScanState,
    from: int,
    mid: int,
    to: int,
    v: Map<int, Verdict>,
)
    requires
        from <= mid <= to,
    ensures
        c.scanned(c.scanned(st, from, mid, v), mid, to, v) == c.scanned(st, from, to, v),
    decreases to - mid,
{
    if mid < to {
        law_scan_in_parts(c, st, from, mid, to - 1, v);
    }
}

/// What is decided elsewhere does not matter.
pub proof fn lemma_scanned_frame(
    c: Run,
    st: ScanState,
    from: int,
    to: int,
    v: Map<int, Verdict>,
    w: Map<int, Verdict>,
)
    requires
        forall|p: int| from <= p < to ==> #[trigger] v[p] == w[p],
    ensures
        c.scanned(st, from, to, v) == c.scanned(st, from, to, w),
    decreases to - from,
{
    if from < to {
        lemma_scanned_frame(c, st, from, to - 1, v, w);
        assert(v[to - 1] == w[to - 1]);
    }
}

/// What was answered was, whatever is decided elsewhere.
pub proof fn lemma_heard_frame<
    A: Fn(&Signature, &Vec<u8>) -> bool,
    K: Fn(&str, &Vec<u8>) -> Option<String>,
>(
    c: Run,
    accepts: A,
    classify: K,
    st: ScanState,
    from: int,
    to: int,
    v: Map<int, Verdict>,
    w: Map<int, Verdict>,
)
    requires
        forall|p: int| from <= p < to ==> #[trigger] v[p] == w[p],
        c.heard(accepts, classify, st, from, to, v),
    ensures
        c.heard(accepts, classify, st, from, to, w),
{
    assert forall|p: int| from <= p < to implies #[trigger] c.answered(
        accepts,
        classify,
        c.scanned(st, from, p, w),
        p,
        w[p],
    ) by {
        lemma_scanned_frame(c, st, from, p, v, w);
        assert(v[p] == w[p]);
        assert(c.answered(accepts, classify, c.scanned(st, from, p, v), p, v[p]));
    }
}

/// The bytes of digests.
pub open spec fn digests(v: Seq<[u8; 32]>) -> Set<Seq<u8>> {
    Set::new(|d: Seq<u8>| exists|i: int| 0 <= i < v.len() && #[trigger] v[i]@ == d)
}

/// Whether a digest is among others.
pub(crate) fn has_digest(v: &Vec<[u8; 32]>, d: &[u8; 32]) -> (r: bool)
    ensures
        r == digests(v@).contains(d@),
{
    let mut i: usize = 0;
    while i < v.len()
        invariant
            i <= v@.len(),
            forall|k: int| 0 <= k < i ==> #[trigger] v@[k]@ != d@,
        decreases v@.len() - i,
    {
        let x = v[i];
        let mut k: usize = 0;
        while k < 32 && x[k] == d[k]
            invariant
                k <= 32,
                forall|j: int| 0 <= j < k ==> x@[j] == d@[j],
            decreases 32 - k,
        {
            k += 1;
        }
        if k == 32 {
            assert(v@[i as int]@ =~= d@);
            return true;
        }
        assert(v@[i as int]@[k as int] != d@[k as int]);
        i += 1;
    }
    false
}

/// One digest more.
pub proof fn lemma_digests_push(v: Seq<[u8; 32]>, d: [u8; 32])
    ensures
        digests(v.push(d)) == digests(v).insert(d@),
{
    let w = v.push(d);
    assert forall|x: Seq<u8>| digests(w).contains(x) == digests(v).insert(d@).contains(x) by {
        if digests(v).contains(x) {
            let i = choose|i: int| 0 <= i < v.len() && #[trigger] v[i]@ == x;
            assert(w[i]@ == x);
        }
        assert(w[v.len() as int]@ == d@);
    }
    assert(digests(w) =~= digests(v).insert(d@));
}

/// There are no more files of a type than files.
proof fn lemma_count_ext(files: Seq<CarvedFile>, e: Seq<char>)
    ensures
        0 <= count_ext(files, e) <= files.len(),
    decreases files.len(),
{
    if files.len() > 0 {
        lemma_count_ext(files.drop_last(), e);
    }
}

/// What a list of counts says for the extension of one of its entries.
proof fn lemma_counted(counts: Seq<TypeCount>, i: int)
    requires
        0 <= i < counts.len(),
        in_order(counts),
    ensures
        counted(counts, counts[i].ext@) == counts[i].count,
    decreases counts.len(),
{
    if i < counts.len() - 1 {
        assert(counts.drop_last()[i] == counts[i]);
        assert(text_before(counts[i].ext@, counts[counts.len() - 1].ext@));
        lemma_text_order(counts[i].ext@, counts[counts.len() - 1].ext@);
        lemma_counted(counts.drop_last(), i);
    }
}

/// What a list of counts says for an extension that no entry has.
proof fn lemma_not_counted(counts: Seq<TypeCount>, e: Seq<char>)
    requires
        forall|i: int| 0 <= i < counts.len() ==> (#[trigger] counts[i]).ext@ != e,
    ensures
        counted(counts, e) == 0,
    decreases counts.len(),
{
    if counts.len() > 0 {
        assert(counts[counts.len() - 1].ext@ != e);
        assert forall|i: int| 0 <= i < counts.drop_last().len() implies (
        #[trigger] counts.drop_last()[i]).ext@ != e by {
            assert(counts[i].ext@ != e);
        }
        lemma_not_counted(counts.drop_last(), e);
    }
}

/// What counts above zero say for the extensions that they are for.
proof fn lemma_listed(counts: Seq<TypeCount>, e: Seq<char>) -> (i: int)
    requires
        counted(counts, e) > 0,
    ensures
        0 <= i < counts.len(),
        counts[i].ext@ == e,
    decreases counts.len(),
{
    if counts.last().ext@ == e {
        counts.len() - 1
    } else {
        lemma_listed(counts.drop_last(), e)
    }
}

/// A file is counted among those of its extension.
proof fn lemma_count_ext_positive(files: Seq<CarvedFile>, k: int)
    requires
        0 <= k < files.len(),
    ensures
        count_ext(files, files[k].ext@) > 0,
    decreases files.len(),
{
    lemma_count_ext(files.drop_last(), files[k].ext@);
    if k < files.len() - 1 {
        assert(files.drop_last()[k] == files[k]);
        lemma_count_ext_positive(files.drop_last(), k);
    }
}

/// There is a count for an extension.
pub open spec fn has_count(counts: Seq<TypeCount>, ext: Seq<char>) -> bool {
    exists|i: int| 0 <= i < counts.len() && (#[trigger] counts[i]).ext@ == ext
}

/// The counts per type of an outcome are one for each extension that its files have, and for no other; each says
/// how many of the files have the extension, and they come in the order of the extensions.
pub proof fn law_counts_by_type(s: CarveStats)
    requires
        s.wf(),
    ensures
        forall|i: int|
            0 <= i < s.per_type@.len() ==> (#[trigger] s.per_type@[i]).count == count_ext(
                s.files@,
                s.per_type@[i].ext@,
            ) && s.per_type@[i].count > 0,
        forall|k: int|
            0 <= k < s.files@.len() ==> has_count(s.per_type@, (#[trigger] s.files@[k]).ext@),
        forall|i: int, j: int|
            0 <= i < j < s.per_type@.len() ==> text_before(
                (#[trigger] s.per_type@[i]).ext@,
                (#[trigger] s.per_type@[j]).ext@,
            ),
{
    assert forall|i: int| 0 <= i < s.per_type@.len() implies (#[trigger] s.per_type@[i]).count
        == count_ext(s.files@, s.per_type@[i].ext@) && s.per_type@[i].count > 0 by {
        lemma_counted(s.per_type@, i);
    }
    assert forall|k: int| 0 <= k < s.files@.len() implies has_count(
        s.per_type@,
        (#[trigger] s.files@[k]).ext@,
    ) by {
        lemma_count_ext_positive(s.files@, k);
        assert(counted(s.per_type@, s.files@[k].ext@) > 0);
        let i = lemma_listed(s.per_type@, s.files@[k].ext@);
        assert(s.per_type@[i].ext@ == s.files@[k].ext@);
    }
}

/// How many files there are of each type.
pub open spec fn type_counts(counts: Seq<TypeCount>) -> Seq<(Seq<char>, int)> {
    Seq::new(counts.len(), |i: int| (counts[i].ext@, counts[i].count as int))
}

/// Counts that say the same for every extension are the same.
proof fn lemma_same_counts(a: Seq<TypeCount>, b: Seq<TypeCount>)
    requires
        in_order(a),
        in_order(b),
        forall|i: int| 0 <= i < a.len() ==> (#[trigger] a[i]).count > 0,
        forall|i: int| 0 <= i < b.len() ==> (#[trigger] b[i]).count > 0,
        forall|e: Seq<char>| #[trigger] counted(a, e) == counted(b, e),
    ensures
        type_counts(a) == type_counts(b),
    decreases a.len(),
{
    if a.len() == 0 && b.len() == 0 {
    } else if a.len() == 0 {
        assert(counted(a, b.last().ext@) == 0 && b[b.len() - 1].count > 0);
        assert(counted(b, b.last().ext@) == b.last().count);
    } else {
        let x = a.last().ext@;
        assert(a[a.len() - 1].count > 0);
        assert(counted(a, x) > 0 && counted(b, x) == counted(a, x));
        let i = lemma_listed(b, x);
        let y = b.last().ext@;
        assert(b[b.len() - 1].count > 0);
        assert(counted(b, y) > 0 && counted(a, y) == counted(b, y));
        let j = lemma_listed(a, y);
        if i < b.len() - 1 {
            assert(text_before(b[i].ext@, b[b.len() - 1].ext@));
            lemma_text_order(x, y);
            if j < a.len() - 1 {
                assert(text_before(a[j].ext@, a[a.len() - 1].ext@));
            }
        }
        assert(x == y);
        let c = a.drop_last();
        let d = b.drop_last();
        assert forall|k: int| 0 <= k < c.len() implies (#[trigger] c[k]).ext@ != x by {
            assert(text_before(a[k].ext@, a[a.len() - 1].ext@));
            lemma_text_order(a[k].ext@, x);
        }
        assert forall|k: int| 0 <= k < d.len() implies (#[trigger] d[k]).ext@ != x by {
            assert(text_before(b[k].ext@, b[b.len() - 1].ext@));
            lemma_text_order(b[k].ext@, x);
        }
        assert forall|e: Seq<char>| #[trigger] counted(c, e) == counted(d, e) by {
            if e == x {
                lemma_not_counted(c, e);
                lemma_not_counted(d, e);
            } else {
                assert(counted(a, e) == counted(b, e));
            }
        }
        assert forall|k: int| 0 <= k < c.len() implies (#[trigger] c[k]).count > 0 by {
            assert(c[k] == a[k]);
        }
        assert forall|k: int| 0 <= k < d.len() implies (#[trigger] d[k]).count > 0 by {
            assert(d[k] == b[k]);
        }
        lemma_same_counts(c, d);
        assert(type_counts(c).len() == type_counts(d).len());
        assert forall|k: int| 0 <= k < a.len() implies type_counts(a)[k] == type_counts(b)[k] by {
            if k < c.len() {
                assert(type_counts(c)[k] == type_counts(d)[k]);
            }
        }
        assert(type_counts(a) =~= type_counts(b));
    }
}

/// Files that are reported alike are counted alike.
proof fn lemma_same_files(a: Seq<CarvedFile>, b: Seq<CarvedFile>, e: Seq<char>)
    requires
        records(a) == records(b),
    ensures
        count_ext(a, e) == count_ext(b, e),
    decreases a.len(),
{
    assert(records(a).len() == a.len() && records(b).len() == b.len());
    if a.len() > 0 {
        assert(records(a)[a.len() - 1] == records(b)[b.len() - 1]);
        assert(records(a.drop_last()) =~= records(a).drop_last());
        assert(records(b.drop_last()) =~= records(b).drop_last());
        lemma_same_files(a.drop_last(), b.drop_last(), e);
    }
}

/// All that an outcome says.
#[verifier::ext_equal]
pub struct Outcome {
    pub scanned: int,
    pub tally: Tally,
    pub types: Seq<(Seq<char>, int)>,
}

/// All that an outcome says.
pub open spec fn outcome(s: CarveStats) -> Outcome {
    Outcome {
        scanned: s.bytes_scanned as int,
        tally: tally(s),
        types: type_counts(s.per_type@),
    }
}

/// An outcome's counts per type follow from its files.
pub proof fn lemma_same_types(a: CarveStats, b: CarveStats)
    requires
        a.wf(),
        b.wf(),
        tally(a).list == tally(b).list,
    ensures
        type_counts(a.per_type@) == type_counts(b.per_type@),
{
    assert forall|e: Seq<char>| #[trigger] counted(a.per_type@, e) == counted(b.per_type@, e) by {
        lemma_same_files(a.files@, b.files@, e);
        assert(counted(b.per_type@, e) == count_ext(b.files@, e));
    }
    lemma_same_counts(a.per_type@, b.per_type@);
}

/// A change of one count leaves the others.
proof fn lemma_counted_update(counts: Seq<TypeCount>, i: int, x: TypeCount, e: Seq<char>)
    requires
        0 <= i < counts.len(),
        x.ext@ == counts[i].ext@,
        e != x.ext@,
    ensures
        counted(counts.update(i, x), e) == counted(counts, e),
    decreases counts.len(),
{
    let w = counts.update(i, x);
    if i < counts.len() - 1 {
        assert(w.drop_last() =~= counts.drop_last().update(i, x));
        lemma_counted_update(counts.drop_last(), i, x, e);
    } else {
        assert(w.drop_last() =~= counts.drop_last());
    }
}

/// One count more leaves the others.
proof fn lemma_counted_insert(counts: Seq<TypeCount>, i: int, x: TypeCount, e: Seq<char>)
    requires
        0 <= i <= counts.len(),
        e != x.ext@,
    ensures
        counted(counts.insert(i, x), e) == counted(counts, e),
    decreases counts.len(),
{
    let w = counts.insert(i, x);
    if i < counts.len() {
        assert(w.drop_last() =~= counts.drop_last().insert(i, x));
        assert(w.last() == counts.last());
        lemma_counted_insert(counts.drop_last(), i, x, e);
    } else {
        assert(w.drop_last() =~= counts);
    }
}

/// Where the count of an extension is, or belongs.
fn type_index(counts: &Vec<TypeCount>, ext: &str) -> (r: usize)
    ensures
        r <= counts@.len(),
        forall|k: int| 0 <= k < r ==> text_before((#[trigger] counts@[k]).ext@, ext@),
        r < counts@.len() ==> !text_before(counts@[r as int].ext@, ext@),
{
    let mut i: usize = 0;
    while i < counts.len()
        invariant
            i <= counts@.len(),
            forall|k: int| 0 <= k < i ==> text_before((#[trigger] counts@[k]).ext@, ext@),
        decreases counts@.len() - i,
    {
        if !comes_before(counts[i].ext.as_str(), ext) {
            return i;
        }
        i += 1;
    }
    i
}

impl CarveStats {
    /// Take a file into the report, and count it by its type.
    pub(crate) fn list_file(&mut self, f: CarvedFile)
        requires
            old(self).wf(),
        ensures
            final(self).wf(),
            final(self).files@ == old(self).files@.push(f),
            records(final(self).files@) == records(old(self).files@).push(record(f)),
            final(self).bytes_scanned == old(self).bytes_scanned,
            final(self).files_recovered == old(self).files_recovered,
            final(self).bytes_recovered == old(self).bytes_recovered,
            final(self).rejected == old(self).rejected,
            final(self).duplicates == old(self).duplicates,
            final(self).skipped_large == old(self).skipped_large,
    {
        let ghost before = self.files@;
        let ghost counts = self.per_type@;
        let ext = f.ext.clone();
        self.files.push(f);
        let total: usize = self.files.len();
        proof {
            assert(self.files@.drop_last() =~= before);
            assert(records(self.files@) =~= records(before).push(record(f)));
            lemma_count_ext(before, ext@);
        }
        let i: usize = type_index(&self.per_type, ext.as_str());
        if i < self.per_type.len() && same_text(self.per_type[i].ext.as_str(), ext.as_str()) {
            proof {
                lemma_counted(counts, i as int);
                assert(counted(counts, ext@) == count_ext(before, ext@));
            }
            let old_ext = self.per_type[i].ext.clone();
            let n: u64 = self.per_type[i].count;
            let entry = TypeCount { ext: old_ext, count: n + 1 };
            self.per_type.set(i, entry);
            proof {
                assert forall|e: Seq<char>| #[trigger]
                    counted(self.per_type@, e) == count_ext(self.files@, e) by {
                    assert(counted(counts, e) == count_ext(before, e));
                    if e != ext@ {
                        lemma_counted_update(counts, i as int, entry, e);
                    } else {
                        lemma_counted(self.per_type@, i as int);
                    }
                }
            }
        } else {
            let entry = TypeCount { ext, count: 1 };
            self.per_type.insert(i, entry);
            proof {
                let after = self.per_type@;
                assert(after =~= counts.insert(i as int, entry));
                assert forall|k: int| i <= k < counts.len() implies text_before(
                    ext@,
                    (#[trigger] counts[k]).ext@,
                ) by {
                    lemma_text_order(counts[i as int].ext@, ext@);
                    if k > i {
                        lemma_text_between(ext@, counts[i as int].ext@, counts[k].ext@);
                    }
                }
                assert forall|k: int| 0 <= k < counts.len() implies (#[trigger] counts[k]).ext@ != ext@ by {
                    lemma_text_order(counts[k].ext@, ext@);
                    lemma_text_order(ext@, counts[k].ext@);
                }
                assert forall|j: int, k: int| 0 <= j < k < after.len() implies text_before(
                    (#[trigger] after[j]).ext@,
                    (#[trigger] after[k]).ext@,
                ) by {
                    if j < i {
                        assert(after[j] == counts[j]);
                    } else if j > i {
                        assert(after[j] == counts[j - 1]);
                    }
                    if k < i {
                        assert(after[k] == counts[k]);
                    } else if k > i {
                        assert(after[k] == counts[k - 1]);
                    }
                }
                assert forall|k: int| 0 <= k < after.len() implies (#[trigger] after[k]).count > 0 by {
                    if k < i {
                        assert(after[k] == counts[k]);
                    } else if k > i {
                        assert(after[k] == counts[k - 1]);
                    }
                }
                lemma_not_counted(counts, ext@);
                assert forall|e: Seq<char>| #[trigger]
                    counted(self.per_type@, e) == count_ext(self.files@, e) by {
                    assert(counted(counts, e) == count_ext(before, e));
                    if e != ext@ {
                        lemma_counted_insert(counts, i as int, entry, e);
                    } else {
                        lemma_counted(after, i as int);
                    }
                }
            }
        }
    }
}

} // verus!
