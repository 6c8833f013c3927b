//! What the recovery of deleted files has in common over file systems.

use crate::bytes::{capped, find_byte, is_bytes, lemma_byte_at, token_end};
use crate::hash::{digest, sha256};
use crate::source::ReadError;
use crate::strings::{hex_text, lossy_text, push_hex, same_text, utf8_lossy, TextBuf};
use vstd::prelude::*;
use vstd::relations::injective_on;
use vstd::string::*;
use vstd::utf8::*;

verus! {

/// Why there is no volume, or nothing can be recovered from it.
#[derive(Clone, Copy, Debug, PartialEq, Eq, Structural)]
pub enum VolumeError {
    /// A read ran into an unreadable byte.
    Read(ReadError),
    /// The header lies past what can be addressed.
    OffsetOverflow,
    /// The image ends before the end of the header.
    Truncated,
    /// The header is not that of such a volume.
    NotFound,
    /// The sector size cannot be.
    SectorSize,
    /// The cluster size cannot be.
    ClusterSize,
    /// The block size cannot be.
    BlockSize,
    /// The inode size cannot be.
    InodeSize,
    /// The volume has no blocks.
    NoBlocks,
    /// The volume has no block groups.
    NoGroups,
    /// A size in the header is zero that cannot be.
    Geometry,
    /// A part of the catalog lies outside the volume.
    CatalogRange,
    /// The catalog is nowhere.
    NoCatalog,
    /// The catalog is too small for the header of a tree.
    CatalogTruncated,
    /// The node size of the catalog cannot be.
    NodeSize,
}

/// Which deleted files are to be recovered.
pub struct RecoverOptions {
    /// Leave out files with fewer bytes.
    pub min_size: u64,
    /// Leave out files with more bytes.
    pub max_size: Option<u64>,
    /// Leave out files that were last modified before (Unix seconds).
    pub newer: Option<u64>,
    /// Leave out files that were last modified after (Unix seconds).
    pub older: Option<u64>,
    /// Leave out files whose names do not hold this text.
    pub name: Option<String>,
    /// Only say what can be recovered.
    pub dry_run: bool,
}

/// `part` occurs in `s`.
pub open spec fn holds(s: Seq<u8>, part: Seq<u8>) -> bool {
    exists|i: int| #[trigger] begins_at(s, part, i)
}

/// `part` occurs in `s` at `i`.
pub open spec fn begins_at(s: Seq<u8>, part: Seq<u8>, i: int) -> bool {
    0 <= i && i + part.len() <= s.len() && s.subrange(i, i + part.len()) == part
}

impl RecoverOptions {
    /// A size is one of those that are asked for.
    pub open spec fn wants_size(&self, size: int) -> bool {
        self.min_size <= size && (self.max_size matches Some(max) ==> size <= max)
    }

    /// A time is one of those that are asked for; where times are asked for, a file must have one.
    pub open spec fn wants_time(&self, t: Option<u64>) -> bool {
        &&& self.newer matches Some(a) ==> (t matches Some(v) && v >= a)
        &&& self.older matches Some(b) ==> (t matches Some(v) && v <= b)
    }

    /// A name is one of those that are asked for.
    pub open spec fn wants_name(&self, name: Seq<char>) -> bool {
        self.name matches Some(part) ==> holds(encode_utf8(name), encode_utf8(part@))
    }

    pub fn size_ok(&self, size: u64) -> (r: bool)
        ensures
            r == self.wants_size(size as int),
    {
        self.min_size <= size && match self.max_size {
            Some(max) => size <= max,
            None => true,
        }
    }

    pub fn time_ok(&self, t: Option<u64>) -> (r: bool)
        ensures
            r == self.wants_time(t),
    {
        let late = match self.newer {
            Some(a) => match t {
                Some(v) => v >= a,
                None => false,
            },
            None => true,
        };
        let early = match self.older {
            Some(b) => match t {
                Some(v) => v <= b,
                None => false,
            },
            None => true,
        };
        late && early
    }

    pub fn name_ok(&self, name: &str) -> (r: bool)
        ensures
            r == self.wants_name(name@),
    {
        match &self.name {
            Some(part) => {
                let p = part.as_str().as_bytes();
                let s = name.as_bytes();
                if p.len() > s.len() {
                    return false;
                }
                let last: usize = s.len() - p.len();
                let mut i: usize = 0;
                loop
                    invariant
                        i <= last == s.len() - p.len(),
                        s@ == encode_utf8(name@),
                        p@ == encode_utf8(part@),
                        self.name == Some(*part),
                        forall|k: int| 0 <= k < i ==> !#[trigger] begins_at(s@, p@, k),
                    decreases last - i,
                {
                    if is_bytes(s, i, p) {
                        assert(begins_at(s@, p@, i as int));
                        return true;
                    }
                    assert(!begins_at(s@, p@, i as int));
                    if i == last {
                        return false;
                    }
                    i += 1;
                }
            },
            None => true,
        }
    }
}

/// A file that was recovered.
pub struct RecoveredFile {
    /// Where it was in the volume.
    pub path: String,
    /// The number of bytes in it.
    pub size: u64,
    /// Its bytes, unless the run only says what can be recovered.
    pub content: Option<Vec<u8>>,
    /// The SHA-256 of its bytes.
    pub sha256: Option<[u8; 32]>,
    /// When it was last modified (Unix seconds).
    pub modified: Option<u64>,
    /// When it was last accessed (Unix seconds).
    pub accessed: Option<u64>,
}

/// A file that was found, and cannot be recovered.
pub struct SkippedFile {
    /// Where it was in the volume.
    pub path: String,
    /// The number of bytes in it.
    pub size: u64,
}

/// Outcome of a recovery.
pub struct RecoverStats {
    pub files: Vec<RecoveredFile>,
    pub skipped: Vec<SkippedFile>,
}

/// What is said of a file that was recovered.
#[verifier::ext_equal]
pub struct RecoveredView {
    pub path: Seq<char>,
    pub size: int,
    pub content: Option<Seq<u8>>,
    pub modified: Option<u64>,
    pub accessed: Option<u64>,
}

/// What is said of a recovery: which files were recovered, and which, of what size, could not be.
#[verifier::ext_equal]
pub struct Recovery {
    pub files: Seq<RecoveredView>,
    pub skipped: Seq<(Seq<char>, int)>,
}

impl Recovery {
    /// Nothing was found.
    pub open spec fn none() -> Recovery {
        Recovery { files: Seq::empty(), skipped: Seq::empty() }
    }

    /// One file more was recovered.
    pub open spec fn with_file(self, f: RecoveredView) -> Recovery {
        Recovery { files: self.files.push(f), ..self }
    }

    /// One file more could not be recovered.
    pub open spec fn with_skipped(self, path: Seq<char>, size: int) -> Recovery {
        Recovery { skipped: self.skipped.push((path, size)), ..self }
    }
}

impl View for RecoveredFile {
    type V = RecoveredView;

    open spec fn view(&self) -> RecoveredView {
        RecoveredView {
            path: self.path@,
            size: self.size as int,
            content: match self.content {
                Some(v) => Some(v@),
                None => None,
            },
            modified: self.modified,
            accessed: self.accessed,
        }
    }
}

impl RecoveredFile {
    /// The digest is that of the bytes.
    pub open spec fn wf(&self) -> bool {
        match self.content {
            Some(v) => self.sha256 matches Some(d) && d@ == sha256(v@),
            None => self.sha256 is None,
        }
    }
}

impl View for RecoverStats {
    type V = Recovery;

    open spec fn view(&self) -> Recovery {
        Recovery {
            files: self.files@.map_values(|f: RecoveredFile| f@),
            skipped: self.skipped@.map_values(|f: SkippedFile| (f.path@, f.size as int)),
        }
    }
}

impl RecoverStats {
    /// The digests are those of the files.
    pub open spec fn wf(&self) -> bool {
        forall|i: int| 0 <= i < self.files@.len() ==> (#[trigger] self.files@[i]).wf()
    }

    /// Nothing was found.
    pub fn new() -> (r: Self)
        ensures
            r.wf(),
            r@ == Recovery::none(),
    {
        let r = RecoverStats { files: Vec::new(), skipped: Vec::new() };
        assert(r@ =~= Recovery::none());
        r
    }

    /// A file was recovered, with its bytes.
    pub fn record_recovered(
        &mut self,
        path: String,
        size: u64,
        content: Vec<u8>,
        modified: Option<u64>,
        accessed: Option<u64>,
    )
        requires
            old(self).wf(),
        ensures
            final(self).wf(),
            final(self)@ == old(self)@.with_file(
                RecoveredView {
                    path: path@,
                    size: size as int,
                    content: Some(content@),
                    modified,
                    accessed,
                },
            ),
    {
        let ghost before = self@;
        let sum = digest(&content);
        let f = RecoveredFile {
            path,
            size,
            content: Some(content),
            sha256: Some(sum),
            modified,
            accessed,
        };
        self.files.push(f);
        assert(self@ =~= before.with_file(f@));
    }

    /// A file could be recovered.
    pub fn record_recoverable(
        &mut self,
        path: String,
        size: u64,
        modified: Option<u64>,
        accessed: Option<u64>,
    )
        requires
            old(self).wf(),
        ensures
            final(self).wf(),
            final(self)@ == old(self)@.with_file(
                RecoveredView { path: path@, size: size as int, content: None, modified, accessed },
            ),
    {
        let ghost before = self@;
        let f = RecoveredFile { path, size, content: None, sha256: None, modified, accessed };
        self.files.push(f);
        assert(self@ =~= before.with_file(f@));
    }

    /// A file could not be recovered.
    pub fn record_skipped(&mut self, path: String, size: u64)
        requires
            old(self).wf(),
        ensures
            final(self).wf(),
            final(self)@ == old(self)@.with_skipped(path@, size as int),
    {
        let ghost before = self@;
        self.skipped.push(SkippedFile { path, size });
        assert(self@ =~= before.with_skipped(path@, size as int));
    }
}

/// A run of free space is added to others: it makes the last one longer where it follows on it.
pub open spec fn with_run(runs: Seq<(u64, u64)>, start: int, unit: int) -> Seq<(u64, u64)> {
    if runs.len() > 0 && runs.last().0 + runs.last().1 == start {
        runs.update(runs.len() - 1, (runs.last().0, capped(runs.last().1 + unit) as u64))
    } else {
        runs.push((start as u64, unit as u64))
    }
}

/// The runs of free space among the units from `lo` to `hi`.
pub open spec fn free_runs(
    free: spec_fn(int) -> bool,
    start: spec_fn(int) -> int,
    unit: int,
    lo: int,
    hi: int,
) -> Seq<(u64, u64)>
    decreases hi - lo,
{
    if hi <= lo {
        Seq::empty()
    } else {
        let before = free_runs(free, start, unit, lo, hi - 1);
        if free(hi - 1) {
            with_run(before, start(hi - 1), unit)
        } else {
            before
        }
    }
}

/// Add a run of free space to others.
pub fn add_run(runs: &mut Vec<(u64, u64)>, start: u64, unit: u64)
    ensures
        final(runs)@ == with_run(old(runs)@, start as int, unit as int),
{
    let n: usize = runs.len();
    if n > 0 {
        let last = runs[n - 1];
        if start >= last.0 && start - last.0 == last.1 {
            runs.set(n - 1, (last.0, last.1.saturating_add(unit)));
            return;
        }
    }
    runs.push((start, unit));
}

/// Runs depend only on where the units between `lo` and `hi` are.
pub proof fn lemma_same_starts(
    free: spec_fn(int) -> bool,
    start: spec_fn(int) -> int,
    other: spec_fn(int) -> int,
    unit: int,
    lo: int,
    hi: int,
)
    requires
        forall|b: int| lo <= b < hi ==> #[trigger] start(b) == other(b),
    ensures
        free_runs(free, start, unit, lo, hi) == free_runs(free, other, unit, lo, hi),
    decreases hi - lo,
{
    if lo < hi {
        lemma_same_starts(free, start, other, unit, lo, hi - 1);
        assert(start(hi - 1) == other(hi - 1));
    }
}

/// A byte lies in one of the runs.
pub open spec fn in_runs(runs: Seq<(u64, u64)>, p: int) -> bool {
    exists|k: int| 0 <= k < runs.len() && (#[trigger] runs[k]).0 <= p < runs[k].0 + runs[k].1
}

/// The runs of free space lie in the volume, in order, and apart from each other, so that none could be
/// merged; and a byte of the volume lies in one of them exactly if the unit that it is in is free.
pub proof fn law_free_runs(free: spec_fn(int) -> bool, base: int, unit: int, lo: int, hi: int)
    requires
        unit > 0,
        0 <= base,
        0 <= lo <= hi,
        base + hi * unit <= u64::MAX,
    ensures
        ({
            let runs = free_runs(free, |b: int| base + b * unit, unit, lo, hi);
            &&& forall|k: int|
                0 <= k < runs.len() ==> base + lo * unit <= (#[trigger] runs[k]).0 && runs[k].1 > 0
                    && runs[k].0 + runs[k].1 <= base + hi * unit
            &&& forall|j: int, k: int|
                0 <= j < k < runs.len() ==> (#[trigger] runs[j]).0 + runs[j].1 < (
                #[trigger] runs[k]).0
            &&& forall|b: int, i: int|
                lo <= b < hi && 0 <= i < unit ==> #[trigger] in_runs(runs, base + b * unit + i) == free(
                    b,
                )
        }),
    decreases hi - lo,
{
    let start = |b: int| base + b * unit;
    let runs = free_runs(free, start, unit, lo, hi);
    if lo < hi {
        let h = hi - 1;
        assert(hi * unit == h * unit + unit) by (nonlinear_arith)
            requires
                h == hi - 1,
        ;
        assert(h * unit >= lo * unit >= 0) by (nonlinear_arith)
            requires
                h >= lo >= 0,
                unit > 0,
        ;
        law_free_runs(free, base, unit, lo, h);
        let before = free_runs(free, start, unit, lo, h);
        let at = base + h * unit;
        assert(start(h) == at);
        assert forall|p: int| p < at implies #[trigger] in_runs(runs, p) == in_runs(before, p) by {
            lemma_run_before(before, runs, at, unit, p, free(h));
        }
        assert forall|b: int, i: int| lo <= b < hi && 0 <= i < unit implies #[trigger] in_runs(
            runs,
            base + b * unit + i,
        ) == free(b) by {
            if b < h {
                assert((b + 1) * unit <= h * unit) by (nonlinear_arith)
                    requires
                        b + 1 <= h,
                        unit > 0,
                ;
                assert((b + 1) * unit == b * unit + unit) by (nonlinear_arith);
                assert(in_runs(before, base + b * unit + i) == free(b));
            } else {
                let p = at + i;
                if free(h) {
                    let k = runs.len() - 1;
                    assert(runs[k].0 <= p < runs[k].0 + runs[k].1);
                } else {
                    assert(runs == before);
                }
            }
        }
    }
}

/// What lies before a run of free space that is added stays as it was.
proof fn lemma_run_before(
    before: Seq<(u64, u64)>,
    after: Seq<(u64, u64)>,
    at: int,
    unit: int,
    p: int,
    added: bool,
)
    requires
        0 <= at,
        0 < unit,
        at + unit <= u64::MAX,
        p < at,
        after == if added {
            with_run(before, at, unit)
        } else {
            before
        },
        forall|k: int|
            0 <= k < before.len() ==> (#[trigger] before[k]).1 > 0 && before[k].0 + before[k].1 <= at,
    ensures
        in_runs(after, p) == in_runs(before, p),
{
    if added {
        if in_runs(before, p) {
            let k = choose|k: int|
                0 <= k < before.len() && (#[trigger] before[k]).0 <= p < before[k].0 + before[k].1;
            assert(after[k].0 <= p < after[k].0 + after[k].1);
        }
        if in_runs(after, p) {
            let k = choose|k: int|
                0 <= k < after.len() && (#[trigger] after[k]).0 <= p < after[k].0 + after[k].1;
            assert(k < before.len());
            assert(before[k].0 <= p < before[k].0 + before[k].1);
        }
    }
}

/// There are no more than 2^32 numbers of 32 bits.
pub proof fn lemma_u32_set(s: Set<u32>)
    requires
        s.finite(),
    ensures
        s.len() <= 0x1_0000_0000,
{
    let f = |x: u32| x as int;
    let all = vstd::set_lib::set_int_range(0, 0x1_0000_0000);
    vstd::set_lib::lemma_int_range(0, 0x1_0000_0000);
    assert(injective_on(f, s));
    vstd::set_lib::lemma_map_size(s, s.map(f), f);
    vstd::set_lib::lemma_len_subset(s.map(f), all);
}

/// A character as it may stand in the name of a file.
pub open spec fn safe_char(c: char) -> char {
    if c == '/' || c == '\\' || (c as u32) < 0x20 || c == '\u{7F}' {
        '_'
    } else {
        c
    }
}

/// A name as one component of a path.
pub open spec fn sanitized(name: Seq<char>) -> Seq<char> {
    let t = name.map_values(|c: char| safe_char(c));
    if t == ""@ || t == "."@ || t == ".."@ {
        "_recovered"@
    } else {
        t
    }
}

/// Make a name safe to use as one component of a path.
pub fn sanitize_component(name: &str) -> (r: String)
    ensures
        r@ == sanitized(name@),
{
    let ghost t = name@.map_values(|c: char| safe_char(c));
    let mut out = TextBuf::new();
    let n: usize = name.unicode_len();
    let mut i: usize = 0;
    assert(t.take(0) =~= Seq::empty());
    while i < n
        invariant
            i <= n == name@.len(),
            t == name@.map_values(|c: char| safe_char(c)),
            out.wf(),
            out@ == t.take(i as int),
        decreases n - i,
    {
        let c = name.get_char(i);
        proof {
            char_is_scalar(c);
        }
        let u: u32 = c as u32;
        if u == 0x2F || u == 0x5C || u < 0x20 || u == 0x7F {
            out.push(0x5F);
        } else {
            out.push(u);
        }
        i += 1;
        assert(out@ =~= t.take(i as int));
    }
    assert(t.take(i as int) =~= t);
    let r = out.into_string();
    if same_text(r.as_str(), "") || same_text(r.as_str(), ".")
        || same_text(r.as_str(), "..") {
        String::from_str("_recovered")
    } else {
        r
    }
}

/// A character in lower case.
pub open spec fn lower(c: char) -> char {
    if 'A' <= c <= 'Z' {
        (c as u32 + 0x20) as u32 as char
    } else {
        c
    }
}

/// A text ends with another, which is in lower case, whatever case it has.
pub open spec fn ends_in(t: Seq<char>, end: Seq<char>) -> bool {
    t.len() >= end.len() && forall|i: int|
        0 <= i < end.len() ==> lower(t[t.len() - end.len() + i]) == #[trigger] end[i]
}

/// A name is that of a JPEG file.
pub open spec fn is_jpeg_name(name: Seq<char>) -> bool {
    ends_in(name, ".jpg"@) || ends_in(name, ".jpeg"@)
}

fn ends_with(t: &str, end: &str) -> (r: bool)
    ensures
        r == ends_in(t@, end@),
{
    let n: usize = t.unicode_len();
    let m: usize = end.unicode_len();
    if n < m {
        return false;
    }
    let mut i: usize = 0;
    while i < m
        invariant
            i <= m <= n,
            n == t@.len(),
            m == end@.len(),
            forall|k: int| 0 <= k < i ==> lower(t@[n - m + k]) == #[trigger] end@[k],
        decreases m - i,
    {
        let c: u32 = t.get_char(n - m + i) as u32;
        let d: u32 = end.get_char(i) as u32;
        let small: u32 = if 0x41 <= c && c <= 0x5A {
            c + 0x20
        } else {
            c
        };
        assert((small == d) == (lower(t@[n - m + i]) == end@[i as int]));
        if small != d {
            return false;
        }
        i += 1;
    }
    true
}

/// Whether a name is that of a JPEG file.
pub fn looks_like_jpeg_name(name: &str) -> (r: bool)
    ensures
        r == is_jpeg_name(name@),
{
    ends_with(name, ".jpg") || ends_with(name, ".jpeg")
}

/// The path of something in a directory.
pub open spec fn joined(dir: Seq<char>, name: Seq<char>) -> Seq<char> {
    if dir.len() == 0 {
        name
    } else {
        dir + "/"@ + name
    }
}

/// The path of something in a directory.
pub fn join_path(dir: &str, name: &str) -> (r: String)
    ensures
        r@ == joined(dir@, name@),
{
    if dir.unicode_len() == 0 {
        String::from_str(name)
    } else {
        let mut s = String::from_str(dir);
        s.append("/");
        s.append(name);
        s
    }
}

/// A name in a field that is filled up with zeros.
pub open spec fn name_in(field: Seq<u8>) -> Seq<char> {
    lossy_text(field.take(token_end(field, 0, 0)))
}

/// A name in a field that is filled up with zeros.
pub(crate) fn padded_name(field: &[u8]) -> (r: String)
    ensures
        r@ == name_in(field@),
        r@.len() == 0 <==> field@.len() == 0 || field@[0] == 0,
{
    let end: usize = match find_byte(field, 0, 0) {
        Some(e) => e,
        None => field.len(),
    };
    let name = &field[0..end];
    assert(name@ =~= field@.take(token_end(field@, 0, 0)));
    proof {
        lemma_byte_at(field@, 0, 0);
    }
    utf8_lossy(name)
}

/// A UUID as it is written; none where all its bytes are zero.
pub open spec fn uuid_text(b: Seq<u8>) -> Option<Seq<char>> {
    if forall|i: int| 0 <= i < b.len() ==> #[trigger] b[i] == 0 {
        None
    } else {
        Some(
            hex_text(b.subrange(0, 4)) + "-"@ + hex_text(b.subrange(4, 6)) + "-"@ + hex_text(
                b.subrange(6, 8),
            ) + "-"@ + hex_text(b.subrange(8, 10)) + "-"@ + hex_text(b.subrange(10, 16)),
        )
    }
}

/// What an optional text says.
pub open spec fn text_view(t: Option<String>) -> Option<Seq<char>> {
    match t {
        Some(s) => Some(s@),
        None => None,
    }
}

/// Write out a UUID.
pub fn format_uuid(b: &[u8]) -> (r: Option<String>)
    requires
        b.len() == 16,
    ensures
        text_view(r) == uuid_text(b@),
{
    let mut i: usize = 0;
    while i < b.len() && b[i] == 0
        invariant
            i <= b.len(),
            forall|k: int| 0 <= k < i ==> #[trigger] b@[k] == 0,
        decreases b.len() - i,
    {
        i += 1;
    }
    if i == b.len() {
        return None;
    }
    assert(b@[i as int] != 0);
    let mut s = String::new();
    push_hex(&mut s, &b[0..4]);
    assert(s@ =~= hex_text(b@.subrange(0, 4)));
    s.append("-");
    push_hex(&mut s, &b[4..6]);
    s.append("-");
    push_hex(&mut s, &b[6..8]);
    s.append("-");
    push_hex(&mut s, &b[8..10]);
    s.append("-");
    push_hex(&mut s, &b[10..16]);
    Some(s)
}

/// Names come out as single components of paths: not empty, without separators, and none that points
/// elsewhere.
pub proof fn law_sanitized_is_one_component(name: Seq<char>)
    ensures
        sanitized(name).len() > 0,
        sanitized(name) != "."@,
        sanitized(name) != ".."@,
        forall|i: int|
            0 <= i < sanitized(name).len() ==> #[trigger] sanitized(name)[i] != '/' && sanitized(
                name,
            )[i] != '\\',
{
    reveal_strlit("");
    reveal_strlit(".");
    reveal_strlit("..");
    reveal_strlit("_recovered");
    let t = name.map_values(|c: char| safe_char(c));
    if t.len() == 0 {
        assert(t =~= ""@);
    }
}

/// A name that has been made safe stays as it is.
pub proof fn law_sanitized_twice(name: Seq<char>)
    ensures
        sanitized(sanitized(name)) == sanitized(name),
{
    reveal_strlit("");
    reveal_strlit(".");
    reveal_strlit("..");
    reveal_strlit("_recovered");
    let t = sanitized(name);
    assert(t.map_values(|c: char| safe_char(c)) =~= t);
    law_sanitized_is_one_component(name);
}

} // verus!
