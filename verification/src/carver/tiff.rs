//! TIFF and BigTIFF, and the raw photo formats built on them.

use crate::bytes::{
    capped, is_text, larger, max_u64, mul_wide, ord16, ord32, ord64, rd_ord16, rd_ord32, rd_ord64, smaller,
    text_at, within,
};
use crate::source::{Length, ReadError, Source};
use std::collections::HashSet;
use vstd::prelude::*;

verus! {

broadcast use vstd::std_specs::hash::group_hash_axioms;

/// The most directories (IFDs) of a file that are read.
pub const MAX_IFDS: u64 = 4096;

/// The most sub-directories of an entry that are followed.
pub const MAX_SUBIFDS: u64 = 64;

/// The most strips or tiles of a picture that are looked at.
pub const MAX_STRIPS: u64 = 0x10_0000;

/// The most directory entries of a file that are read.
pub const MAX_ENTRIES: u64 = 0x10_0000;

/// What the walk over a TIFF reads from: the bytes from the start of the file on,
/// the room it has, its byte order, and whether it is a BigTIFF, which has wider
/// counts and offsets.
pub struct TiffFile {
    pub f: Seq<u8>,
    pub avail: int,
    pub be: bool,
    pub big: bool,
}

/// The integer of `n` bytes, 1, 2, 4 or 8, at `off`.
pub open spec fn tiff_uint(f: Seq<u8>, off: int, n: int, be: bool) -> u64 {
    if n == 1 {
        f[off] as u64
    } else if n == 2 {
        ord16(f.subrange(off, off + 2), 0, be) as u64
    } else if n == 4 {
        ord32(f.subrange(off, off + 4), 0, be) as u64
    } else {
        ord64(f.subrange(off, off + 8), 0, be)
    }
}

/// Byte size of a TIFF field type (0 for unknown types).
pub open spec fn tiff_size_of(kind: u64) -> int {
    if kind == 1 || kind == 2 || kind == 6 || kind == 7 {
        1
    } else if kind == 3 || kind == 8 {
        2
    } else if kind == 4 || kind == 9 || kind == 11 || kind == 13 {
        4
    } else if kind == 5 || kind == 10 || kind == 12 || 16 <= kind <= 18 {
        8
    } else {
        0
    }
}

/// A directory entry that is kept for later: the type and number of its values,
/// and where the entry is.
#[derive(Clone, Copy, Debug, PartialEq, Eq, Structural)]
pub struct TiffEntry {
    pub kind: u64,
    pub count: u64,
    pub at: u64,
}

/// How far a walk over a TIFF has come: the directories still to be read, the last
/// one first; how many entries may still be read; the furthest byte that was
/// referred to; and the entries of the present directory that place its strips
/// and tiles.
#[verifier::ext_equal]
pub struct TiffState {
    pub queue: Seq<u64>,
    pub budget: int,
    pub max_end: int,
    pub strip_off: Option<TiffEntry>,
    pub strip_cnt: Option<TiffEntry>,
    pub tile_off: Option<TiffEntry>,
    pub tile_cnt: Option<TiffEntry>,
}

impl TiffFile {
    /// The integer of `n` bytes at `off`, where it lies in the room.
    pub open spec fn num(self, off: int, n: int) -> Option<u64> {
        if off + n > self.avail {
            None
        } else {
            Some(tiff_uint(self.f, off, n, self.be))
        }
    }

    /// The number of bytes in the count that begins a directory.
    pub open spec fn count_size(self) -> int {
        if self.big {
            8
        } else {
            2
        }
    }

    /// The number of bytes in a directory entry.
    pub open spec fn entry_size(self) -> int {
        if self.big {
            20
        } else {
            12
        }
    }

    /// The number of bytes in an offset.
    pub open spec fn ptr_size(self) -> int {
        if self.big {
            8
        } else {
            4
        }
    }

    /// The number of bytes in the file's header.
    pub open spec fn header_end(self) -> int {
        if self.big {
            16
        } else {
            8
        }
    }

    /// Where the value field of the entry at `e` is: what it holds are the values
    /// themselves or the offset at which they are.
    pub open spec fn value_at(self, e: int) -> int {
        if self.big {
            e + 12
        } else {
            e + 8
        }
    }

    /// Where the values of an entry begin.
    pub open spec fn values_at(self, e: TiffEntry) -> Option<int> {
        if e.count * tiff_size_of(e.kind) <= self.ptr_size() {
            Some(self.value_at(e.at as int))
        } else {
            match self.num(self.value_at(e.at as int), self.ptr_size()) {
                Some(o) => Some(o as int),
                None => None,
            }
        }
    }

    /// The values of an entry, `cap` of them at most; none where they do not lie in
    /// the room, or are of an unknown type.
    pub open spec fn values(self, e: TiffEntry, cap: int) -> Seq<u64> {
        let size = tiff_size_of(e.kind);
        let n = smaller(e.count as int, cap);
        match self.values_at(e) {
            Some(base) if size > 0 && base + n * size <= self.avail => Seq::new(
                n as nat,
                |j: int| tiff_uint(self.f, base + j * size, size, self.be),
            ),
            _ => Seq::empty(),
        }
    }

    /// The furthest end of the first `n` strips or tiles.
    pub open spec fn strips_end(self, offs: Seq<u64>, lens: Seq<u64>, n: nat) -> int
        decreases n,
    {
        if n == 0 {
            0
        } else {
            larger(
                self.strips_end(offs, lens, (n - 1) as nat),
                capped(offs[n - 1] + lens[n - 1]),
            )
        }
    }

    /// The furthest end of the strips or tiles that a pair of entries places, which
    /// is nowhere if there is no such pair.
    pub open spec fn picture_end(self, offs: Option<TiffEntry>, lens: Option<TiffEntry>) -> int {
        match (offs, lens) {
            (Some(o), Some(l)) => {
                let a = self.values(o, MAX_STRIPS as int);
                let b = self.values(l, MAX_STRIPS as int);
                self.strips_end(a, b, smaller(a.len() as int, b.len() as int) as nat)
            },
            _ => 0,
        }
    }

    /// The walk after the entry at `e` has been read; `None` where the entry does
    /// not lie in the room, which ends its directory.
    pub open spec fn after_entry(self, e: int, st: TiffState) -> Option<TiffState> {
        match (self.num(e, 2), self.num(e + 4, self.ptr_size())) {
            (Some(tag), Some(count)) => {
                let kind = match self.num(e + 2, 2) {
                    Some(k) => k,
                    None => 0,
                };
                let entry = TiffEntry { kind, count, at: e as u64 };
                let total = capped(count * tiff_size_of(kind));
                let max_end = match self.num(self.value_at(e), self.ptr_size()) {
                    Some(off) if total > self.ptr_size() => larger(st.max_end, capped(off + total)),
                    _ => st.max_end,
                };
                let st = TiffState { max_end, ..st };
                Some(
                    if tag == 273 {
                        TiffState { strip_off: Some(entry), ..st }
                    } else if tag == 279 {
                        TiffState { strip_cnt: Some(entry), ..st }
                    } else if tag == 324 {
                        TiffState { tile_off: Some(entry), ..st }
                    } else if tag == 325 {
                        TiffState { tile_cnt: Some(entry), ..st }
                    } else if tag == 330 {
                        TiffState { queue: st.queue + self.values(entry, MAX_SUBIFDS as int), ..st }
                    } else if tag == 34665 || tag == 34853 {
                        TiffState { queue: st.queue + self.values(entry, 1), ..st }
                    } else {
                        st
                    },
                )
            },
            _ => None,
        }
    }

    /// The walk after the entries of the directory at `ifd` from entry `i` on.
    pub open spec fn after_entries(self, ifd: int, count: int, i: int, st: TiffState) -> TiffState
        decreases st.budget,
    {
        if i >= count || st.budget <= 0 {
            st
        } else {
            let st = TiffState { budget: st.budget - 1, ..st };
            match self.after_entry(ifd + self.count_size() + i * self.entry_size(), st) {
                None => st,
                Some(next) => self.after_entries(ifd, count, i + 1, next),
            }
        }
    }

    /// The walk after the directory of `count` entries at `ifd`: its own span counts
    /// where it lies in the room, and so do its strips and tiles; the directory that
    /// it names as the next one is read next.
    pub open spec fn after_directory(self, ifd: int, count: int, st: TiffState) -> TiffState {
        let list_end = ifd + self.count_size() + count * self.entry_size();
        let span = list_end + self.ptr_size();
        let st = TiffState {
            max_end: if span <= self.avail {
                larger(st.max_end, span)
            } else {
                st.max_end
            },
            strip_off: None,
            strip_cnt: None,
            tile_off: None,
            tile_cnt: None,
            ..st
        };
        let st = self.after_entries(ifd, count, 0, st);
        let st = TiffState {
            max_end: larger(
                larger(st.max_end, self.picture_end(st.strip_off, st.strip_cnt)),
                self.picture_end(st.tile_off, st.tile_cnt),
            ),
            ..st
        };
        match self.num(list_end, self.ptr_size()) {
            Some(next) if next != 0 => TiffState { queue: st.queue.push(next), ..st },
            _ => st,
        }
    }

    /// The number of directories that a walk reads, `read` of them so far, and the
    /// furthest byte that it comes upon. A directory is read once, and no more than
    /// `MAX_IFDS` are.
    pub open spec fn walk(self, st: TiffState, seen: Set<u64>, read: int) -> (int, int)
        decreases MAX_IFDS - read, st.queue.len(),
    {
        if st.queue.len() == 0 {
            (read, st.max_end)
        } else {
            let ifd = st.queue.last();
            let rest = TiffState { queue: st.queue.drop_last(), ..st };
            if ifd < self.header_end() {
                self.walk(rest, seen, read)
            } else if seen.contains(ifd) || read >= MAX_IFDS {
                self.walk(rest, seen.insert(ifd), read)
            } else {
                match self.num(ifd as int, self.count_size()) {
                    None => self.walk(rest, seen.insert(ifd), read),
                    Some(count) => self.walk(
                        self.after_directory(ifd as int, count as int, rest),
                        seen.insert(ifd),
                        read + 1,
                    ),
                }
            }
        }
    }

    /// The length of the file: up to the furthest byte that it refers to.
    pub open spec fn length(self) -> Option<int> {
        let first_at = if self.big {
            8int
        } else {
            4int
        };
        match self.num(first_at, self.ptr_size()) {
            None => None,
            Some(first) => {
                let (read, end) = self.walk(
                    TiffState {
                        queue: seq![first],
                        budget: MAX_ENTRIES as int,
                        max_end: self.header_end(),
                        strip_off: None,
                        strip_cnt: None,
                        tile_off: None,
                        tile_cnt: None,
                    },
                    Set::empty(),
                    0,
                );
                if read == 0 || end <= self.header_end() || end > self.avail {
                    None
                } else {
                    Some(end)
                }
            },
        }
    }
}

/// The length of a TIFF at the beginning of `f`: the byte order, then 42, or 43 for
/// a BigTIFF, behind which the size of offsets (8) and a zero follow.
pub open spec fn tiff_len(f: Seq<u8>, avail: int) -> Option<int> {
    let h = f.subrange(0, 8);
    let be = !text_at(h, 0, "II"@);
    let magic = ord16(h, 2, be);
    let t = TiffFile { f, avail, be, big: magic == 43 };
    if f.len() < 8 || !(text_at(h, 0, "II"@) || text_at(h, 0, "MM"@)) || !(magic == 42 || magic
        == 43) {
        None
    } else if magic == 43 && (t.num(4, 2) != Some(8u64) || t.num(6, 2) != Some(0u64)) {
        None
    } else {
        t.length()
    }
}

/// Positioned, endian-aware reader for the TIFF walk. All offsets are relative to
/// the file start and bounds-checked against `avail`.
pub struct TiffReader<'a> {
    pub src: &'a Source,
    pub base: u64,
    pub be: bool,
    pub big: bool,
    pub avail: u64,
}

/// The walk's state while it runs.
pub struct TiffWalk {
    pub queue: Vec<u64>,
    pub budget: u64,
    pub max_end: u64,
    pub strip_off: Option<TiffEntry>,
    pub strip_cnt: Option<TiffEntry>,
    pub tile_off: Option<TiffEntry>,
    pub tile_cnt: Option<TiffEntry>,
}

impl View for TiffWalk {
    type V = TiffState;

    open spec fn view(&self) -> TiffState {
        TiffState {
            queue: self.queue@,
            budget: self.budget as int,
            max_end: self.max_end as int,
            strip_off: self.strip_off,
            strip_cnt: self.strip_cnt,
            tile_off: self.tile_off,
            tile_cnt: self.tile_cnt,
        }
    }
}

/// Byte size of a TIFF field type (0 for unknown/unsupported types).
pub fn tiff_type_size(kind: u64) -> (r: u64)
    ensures
        r == tiff_size_of(kind),
{
    match kind {
        1 | 2 | 6 | 7 => 1,  // BYTE, ASCII, SBYTE, UNDEFINED
        3 | 8 => 2,  // SHORT, SSHORT
        4 | 9 | 11 | 13 => 4,  // LONG, SLONG, FLOAT, IFD
        5 | 10 | 12 => 8,  // RATIONAL, SRATIONAL, DOUBLE
        16 | 17 | 18 => 8,  // LONG8, SLONG8, IFD8 (BigTIFF)
        _ => 0,
    }
}

impl<'a> TiffReader<'a> {
    pub open spec fn wf(&self) -> bool {
        self.src.wf() && self.base + self.avail <= self.src@.len()
    }

    /// The file that the reader reads.
    pub open spec fn file(&self) -> TiffFile {
        TiffFile {
            f: self.src.tail(self.base as int),
            avail: self.avail as int,
            be: self.be,
            big: self.big,
        }
    }

    /// The integer of `n` bytes at `off` lies in the room, and could not be read.
    pub open spec fn num_fails(&self, off: int, n: int) -> bool {
        off + n <= self.avail && self.src.faulty(self.base + off, n)
    }

    /// One of the `n` integers of `size` bytes each at `base`, from integer `j` on, could not be read.
    pub open spec fn run_fails(&self, base: int, size: int, n: int, j: int) -> bool
        decreases n - j,
    {
        j < n && (self.num_fails(base + j * size, size) || self.run_fails(base, size, n, j + 1))
    }

    /// One of the values of an entry, `cap` of them at most, or their offset, could not be read.
    pub open spec fn values_fail(&self, e: TiffEntry, cap: int) -> bool {
        let t = self.file();
        let size = tiff_size_of(e.kind);
        let n = smaller(e.count as int, cap);
        size > 0 && ((e.count * size > t.ptr_size() && self.num_fails(
            t.value_at(e.at as int),
            t.ptr_size(),
        )) || match t.values_at(e) {
            Some(base) => base + n * size <= t.avail && self.run_fails(base, size, n, 0),
            None => false,
        })
    }

    /// One of the values of a pair of entries that place strips or tiles could not be read.
    pub open spec fn picture_fails(&self, offs: Option<TiffEntry>, lens: Option<TiffEntry>) -> bool {
        match (offs, lens) {
            (Some(o), Some(l)) => self.values_fail(o, MAX_STRIPS as int) || self.values_fail(
                l,
                MAX_STRIPS as int,
            ),
            _ => false,
        }
    }

    /// One of the fields of the entry at `e`, or of the values that are looked at, could not be read.
    pub open spec fn entry_fails(&self, e: int) -> bool {
        let t = self.file();
        self.num_fails(e, 2) || match t.num(e, 2) {
            None => false,
            Some(tag) => self.num_fails(e + 2, 2) || self.num_fails(e + 4, t.ptr_size()) || match t.num(
                e + 4,
                t.ptr_size(),
            ) {
                None => false,
                Some(count) => {
                    let kind = match t.num(e + 2, 2) {
                        Some(k) => k,
                        None => 0,
                    };
                    let entry = TiffEntry { kind, count, at: e as u64 };
                    ||| capped(count * tiff_size_of(kind)) > t.ptr_size() && self.num_fails(
                        t.value_at(e),
                        t.ptr_size(),
                    )
                    ||| tag == 330 && self.values_fail(entry, MAX_SUBIFDS as int)
                    ||| (tag == 34665 || tag == 34853) && self.values_fail(entry, 1)
                },
            },
        }
    }

    /// One of the entries of the directory at `ifd` that are looked at from entry `i` on could not be read.
    pub open spec fn entries_fail(&self, ifd: int, count: int, i: int, st: TiffState) -> bool
        decreases st.budget,
    {
        let t = self.file();
        let e = ifd + t.count_size() + i * t.entry_size();
        i < count && st.budget > 0 && (self.entry_fails(e) || match t.after_entry(
            e,
            TiffState { budget: st.budget - 1, ..st },
        ) {
            None => false,
            Some(next) => self.entries_fail(ifd, count, i + 1, next),
        })
    }

    /// One of the bytes of the directory of `count` entries at `ifd` that are looked at could not be read.
    pub open spec fn directory_fails(&self, ifd: int, count: int, st: TiffState) -> bool {
        let t = self.file();
        let list_end = ifd + t.count_size() + count * t.entry_size();
        let span = list_end + t.ptr_size();
        let before = TiffState {
            max_end: if span <= t.avail {
                larger(st.max_end, span)
            } else {
                st.max_end
            },
            strip_off: None,
            strip_cnt: None,
            tile_off: None,
            tile_cnt: None,
            ..st
        };
        let after = t.after_entries(ifd, count, 0, before);
        ||| self.entries_fail(ifd, count, 0, before)
        ||| self.picture_fails(after.strip_off, after.strip_cnt)
        ||| self.picture_fails(after.tile_off, after.tile_cnt)
        ||| self.num_fails(list_end, t.ptr_size())
    }

    /// One of the bytes of the directories that a walk reads, `read` of them so far, could not be read.
    pub open spec fn walk_fails(&self, st: TiffState, seen: Set<u64>, read: int) -> bool
        decreases MAX_IFDS - read, st.queue.len(),
    {
        let t = self.file();
        let ifd = st.queue.last();
        let rest = TiffState { queue: st.queue.drop_last(), ..st };
        st.queue.len() > 0 && if ifd < t.header_end() {
            self.walk_fails(rest, seen, read)
        } else if seen.contains(ifd) || read >= MAX_IFDS {
            self.walk_fails(rest, seen.insert(ifd), read)
        } else {
            self.num_fails(ifd as int, t.count_size()) || match t.num(ifd as int, t.count_size()) {
                None => self.walk_fails(rest, seen.insert(ifd), read),
                Some(count) => self.directory_fails(ifd as int, count as int, rest) || self.walk_fails(
                    t.after_directory(ifd as int, count as int, rest),
                    seen.insert(ifd),
                    read + 1,
                ),
            }
        }
    }

    /// One of the bytes of the file behind its magic that are looked at could not be read.
    pub open spec fn fails(&self) -> bool {
        let t = self.file();
        let first_at = if t.big {
            8int
        } else {
            4int
        };
        self.num_fails(first_at, t.ptr_size()) || match t.num(first_at, t.ptr_size()) {
            None => false,
            Some(first) => self.walk_fails(
                TiffState {
                    queue: seq![first],
                    budget: MAX_ENTRIES as int,
                    max_end: t.header_end(),
                    strip_off: None,
                    strip_cnt: None,
                    tile_off: None,
                    tile_cnt: None,
                },
                Set::empty(),
                0,
            ),
        }
    }

    /// Read an integer of 1, 2, 4 or 8 bytes.
    pub fn num(&self, off: u64, n: usize) -> (r: Result<Option<u64>, ReadError>)
        requires
            self.wf(),
            n == 1 || n == 2 || n == 4 || n == 8,
        ensures
            self.src.yields(self.base, self.avail as int, r, self.file().num(off as int, n as int)),
            r is Err <==> self.num_fails(off as int, n as int),
    {
        if off.saturating_add(n as u64) > self.avail {
            return Ok(None);
        }
        let b = match self.src.part(self.base, off, n)? {
            Some(b) => b,
            None => return Ok(None),
        };
        Ok(
            Some(
                if n == 1 {
                    b[0] as u64
                } else if n == 2 {
                    rd_ord16(&b, 0, self.be) as u64
                } else if n == 4 {
                    rd_ord32(&b, 0, self.be) as u64
                } else {
                    rd_ord64(&b, 0, self.be)
                },
            ),
        )
    }

    fn ptr_width(&self) -> (r: usize)
        ensures
            r == self.file().ptr_size(),
    {
        if self.big {
            8
        } else {
            4
        }
    }

    /// Read an offset-sized field: 8 bytes for BigTIFF, 4 for classic TIFF.
    pub fn ptr(&self, off: u64) -> (r: Result<Option<u64>, ReadError>)
        requires
            self.wf(),
        ensures
            self.src.yields(self.base, self.avail as int, r, self.file().num(off as int, self.file().ptr_size())),
            r is Err <==> self.num_fails(off as int, self.file().ptr_size()),
    {
        self.num(off, self.ptr_width())
    }

    /// Byte offset of the value/offset field within a 12- (classic) or 20-byte
    /// (BigTIFF) IFD entry.
    pub fn value_field(&self, entry: u64) -> (r: u64)
        requires
            entry + 12 <= u64::MAX,
        ensures
            r == self.file().value_at(entry as int),
    {
        if self.big {
            entry + 12
        } else {
            entry + 8
        }
    }

    /// Read the `n` integers of `size` bytes each at `base`.
    fn run(&self, base: u64, size: u64, n: u64) -> (r: Result<Vec<u64>, ReadError>)
        requires
            self.wf(),
            size == 1 || size == 2 || size == 4 || size == 8,
            base + n * size <= self.avail,
        ensures
            match r {
                Ok(v) => v@ == Seq::new(
                    n as nat,
                    |j: int|
                        tiff_uint(self.file().f, base + j * size, size as int, self.file().be),
                ),
                Err(err) => self.src.blames(self.base, self.avail as int, err),
            },
            r is Err <==> self.run_fails(base as int, size as int, n as int, 0),
    {
        let ghost t = self.file();
        let mut out: Vec<u64> = Vec::new();
        let mut at: u64 = base;
        let mut j: u64 = 0;
        while j < n
            invariant
                self.wf(),
                t == self.file(),
                j <= n,
                size == 1 || size == 2 || size == 4 || size == 8,
                base + n * size <= self.avail,
                at == base + j * size,
                out@ == Seq::new(
                    j as nat,
                    |j: int| tiff_uint(t.f, base + j * size, size as int, t.be),
                ),
                self.run_fails(base as int, size as int, n as int, 0) == self.run_fails(
                    base as int,
                    size as int,
                    n as int,
                    j as int,
                ),
            decreases n - j,
        {
            assert((j + 1) * size == j * size + size) by (nonlinear_arith);
            assert((j + 1) * size <= n * size) by (nonlinear_arith)
                requires
                    j + 1 <= n,
                    0 <= size,
            ;
            let v: u64 = match self.num(at, size as usize)? {
                Some(v) => v,
                None => 0,
            };
            out.push(v);
            at = at + size;
            j = j + 1;
        }
        Ok(out)
    }

    /// Read up to `cap` integer values of an IFD entry. Values live inline when
    /// they fit in the value field (4 bytes classic, 8 bytes BigTIFF), otherwise
    /// at the offset stored there.
    pub fn entry_array(&self, e: TiffEntry, cap: u64) -> (r: Result<Vec<u64>, ReadError>)
        requires
            self.wf(),
            e.at + 12 <= u64::MAX,
            cap <= MAX_STRIPS,
        ensures
            match r {
                Ok(v) => v@ == self.file().values(e, cap as int),
                Err(err) => self.src.blames(self.base, self.avail as int, err),
            },
            r is Err <==> self.values_fail(e, cap as int),
    {
        let ghost t = self.file();
        let out: Vec<u64> = Vec::new();
        let size: u64 = tiff_type_size(e.kind);
        if size == 0 {
            assert(out@ =~= t.values(e, cap as int));
            return Ok(out);
        }
        let n: u64 = if e.count < cap {
            e.count
        } else {
            cap
        };
        let base: u64 = if mul_wide(e.count, size) <= self.ptr_width() as u128 {
            self.value_field(e.at)
        } else {
            match self.ptr(self.value_field(e.at))? {
                Some(o) => o,
                None => {
                    assert(out@ =~= t.values(e, cap as int));
                    return Ok(out);
                },
            }
        };
        assert(t.values_at(e) == Some(base as int));
        assert(0 <= n * size <= 0x10_0000 * 8) by (nonlinear_arith)
            requires
                0 <= n <= 0x10_0000,
                0 <= size <= 8,
        ;
        if base.saturating_add(n * size) > self.avail {
            assert(out@ =~= t.values(e, cap as int));
            return Ok(out);
        }
        let v = self.run(base, size, n)?;
        assert(v@ =~= t.values(e, cap as int));
        Ok(v)
    }

    /// Resolve a paired (offsets, byte-counts) set of strip or tile entries to the
    /// furthest `offset[i] + bytecount[i]`.
    pub fn strip_tile_end(&self, offsets: Option<TiffEntry>, counts: Option<TiffEntry>) -> (r:
        Result<u64, ReadError>)
        requires
            self.wf(),
            offsets matches Some(e) ==> e.at + 12 <= u64::MAX,
            counts matches Some(e) ==> e.at + 12 <= u64::MAX,
        ensures
            match r {
                Ok(v) => v == self.file().picture_end(offsets, counts),
                Err(e) => self.src.blames(self.base, self.avail as int, e),
            },
            r is Err <==> self.picture_fails(offsets, counts),
    {
        let (o, l) = match (offsets, counts) {
            (Some(o), Some(l)) => (o, l),
            _ => return Ok(0),
        };
        let ghost t = self.file();
        let offs = self.entry_array(o, MAX_STRIPS)?;
        let lens = self.entry_array(l, MAX_STRIPS)?;
        let n: usize = if offs.len() < lens.len() {
            offs.len()
        } else {
            lens.len()
        };
        let mut end: u64 = 0;
        let mut i: usize = 0;
        while i < n
            invariant
                i <= n <= offs@.len(),
                n <= lens@.len(),
                end == t.strips_end(offs@, lens@, i as nat),
            decreases n - i,
        {
            end = max_u64(end, offs[i].saturating_add(lens[i]));
            i = i + 1;
        }
        Ok(end)
    }

    /// Read one directory entry, and keep what follows from it. `false` where the
    /// entry does not lie in the room.
    fn entry(&self, e: u64, w: &mut TiffWalk) -> (r: Result<bool, ReadError>)
        requires
            self.wf(),
            e + 12 <= u64::MAX,
            old(w).kept(),
        ensures
            match r {
                Ok(true) => self.file().after_entry(e as int, old(w)@) == Some(final(w)@)
                    && final(w).kept(),
                Ok(false) => self.file().after_entry(e as int, old(w)@) is None && final(w)@ == old(
                    w,
                )@ && final(w).kept(),
                Err(err) => self.src.blames(self.base, self.avail as int, err),
            },
            r is Err <==> self.entry_fails(e as int),
    {
        let tag: u64 = match self.num(e, 2)? {
            Some(v) => v,
            None => return Ok(false),
        };
        let kind: u64 = match self.num(e + 2, 2)? {
            Some(v) => v,
            None => 0,
        };
        let count: u64 = match self.ptr(e + 4)? {
            Some(v) => v,
            None => return Ok(false),
        };
        let entry = TiffEntry { kind, count, at: e };
        let wide: u128 = mul_wide(count, tiff_type_size(kind));
        let total: u64 = if wide > u64::MAX as u128 {
            u64::MAX
        } else {
            wide as u64
        };
        // Field data stored out-of-line extends the file.
        if total > self.ptr_width() as u64 {
            if let Some(off) = self.ptr(self.value_field(e))? {
                w.max_end = max_u64(w.max_end, off.saturating_add(total));
            }
        }
        if tag == 273 {
            w.strip_off = Some(entry);
        } else if tag == 279 {
            w.strip_cnt = Some(entry);
        } else if tag == 324 {
            w.tile_off = Some(entry);
        } else if tag == 325 {
            w.tile_cnt = Some(entry);
        } else if tag == 330 {
            let mut more = self.entry_array(entry, MAX_SUBIFDS)?;
            w.queue.append(&mut more);
        } else if tag == 34665 || tag == 34853 {
            let mut more = self.entry_array(entry, 1)?;
            w.queue.append(&mut more);
        }
        Ok(true)
    }

    /// Read the entries of the directory at `ifd`.
    fn entries(&self, ifd: u64, count: u64, w: &mut TiffWalk) -> (r: Result<(), ReadError>)
        requires
            self.wf(),
            ifd <= self.avail,
            old(w).budget <= MAX_ENTRIES,
            old(w).kept(),
        ensures
            match r {
                Ok(_) => final(w)@ == self.file().after_entries(
                    ifd as int,
                    count as int,
                    0,
                    old(w)@,
                ) && final(w).budget <= old(w).budget && final(w).kept(),
                Err(err) => self.src.blames(self.base, self.avail as int, err),
            },
            r is Err <==> self.entries_fail(ifd as int, count as int, 0, old(w)@),
    {
        let ghost t = self.file();
        let ghost w0 = w@;
        let mut i: u64 = 0;
        while i < count && w.budget > 0
            invariant
                self.wf(),
                t == self.file(),
                ifd <= self.avail,
                i <= count,
                i + w.budget <= MAX_ENTRIES,
                w0 == old(w)@,
                w.budget <= w0.budget,
                w.kept(),
                t.after_entries(ifd as int, count as int, 0, w0) == t.after_entries(
                    ifd as int,
                    count as int,
                    i as int,
                    w@,
                ),
                self.entries_fail(ifd as int, count as int, 0, w0) == self.entries_fail(
                    ifd as int,
                    count as int,
                    i as int,
                    w@,
                ),
            decreases w.budget,
        {
            w.budget = w.budget - 1;
            let e: u64 = if self.big {
                ifd + 8 + i * 20
            } else {
                ifd + 2 + i * 12
            };
            let ghost before = w@;
            if !self.entry(e, w)? {
                return Ok(());
            }
            assert(w@.budget == before.budget);
            i = i + 1;
        }
        Ok(())
    }

    /// Read the directory of `count` entries at `ifd`.
    fn directory(&self, ifd: u64, count: u64, w: &mut TiffWalk) -> (r: Result<(), ReadError>)
        requires
            self.wf(),
            ifd <= self.avail,
            old(w).budget <= MAX_ENTRIES,
        ensures
            match r {
                Ok(_) => final(w)@ == self.file().after_directory(ifd as int, count as int, old(w)@)
                    && final(w).budget <= MAX_ENTRIES,
                Err(err) => self.src.blames(self.base, self.avail as int, err),
            },
            r is Err <==> self.directory_fails(ifd as int, count as int, old(w)@),
    {
        let list_end: u128 = if self.big {
            ifd as u128 + 8 + count as u128 * 20
        } else {
            ifd as u128 + 2 + count as u128 * 12
        };
        // The directory's own span counts only if it plausibly fits: a bogus
        // count must not inflate the result past the device.
        let span: u128 = list_end + self.ptr_width() as u128;
        if span <= self.avail as u128 {
            w.max_end = max_u64(w.max_end, span as u64);
        }
        w.strip_off = None;
        w.strip_cnt = None;
        w.tile_off = None;
        w.tile_cnt = None;
        self.entries(ifd, count, w)?;
        let strips: u64 = self.strip_tile_end(w.strip_off, w.strip_cnt)?;
        let tiles: u64 = self.strip_tile_end(w.tile_off, w.tile_cnt)?;
        w.max_end = max_u64(max_u64(w.max_end, strips), tiles);
        if list_end <= self.avail as u128 {
            if let Some(next) = self.ptr(list_end as u64)? {
                if next != 0 {
                    w.queue.push(next);
                }
            }
        }
        Ok(())
    }

    /// Read all directories: how many there are, and the furthest byte that they
    /// refer to.
    fn directories(&self, first: u64) -> (r: Result<(u64, u64), ReadError>)
        requires
            self.wf(),
        ensures
            match r {
                Ok(x) => self.file().walk(
                    TiffState {
                        queue: seq![first],
                        budget: MAX_ENTRIES as int,
                        max_end: self.file().header_end(),
                        strip_off: None,
                        strip_cnt: None,
                        tile_off: None,
                        tile_cnt: None,
                    },
                    Set::empty(),
                    0,
                ) == (x.0 as int, x.1 as int),
                Err(err) => self.src.blames(self.base, self.avail as int, err),
            },
            r is Err <==> self.walk_fails(
                TiffState {
                    queue: seq![first],
                    budget: MAX_ENTRIES as int,
                    max_end: self.file().header_end(),
                    strip_off: None,
                    strip_cnt: None,
                    tile_off: None,
                    tile_cnt: None,
                },
                Set::empty(),
                0,
            ),
    {
        let ghost t = self.file();
        let header_end: u64 = if self.big {
            16
        } else {
            8
        };
        let mut queue: Vec<u64> = Vec::new();
        queue.push(first);
        let mut w = TiffWalk {
            queue,
            budget: MAX_ENTRIES,
            max_end: header_end,
            strip_off: None,
            strip_cnt: None,
            tile_off: None,
            tile_cnt: None,
        };
        let ghost w0 = w@;
        assert(w0.queue =~= seq![first]);
        let mut seen: HashSet<u64> = HashSet::new();
        let mut read: u64 = 0;
        loop
            invariant
                self.wf(),
                t == self.file(),
                header_end == t.header_end(),
                w0 == (TiffState {
                    queue: seq![first],
                    budget: MAX_ENTRIES as int,
                    max_end: t.header_end(),
                    strip_off: None,
                    strip_cnt: None,
                    tile_off: None,
                    tile_cnt: None,
                }),
                read <= MAX_IFDS,
                w.budget <= MAX_ENTRIES,
                t.walk(w0, Set::empty(), 0) == t.walk(w@, seen@, read as int),
                self.walk_fails(w0, Set::empty(), 0) == self.walk_fails(w@, seen@, read as int),
            decreases MAX_IFDS - read, w.queue@.len(),
        {
            let ifd: u64 = match w.queue.pop() {
                Some(ifd) => ifd,
                None => return Ok((read, w.max_end)),
            };
            if ifd >= header_end {
                let fresh = seen.insert(ifd);
                if fresh && read < MAX_IFDS {
                    let count_size: usize = if self.big {
                        8
                    } else {
                        2
                    };
                    if let Some(count) = self.num(ifd, count_size)? {
                        read = read + 1;
                        self.directory(ifd, count, &mut w)?;
                    }
                }
            }
        }
    }
}

impl TiffWalk {
    /// The entries that are kept lie where an entry can be.
    pub open spec fn kept(&self) -> bool {
        &&& self.strip_off matches Some(e) ==> e.at + 12 <= u64::MAX
        &&& self.strip_cnt matches Some(e) ==> e.at + 12 <= u64::MAX
        &&& self.tile_off matches Some(e) ==> e.at + 12 <= u64::MAX
        &&& self.tile_cnt matches Some(e) ==> e.at + 12 <= u64::MAX
    }
}

/// One of the bytes of a TIFF that are looked at could not be read.
pub open spec fn tiff_fails(src: Source, start: u64, avail: u64) -> bool {
    let f = src.tail(start as int);
    let h = f.subrange(0, 8);
    let be = !text_at(h, 0, "II"@);
    let magic = ord16(h, 2, be);
    let t = TiffReader { src: &src, base: start, be, big: magic == 43, avail };
    src.faulty(start as int, 8) || (f.len() >= 8 && (text_at(h, 0, "II"@) || text_at(h, 0, "MM"@)) && (
    magic == 42 && t.fails() || magic == 43 && (t.num_fails(4, 2) || (t.file().num(4, 2) == Some(8u64) && (
    t.num_fails(6, 2) || (t.file().num(6, 2) == Some(0u64) && t.fails()))))))
}

/// Walk a TIFF's IFD chain (plus sub-IFDs) and return the furthest byte the file
/// references, which is its length. Returns `None` for a non-TIFF or a
/// coincidental magic with no usable IFD.
pub fn tiff_length(source: &Source, file_start: u64, limit: u64) -> (r: Length)
    requires
        source.spans(file_start, limit),
    ensures
        source.sizes(
            file_start,
            r,
            tiff_len(source.tail(file_start as int), limit - file_start),
            limit - file_start,
        ),
        r is Err <==> tiff_fails(*source, file_start, (limit - file_start) as u64),
{
    let avail: u64 = limit - file_start;
    let h = match source.part(file_start, 0, 8)? {
        Some(h) => h,
        None => return Ok(None),
    };
    let intel = is_text(&h, 0, "II");
    if !intel && !is_text(&h, 0, "MM") {
        return Ok(None);
    }
    let magic: u16 = rd_ord16(&h, 2, !intel);
    if magic != 42 && magic != 43 {
        return Ok(None);
    }
    let big = magic == 43;
    let t = TiffReader { src: source, base: file_start, be: !intel, big, avail };
    if big {
        if t.num(4, 2)? != Some(8u64) {
            return Ok(None);
        }
        if t.num(6, 2)? != Some(0u64) {
            return Ok(None);
        }
    }
    let first_at: u64 = if big {
        8
    } else {
        4
    };
    let first: u64 = match t.ptr(first_at)? {
        Some(v) => v,
        None => return Ok(None),
    };
    let (read, end) = t.directories(first)?;
    let header_end: u64 = if big {
        16
    } else {
        8
    };
    if read == 0 || end <= header_end {
        return Ok(None);
    }
    Ok(within(end, avail))
}

} // verus!
