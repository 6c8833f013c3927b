//! The image that everything else reads.

use vstd::prelude::*;

verus! {

/// A range `start..end` of the image that could not be read.
#[derive(Clone, Copy, Debug, PartialEq, Eq, Structural)]
pub struct Fault {
    pub start: u64,
    pub end: u64,
}

/// A read that ran into an unreadable byte, and where that byte is.
#[derive(Clone, Copy, Debug, PartialEq, Eq, Structural)]
pub struct ReadError {
    pub offset: u64,
}

/// How many bytes behind the room of a file may be touched to size it.
pub const REACH: u64 = 0x2_0000;

/// The outcome of working out how long a file is: its length in bytes, where it
/// has one.
pub type Length = Result<Option<u64>, ReadError>;

/// The bytes of a disk image, with the ranges of it that could not be read.
pub struct Source {
    data: Vec<u8>,
    faults: Vec<Fault>,
}

impl View for Source {
    type V = Seq<u8>;

    closed spec fn view(&self) -> Seq<u8> {
        self.data@
    }
}

/// The bytes that a read of up to `n` bytes at `off` yields: what there is
/// before the end of `s`.
pub open spec fn window(s: Seq<u8>, off: int, n: int) -> Seq<u8> {
    if off >= s.len() {
        Seq::empty()
    } else if off + n <= s.len() {
        s.subrange(off, off + n)
    } else {
        s.subrange(off, s.len() as int)
    }
}

/// `off` lies in one of the ranges.
pub open spec fn covered(faults: Seq<Fault>, off: int) -> bool {
    exists|i: int|
        0 <= i < faults.len() && (#[trigger] faults[i]).start <= off && off < faults[i].end
}

impl Source {
    /// No image is larger than what a vector can hold.
    pub open spec fn wf(&self) -> bool {
        self@.len() <= isize::MAX
    }

    /// `start..limit` is a range of the image.
    pub open spec fn spans(&self, start: u64, limit: u64) -> bool {
        self.wf() && start <= limit <= self@.len()
    }

    /// The byte at `off` could not be read.
    pub closed spec fn unreadable(&self, off: int) -> bool {
        covered(self.faults@, off)
    }

    /// Every byte of the image could be read.
    pub open spec fn intact(&self) -> bool {
        forall|off: int| 0 <= off < self@.len() ==> !#[trigger] self.unreadable(off)
    }

    /// `e` is the error of a read that ran into an unreadable byte.
    pub open spec fn explains(&self, e: ReadError) -> bool {
        e.offset < self@.len() && self.unreadable(e.offset as int)
    }

    /// `e` is the error of a read that ran into an unreadable byte of the `room`
    /// behind `start`, or of the `REACH` bytes behind that, which a read may touch.
    pub open spec fn blames(&self, start: u64, room: int, e: ReadError) -> bool {
        start <= e.offset < start + room + REACH && self.explains(e)
    }

    /// `r` is a correct outcome of computing `v` from the `room` behind `start`: the
    /// value itself, or the error of a read that ran into an unreadable byte
    /// there.
    pub open spec fn yields<T>(&self, start: u64, room: int, r: Result<T, ReadError>, v: T) -> bool {
        match r {
            Ok(x) => x == v,
            Err(e) => self.blames(start, room, e),
        }
    }

    /// `r` is a correct outcome of sizing a file at `start` that has `avail` bytes
    /// of room: the length `v`, where there is one, and it lies in the room; or
    /// the error of a read that ran into an unreadable byte there.
    pub open spec fn sizes(
        &self,
        start: u64,
        r: Length,
        v: Option<int>,
        avail: int,
    ) -> bool {
        match r {
            Ok(Some(n)) => v == Some(n as int) && 0 < n <= avail,
            Ok(None) => v is None,
            Err(e) => self.blames(start, avail, e),
        }
    }

    /// The same of a file whose header may send a read anywhere behind `start`.
    pub open spec fn sizes_afar(
        &self,
        start: u64,
        r: Length,
        v: Option<int>,
        avail: int,
    ) -> bool {
        match r {
            Ok(Some(n)) => v == Some(n as int) && 0 < n <= avail,
            Ok(None) => v is None,
            Err(e) => start <= e.offset && self.explains(e),
        }
    }

    /// One of the up to `n` bytes at `off` could not be read.
    pub open spec fn faulty(&self, off: int, n: int) -> bool {
        exists|p: int| off <= p < off + n && p < self@.len() && #[trigger] self.unreadable(p)
    }

    /// What a read of up to `n` bytes at `off` gives: nothing, where one of them could not be read.
    pub open spec fn fetch(&self, off: int, n: int) -> Option<Seq<u8>> {
        if self.faulty(off, n) {
            None
        } else {
            Some(window(self@, off, n))
        }
    }

    /// What the image holds from `start` on.
    pub open spec fn tail(&self, start: int) -> Seq<u8> {
        self@.subrange(start, self@.len() as int)
    }

    /// A read past the end gives no bytes.
    pub proof fn lemma_past_end(&self, off: int, n: int)
        requires
            off >= self@.len(),
        ensures
            self.fetch(off, n) == Some(Seq::<u8>::empty()),
    {
    }

    /// A read of more bytes than the image has gives what a read of as many as it has gives.
    pub proof fn lemma_fetch_all(&self, off: int, n: int)
        requires
            0 <= off,
            n >= self@.len(),
        ensures
            self.fetch(off, n) == self.fetch(off, self@.len() as int),
    {
        let m = self@.len() as int;
        if self.faulty(off, n) {
            let p = choose|p: int|
                off <= p < off + n && p < self@.len() && #[trigger] self.unreadable(p);
            assert(off <= p < off + m && p < self@.len() && self.unreadable(p));
        }
        if self.faulty(off, m) {
            let p = choose|p: int|
                off <= p < off + m && p < self@.len() && #[trigger] self.unreadable(p);
            assert(off <= p < off + n && p < self@.len() && self.unreadable(p));
        }
        assert(window(self@, off, n) =~= window(self@, off, m));
    }

    /// An image all of which could be read.
    pub fn new(data: Vec<u8>) -> (r: Self)
        requires
            data@.len() <= isize::MAX,
        ensures
            r@ == data@,
            r.wf(),
            r.intact(),
    {
        Source { data, faults: Vec::new() }
    }

    /// An image some ranges of which could not be read. The bytes of `data` in
    /// those ranges are never handed out.
    pub fn with_faults(data: Vec<u8>, faults: Vec<Fault>) -> (r: Self)
        requires
            data@.len() <= isize::MAX,
        ensures
            r@ == data@,
            r.wf(),
            forall|off: int| #[trigger] r.unreadable(off) <==> covered(faults@, off),
    {
        Source { data, faults }
    }

    /// The number of bytes in the image.
    pub fn size(&self) -> (r: u64)
        ensures
            r == self@.len(),
    {
        self.data.len() as u64
    }

    /// The first byte of `start..end` that could not be read.
    fn first_fault(&self, start: u64, end: u64) -> (r: Option<u64>)
        ensures
            match r {
                Some(p) => start <= p < end && self.unreadable(p as int),
                None => forall|p: int| start <= p < end ==> !#[trigger] self.unreadable(p),
            },
    {
        let mut i: usize = 0;
        while i < self.faults.len()
            invariant
                i <= self.faults@.len(),
                forall|k: int|
                    0 <= k < i ==> {
                        let f = #[trigger] self.faults@[k];
                        f.end <= start || end <= f.start || f.end <= f.start || end <= start
                    },
            decreases self.faults@.len() - i,
        {
            let f = self.faults[i];
            let lo: u64 = if f.start > start {
                f.start
            } else {
                start
            };
            if lo < f.end && lo < end {
                assert(self.faults@[i as int].start <= lo < self.faults@[i as int].end);
                return Some(lo);
            }
            i += 1;
        }
        None
    }

    /// Up to `n` bytes at `off`: fewer only where the image ends first.
    pub fn read_at(&self, off: u64, n: usize) -> (r: Result<Vec<u8>, ReadError>)
        ensures
            match r {
                Ok(v) => v@ == window(self@, off as int, n as int),
                Err(e) => off <= e.offset < off + n && e.offset < self@.len()
                    && self.unreadable(e.offset as int),
            },
            r is Err <==> self.faulty(off as int, n as int),
    {
        let size: usize = self.data.len();
        let mut v: Vec<u8> = Vec::new();
        if off >= size as u64 {
            return Ok(v);
        }
        let from: usize = off as usize;
        let to: usize = if n <= size - from {
            from + n
        } else {
            size
        };
        if let Some(p) = self.first_fault(off, to as u64) {
            return Err(ReadError { offset: p });
        }
        let mut k: usize = from;
        while k < to
            invariant
                from <= k <= to <= self.data@.len(),
                v@ == self@.subrange(from as int, k as int),
            decreases to - k,
        {
            v.push(self.data[k]);
            k += 1;
        }
        Ok(v)
    }

    /// The `n` bytes at `pos` of what follows `start`, or `None` where the image
    /// ends before them.
    pub fn part(&self, start: u64, pos: u64, n: usize) -> (r: Result<Option<Vec<u8>>, ReadError>)
        requires
            n > 0,
            self.wf(),
            start <= self@.len(),
        ensures
            match r {
                Ok(Some(v)) => pos + n <= self.tail(start as int).len() && v@ == self.tail(
                    start as int,
                ).subrange(pos as int, pos + n),
                Ok(None) => pos + n > self.tail(start as int).len(),
                Err(e) => start + pos <= e.offset < start + pos + n && self.explains(e),
            },
            r is Err <==> self.faulty(start + pos, n as int),
    {
        let v = self.part_upto(start, pos, n)?;
        if v.len() < n {
            return Ok(None);
        }
        Ok(Some(v))
    }

    /// Up to `n` bytes at `pos` of what follows `start`: fewer only where the
    /// image ends first.
    pub fn part_upto(&self, start: u64, pos: u64, n: usize) -> (r: Result<Vec<u8>, ReadError>)
        requires
            self.wf(),
            start <= self@.len(),
        ensures
            match r {
                Ok(v) => v@ == window(self.tail(start as int), pos as int, n as int),
                Err(e) => start + pos <= e.offset < start + pos + n && self.explains(e),
            },
            r is Err <==> self.faulty(start + pos, n as int),
    {
        if pos >= self.size() - start {
            return Ok(Vec::new());
        }
        let v = self.read_at(start + pos, n)?;
        assert(v@ =~= window(self.tail(start as int), pos as int, n as int));
        Ok(v)
    }

    /// The byte at `pos` of what follows `start`, or `None` where the image ends
    /// before it.
    pub fn byte(&self, start: u64, pos: u64) -> (r: Result<Option<u8>, ReadError>)
        requires
            self.wf(),
            start <= self@.len(),
        ensures
            match r {
                Ok(Some(b)) => pos < self.tail(start as int).len() && b == self.tail(
                    start as int,
                )[pos as int],
                Ok(None) => pos >= self.tail(start as int).len(),
                Err(e) => e.offset == start + pos && self.explains(e),
            },
            r is Err <==> self.faulty(start + pos, 1),
    {
        let size: usize = self.data.len();
        if pos >= size as u64 - start {
            return Ok(None);
        }
        let at: u64 = start + pos;
        if let Some(p) = self.first_fault(at, at + 1) {
            return Err(ReadError { offset: p });
        }
        Ok(Some(self.data[at as usize]))
    }
}

} // verus!
