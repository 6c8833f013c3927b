//! What a TIFF refers to belongs to it.

use crate::bytes::{capped, larger, ord16, smaller, text_at};
use crate::carver::tiff::{tiff_len, tiff_size_of, tiff_uint, TiffEntry, TiffFile, TiffState};
use vstd::prelude::*;

verus! {

/// The number in the `n` bytes at `i`.
pub open spec fn number(f: Seq<u8>, i: int, n: int, be: bool) -> int
    decreases n,
{
    if n <= 0 {
        0
    } else if be {
        256 * number(f, i, n - 1, be) + f[i + n - 1]
    } else {
        f[i] + 256 * number(f, i + 1, n - 1, be)
    }
}

/// How many bytes a value has, by its type: a byte, a character or raw data have one, short integers two, long ones and
/// floats four, and fractions, doubles and the long integers of a BigTIFF eight.
pub open spec fn width(kind: int) -> int {
    if 0 <= kind <= 18 {
        seq![0int, 1, 1, 2, 4, 8, 1, 1, 2, 4, 8, 4, 8, 4, 0, 0, 8, 8, 8][kind]
    } else {
        0
    }
}

proof fn lemma_number(f: Seq<u8>, i: int, n: int, be: bool)
    requires
        n == 1 || n == 2 || n == 4 || n == 8,
        0 <= i,
        i + n <= f.len(),
    ensures
        tiff_uint(f, i, n, be) == number(f, i, n, be),
{
    reveal_with_fuel(number, 9);
}

impl TiffFile {
    /// How many bytes a count or an offset in an entry has.
    pub open spec fn wide(self) -> int {
        if self.big {
            8
        } else {
            4
        }
    }

    /// Where the `k`-th entry of the directory at `ifd` begins.
    pub open spec fn entry(self, ifd: int, k: int) -> int {
        if self.big {
            ifd + 8 + 20 * k
        } else {
            ifd + 2 + 12 * k
        }
    }

    /// What the `k`-th entry is.
    pub open spec fn tag(self, ifd: int, k: int) -> int {
        number(self.f, self.entry(ifd, k), 2, self.be)
    }

    /// How many bytes the values of the `k`-th entry have each.
    pub open spec fn each(self, ifd: int, k: int) -> int {
        width(number(self.f, self.entry(ifd, k) + 2, 2, self.be))
    }

    /// How many values the `k`-th entry has.
    pub open spec fn many(self, ifd: int, k: int) -> int {
        number(self.f, self.entry(ifd, k) + 4, self.wide(), self.be)
    }

    /// Where the values of the `k`-th entry begin: in it, if they have room there, otherwise where it says.
    pub open spec fn first(self, ifd: int, k: int) -> int {
        let field = self.entry(ifd, k) + 4 + self.wide();
        if self.many(ifd, k) * self.each(ifd, k) <= self.wide() {
            field
        } else {
            number(self.f, field, self.wide(), self.be)
        }
    }

    /// Where the values of the `k`-th entry end.
    pub open spec fn past(self, ifd: int, k: int) -> int {
        self.first(ifd, k) + self.many(ifd, k) * self.each(ifd, k)
    }

    /// The `j`-th value of the `k`-th entry.
    pub open spec fn value(self, ifd: int, k: int, j: int) -> int {
        number(self.f, self.first(ifd, k) + j * self.each(ifd, k), self.each(ifd, k), self.be)
    }

    /// At `ifd` there is a directory of `n` entries, behind which it says where the next one is.
    pub open spec fn is_directory(self, ifd: int, n: int) -> bool {
        &&& 0 <= n
        &&& (if self.big {
            16int
        } else {
            8int
        }) <= ifd <= u64::MAX
        &&& n == number(
            self.f,
            ifd,
            if self.big {
                8
            } else {
                2
            },
            self.be,
        )
        &&& self.entry(ifd, n) + self.wide() <= self.avail
        &&& self.avail <= self.f.len()
        &&& self.avail < u64::MAX
    }

    proof fn lemma_entry(self, ifd: int, n: int, k: int, st: TiffState)
        requires
            self.is_directory(ifd, n),
            0 <= k < n,
        ensures
            self.after_entry(self.entry(ifd, k), st) matches Some(r) && {
                let e = TiffEntry {
                    kind: number(self.f, self.entry(ifd, k) + 2, 2, self.be) as u64,
                    count: self.many(ifd, k) as u64,
                    at: self.entry(ifd, k) as u64,
                };
                let tag = self.tag(ifd, k);
                &&& r.max_end >= st.max_end
                &&& r.max_end == st.max_end || r.max_end == capped(self.past(ifd, k))
                &&& self.many(ifd, k) * self.each(ifd, k) > self.wide() ==> r.max_end >= capped(
                    self.past(ifd, k),
                )
                &&& r.budget == st.budget
                &&& st.queue.is_prefix_of(r.queue)
                &&& tag != 330 && tag != 34665 && tag != 34853 ==> r.queue == st.queue
                &&& r.strip_off == if tag == 273 {
                    Some(e)
                } else {
                    st.strip_off
                }
                &&& r.strip_cnt == if tag == 279 {
                    Some(e)
                } else {
                    st.strip_cnt
                }
                &&& r.tile_off == if tag == 324 {
                    Some(e)
                } else {
                    st.tile_off
                }
                &&& r.tile_cnt == if tag == 325 {
                    Some(e)
                } else {
                    st.tile_cnt
                }
            },
            number(self.f, self.entry(ifd, k) + 2, 2, self.be) == (number(self.f, self.entry(ifd, k) + 2, 2, self.be)
                as u64) as int,
            self.many(ifd, k) == (self.many(ifd, k) as u64) as int,
            self.entry(ifd, k) == (self.entry(ifd, k) as u64) as int,
    {
        let e = self.entry(ifd, k);
        let w = self.wide();
        lemma_number(self.f, e, 2, self.be);
        lemma_number(self.f, e + 2, 2, self.be);
        lemma_number(self.f, e + 4, w, self.be);
        lemma_number(self.f, e + 4 + w, w, self.be);
        let m = self.many(ifd, k);
        let z = self.each(ifd, k);
        assert(m * z >= 0) by (nonlinear_arith)
            requires
                m >= 0,
                z >= 0,
        ;
        let kind = self.num(e + 2, 2)->Some_0;
        assert(tiff_size_of(kind) == z);
        let r = self.after_entry(e, st)->Some_0;
        assert(st.queue =~= st.queue.subrange(0, st.queue.len() as int));
        if r.queue != st.queue {
            let more = r.queue.subrange(st.queue.len() as int, r.queue.len() as int);
            assert(st.queue =~= r.queue.subrange(0, st.queue.len() as int));
        }
    }

    proof fn lemma_at(self, ifd: int, n: int, k: int)
        requires
            0 <= k,
        ensures
            ifd + self.count_size() + k * self.entry_size() == self.entry(ifd, k),
    {
    }

    proof fn lemma_entries(self, ifd: int, n: int, i: int, st: TiffState, limit: int)
        requires
            self.is_directory(ifd, n),
            0 <= i <= n,
            n - i <= st.budget,
        ensures
            ({
                let r = self.after_entries(ifd, n, i, st);
                &&& r.max_end >= st.max_end
                &&& st.queue.is_prefix_of(r.queue)
                &&& forall|k: int|
                    i <= k < n && #[trigger] self.many(ifd, k) * self.each(ifd, k) > self.wide()
                        ==> r.max_end >= capped(self.past(ifd, k))
                &&& st.max_end <= limit && (forall|k: int|
                    i <= k < n ==> #[trigger] self.past(ifd, k) <= limit) ==> r.max_end <= limit
                &&& (forall|k: int|
                    i <= k < n ==> #[trigger] self.tag(ifd, k) != 330 && self.tag(ifd, k) != 34665
                        && self.tag(ifd, k) != 34853) ==> r.queue == st.queue
            }),
        decreases n - i,
    {
        assert(st.queue =~= st.queue.subrange(0, st.queue.len() as int));
        if i < n {
            let one = TiffState { budget: st.budget - 1, ..st };
            self.lemma_at(ifd, n, i);
            self.lemma_entry(ifd, n, i, one);
            let next = self.after_entry(self.entry(ifd, i), one)->Some_0;
            self.lemma_entries(ifd, n, i + 1, next, limit);
            let r = self.after_entries(ifd, n, i, st);
            assert(r == self.after_entries(ifd, n, i + 1, next));
            assert(st.queue =~= r.queue.subrange(0, st.queue.len() as int)) by {
                assert forall|x: int| 0 <= x < st.queue.len() implies st.queue[x] == r.queue[x] by {
                    assert(next.queue.subrange(0, st.queue.len() as int)[x] == next.queue[x]);
                    assert(r.queue.subrange(0, next.queue.len() as int)[x] == r.queue[x]);
                }
            }
            assert(self.past(ifd, i) <= limit && st.max_end <= limit ==> next.max_end <= limit);
            assert(self.tag(ifd, i) != 330 && self.tag(ifd, i) != 34665 && self.tag(ifd, i) != 34853
                ==> next.queue == st.queue);
        }
    }

    proof fn lemma_marked(self, ifd: int, n: int, i: int, st: TiffState)
        requires
            self.is_directory(ifd, n),
            0 <= i <= n,
            n - i <= st.budget,
        ensures
            ({
                let r = self.after_entries(ifd, n, i, st);
                &&& self.is_last(ifd, n, i, 273, st.strip_off, r.strip_off)
                &&& self.is_last(ifd, n, i, 279, st.strip_cnt, r.strip_cnt)
                &&& self.is_last(ifd, n, i, 324, st.tile_off, r.tile_off)
                &&& self.is_last(ifd, n, i, 325, st.tile_cnt, r.tile_cnt)
            }),
        decreases n - i,
    {
        if i < n {
            let one = TiffState { budget: st.budget - 1, ..st };
            self.lemma_at(ifd, n, i);
            self.lemma_entry(ifd, n, i, one);
            let next = self.after_entry(self.entry(ifd, i), one)->Some_0;
            self.lemma_marked(ifd, n, i + 1, next);
        }
    }

    /// Of the entries from `i` on that have the tag, it is the last that is kept; if there is none, what was.
    pub open spec fn is_last(
        self,
        ifd: int,
        n: int,
        i: int,
        tag: int,
        was: Option<TiffEntry>,
        is: Option<TiffEntry>,
    ) -> bool {
        ||| is == was && forall|k: int| i <= k < n ==> #[trigger] self.tag(ifd, k) != tag
        ||| exists|k: int|
            i <= k < n && #[trigger] self.tag(ifd, k) == tag && is == Some(
                TiffEntry {
                    kind: number(self.f, self.entry(ifd, k) + 2, 2, self.be) as u64,
                    count: self.many(ifd, k) as u64,
                    at: self.entry(ifd, k) as u64,
                },
            )
    }

    proof fn lemma_values(self, ifd: int, n: int, k: int, cap: int)
        requires
            self.is_directory(ifd, n),
            0 <= k < n,
            self.each(ifd, k) > 0,
            self.past(ifd, k) <= self.avail,
            self.many(ifd, k) <= cap,
        ensures
            ({
                let e = TiffEntry {
                    kind: number(self.f, self.entry(ifd, k) + 2, 2, self.be) as u64,
                    count: self.many(ifd, k) as u64,
                    at: self.entry(ifd, k) as u64,
                };
                let v = self.values(e, cap);
                &&& v.len() == self.many(ifd, k)
                &&& forall|j: int| 0 <= j < v.len() ==> #[trigger] v[j] == self.value(ifd, k, j)
            }),
    {
        let z = self.each(ifd, k);
        let m = self.many(ifd, k);
        let w = self.wide();
        self.lemma_entry(
            ifd,
            n,
            k,
            TiffState {
                queue: Seq::empty(),
                budget: 0,
                max_end: 0,
                strip_off: None,
                strip_cnt: None,
                tile_off: None,
                tile_cnt: None,
            },
        );
        let at = self.entry(ifd, k);
        lemma_number(self.f, at + 2, 2, self.be);
        lemma_number(self.f, at + 4, w, self.be);
        lemma_number(self.f, at + 4 + w, w, self.be);
        let base = self.first(ifd, k);
        assert(0 <= base);
        assert forall|j: int| 0 <= j < m implies tiff_uint(self.f, base + j * z, z, self.be) == #[trigger] self.value(
            ifd,
            k,
            j,
        ) by {
            assert(0 <= j * z && j * z + z <= m * z) by (nonlinear_arith)
                requires
                    0 <= j < m,
                    z > 0,
            ;
            lemma_number(self.f, base + j * z, z, self.be);
        }
    }

    proof fn lemma_strips(self, offs: Seq<u64>, lens: Seq<u64>, n: nat, limit: int)
        requires
            n <= offs.len(),
            n <= lens.len(),
            0 <= limit,
        ensures
            forall|j: int|
                0 <= j < n ==> capped(#[trigger] offs[j] + lens[j]) <= self.strips_end(offs, lens, n),
            (forall|j: int| 0 <= j < n ==> #[trigger] offs[j] + lens[j] <= limit) ==> self.strips_end(offs, lens, n)
                <= limit,
        decreases n,
    {
        if n > 0 {
            self.lemma_strips(offs, lens, (n - 1) as nat, limit);
        }
    }

    /// The picture of the directory is in strips (tags 273 and 279) or in tiles (324 and 325): the entry `p` says where
    /// each of them begins, and the entry `q` how long it is.
    pub open spec fn is_picture(self, ifd: int, n: int, p: int, q: int) -> bool {
        &&& 0 <= p < n
        &&& 0 <= q < n
        &&& self.each(ifd, p) > 0
        &&& self.each(ifd, q) > 0
        &&& self.past(ifd, p) <= self.avail
        &&& self.past(ifd, q) <= self.avail
        &&& self.many(ifd, p) <= 0x10_0000
        &&& self.many(ifd, q) <= 0x10_0000
        &&& {
            ||| self.tag(ifd, p) == 273 && self.tag(ifd, q) == 279
            ||| self.tag(ifd, p) == 324 && self.tag(ifd, q) == 325
        }
        &&& forall|k: int|
            0 <= k < n && k != p && k != q ==> #[trigger] self.tag(ifd, k) != 273 && self.tag(ifd, k) != 279
                && self.tag(ifd, k) != 324 && self.tag(ifd, k) != 325
    }

    proof fn lemma_directory(self, ifd: int, n: int, p: int, q: int, st: TiffState, limit: int)
        requires
            self.is_directory(ifd, n),
            self.is_picture(ifd, n, p, q),
            n <= st.budget,
            0 <= st.max_end,
        ensures
            ({
                let r = self.after_directory(ifd, n, st);
                &&& r.max_end >= st.max_end
                &&& r.max_end >= self.entry(ifd, n) + self.wide()
                &&& forall|k: int|
                    0 <= k < n && #[trigger] self.many(ifd, k) * self.each(ifd, k) > self.wide()
                        ==> r.max_end >= capped(self.past(ifd, k))
                &&& forall|j: int|
                    0 <= j < self.many(ifd, p) && j < self.many(ifd, q) ==> r.max_end >= capped(
                        #[trigger] self.value(ifd, p, j) + self.value(ifd, q, j),
                    )
                &&& st.max_end <= limit && self.entry(ifd, n) + self.wide() <= limit && (forall|k: int|
                    0 <= k < n ==> #[trigger] self.past(ifd, k) <= limit) && (forall|j: int|
                    0 <= j < self.many(ifd, p) && j < self.many(ifd, q) ==> #[trigger] self.value(ifd, p, j)
                        + self.value(ifd, q, j) <= limit) ==> r.max_end <= limit
                &&& (forall|k: int|
                    0 <= k < n ==> #[trigger] self.tag(ifd, k) != 330 && self.tag(ifd, k) != 34665
                        && self.tag(ifd, k) != 34853) && number(
                    self.f,
                    self.entry(ifd, n),
                    self.wide(),
                    self.be,
                ) == 0 ==> r.queue == st.queue
            }),
    {
        self.lemma_at(ifd, n, n);
        let span = self.entry(ifd, n) + self.wide();
        let a = TiffState {
            max_end: larger(st.max_end, span),
            strip_off: None,
            strip_cnt: None,
            tile_off: None,
            tile_cnt: None,
            ..st
        };
        lemma_number(self.f, self.entry(ifd, n), self.wide(), self.be);
        self.lemma_entries(ifd, n, 0, a, limit);
        self.lemma_marked(ifd, n, 0, a);
        let b = self.after_entries(ifd, n, 0, a);
        self.lemma_values(ifd, n, p, 0x10_0000);
        self.lemma_values(ifd, n, q, 0x10_0000);
        let x = TiffEntry {
            kind: number(self.f, self.entry(ifd, p) + 2, 2, self.be) as u64,
            count: self.many(ifd, p) as u64,
            at: self.entry(ifd, p) as u64,
        };
        let y = TiffEntry {
            kind: number(self.f, self.entry(ifd, q) + 2, 2, self.be) as u64,
            count: self.many(ifd, q) as u64,
            at: self.entry(ifd, q) as u64,
        };
        let tp = self.tag(ifd, p);
        let tq = self.tag(ifd, q);
        if tp == 273 {
            assert(b.strip_off == Some(x) && b.strip_cnt == Some(y));
            assert(b.tile_off is None);
        } else {
            assert(b.tile_off == Some(x) && b.tile_cnt == Some(y));
            assert(b.strip_off is None);
        }
        let offs = self.values(x, 0x10_0000);
        let lens = self.values(y, 0x10_0000);
        let m = smaller(offs.len() as int, lens.len() as int);
        let r = self.after_directory(ifd, n, st);
        assert(r.max_end == larger(b.max_end, self.strips_end(offs, lens, m as nat)) || r.max_end == larger(
            larger(b.max_end, self.strips_end(offs, lens, m as nat)),
            0,
        ) || r.max_end == larger(larger(b.max_end, 0), self.strips_end(offs, lens, m as nat)));
        self.lemma_strips(offs, lens, m as nat, larger(limit, 0));
        assert forall|j: int|
            0 <= j < self.many(ifd, p) && j < self.many(ifd, q) implies r.max_end >= capped(
            #[trigger] self.value(ifd, p, j) + self.value(ifd, q, j),
        ) by {
            assert(offs[j] == self.value(ifd, p, j));
            assert(lens[j] == self.value(ifd, q, j));
            assert(capped(offs[j] + lens[j]) <= self.strips_end(offs, lens, m as nat));
        }
        if forall|j: int|
            0 <= j < self.many(ifd, p) && j < self.many(ifd, q) ==> #[trigger] self.value(ifd, p, j)
                + self.value(ifd, q, j) <= limit {
            assert forall|j: int| 0 <= j < m implies #[trigger] offs[j] + lens[j] <= limit by {
                assert(offs[j] == self.value(ifd, p, j));
                assert(lens[j] == self.value(ifd, q, j));
            }
        }
    }

    /// A TIFF with one directory and one picture reaches to the end of the last of what it has: the directory, the values
    /// that have no room in their entries, and the strips or tiles of the picture. It is no shorter than any of these, and
    /// no longer than the longest.
    pub proof fn law_tiff(self, ifd: int, n: int, p: int, q: int, end: int)
        requires
            self.is_directory(ifd, n),
            self.is_picture(ifd, n, p, q),
            n <= 0x10_0000,
            ifd == number(
                self.f,
                if self.big {
                    8
                } else {
                    4
                },
                self.wide(),
                self.be,
            ),
            number(self.f, self.entry(ifd, n), self.wide(), self.be) == 0,
            forall|k: int|
                0 <= k < n ==> #[trigger] self.tag(ifd, k) != 330 && self.tag(ifd, k) != 34665 && self.tag(ifd, k)
                    != 34853,
            self.entry(ifd, n) + self.wide() <= end <= self.avail,
            forall|k: int| 0 <= k < n ==> #[trigger] self.past(ifd, k) <= end,
            forall|j: int|
                0 <= j < self.many(ifd, p) && j < self.many(ifd, q) ==> #[trigger] self.value(ifd, p, j)
                    + self.value(ifd, q, j) <= end,
            ({
                ||| end == self.entry(ifd, n) + self.wide()
                ||| exists|k: int|
                    0 <= k < n && #[trigger] self.many(ifd, k) * self.each(ifd, k) > self.wide() && end
                        == self.past(ifd, k)
                ||| exists|j: int|
                    0 <= j < self.many(ifd, p) && j < self.many(ifd, q) && end == #[trigger] self.value(ifd, p, j)
                        + self.value(ifd, q, j)
            }),
        ensures
            self.length() == Some(end),
    {
        let first_at: int = if self.big {
            8
        } else {
            4
        };
        lemma_number(self.f, first_at, self.wide(), self.be);
        let st = TiffState {
            queue: seq![ifd as u64],
            budget: 0x10_0000,
            max_end: self.header_end(),
            strip_off: None,
            strip_cnt: None,
            tile_off: None,
            tile_cnt: None,
        };
        let rest = TiffState { queue: st.queue.drop_last(), ..st };
        assert(rest.queue =~= Seq::<u64>::empty());
        assert(st.queue.last() == ifd);
        lemma_number(self.f, ifd, self.count_size(), self.be);
        self.lemma_directory(ifd, n, p, q, rest, end);
        let r = self.after_directory(ifd, n, rest);
        reveal_with_fuel(TiffFile::walk, 3);
        assert(self.walk(st, Set::empty(), 0) == (1int, r.max_end));
        assert(r.max_end == end);
    }

    proof fn lemma_any_entries(self, ifd: int, n: int, i: int, st: TiffState)
        requires
            self.is_directory(ifd, n),
            0 <= i <= n,
        ensures
            ({
                let r = self.after_entries(ifd, n, i, st);
                &&& r.max_end >= st.max_end
                &&& st.queue.is_prefix_of(r.queue)
            }),
        decreases n - i,
    {
        assert(st.queue =~= st.queue.subrange(0, st.queue.len() as int));
        if i < n && st.budget > 0 {
            let one = TiffState { budget: st.budget - 1, ..st };
            self.lemma_at(ifd, n, i);
            self.lemma_entry(ifd, n, i, one);
            let next = self.after_entry(self.entry(ifd, i), one)->Some_0;
            self.lemma_any_entries(ifd, n, i + 1, next);
            let r = self.after_entries(ifd, n, i, st);
            assert forall|x: int| 0 <= x < st.queue.len() implies st.queue[x] == r.queue[x] by {
                assert(next.queue.subrange(0, st.queue.len() as int)[x] == next.queue[x]);
                assert(r.queue.subrange(0, next.queue.len() as int)[x] == r.queue[x]);
            }
            assert(st.queue =~= r.queue.subrange(0, st.queue.len() as int));
        }
    }

    /// `dirs` are directories with as many entries as `sizes` says, none of them twice, each of which says where the next one
    /// is.
    pub open spec fn is_chain(self, dirs: Seq<u64>, sizes: Seq<int>) -> bool {
        &&& 0 < dirs.len() == sizes.len() <= 4096
        &&& dirs.no_duplicates()
        &&& forall|i: int| 0 <= i < dirs.len() ==> self.is_directory(#[trigger] dirs[i] as int, sizes[i])
        &&& forall|i: int, j: int|
            #![trigger dirs[i], dirs[j]]
            0 <= i && j == i + 1 && j < dirs.len() ==> dirs[j] == number(
                self.f,
                self.entry(dirs[i] as int, sizes[i]),
                self.wide(),
                self.be,
            )
    }

    proof fn lemma_walk_grows(self, st: TiffState, seen: Set<u64>, read: int)
        requires
            self.avail <= self.f.len(),
            self.avail < u64::MAX,
        ensures
            self.walk(st, seen, read).0 >= read,
            self.walk(st, seen, read).1 >= st.max_end,
        decreases 4096 - read, st.queue.len(),
    {
        if st.queue.len() > 0 {
            let ifd = st.queue.last();
            let rest = TiffState { queue: st.queue.drop_last(), ..st };
            if ifd < self.header_end() {
                self.lemma_walk_grows(rest, seen, read);
            } else if seen.contains(ifd) || read >= 4096 {
                self.lemma_walk_grows(rest, seen.insert(ifd), read);
            } else {
                match self.num(ifd as int, self.count_size()) {
                    None => self.lemma_walk_grows(rest, seen.insert(ifd), read),
                    Some(count) => {
                        let next = self.after_directory(ifd as int, count as int, rest);
                        self.lemma_grows(ifd as int, count as int, 0, rest);
                        self.lemma_walk_grows(next, seen.insert(ifd), read + 1);
                    },
                }
            }
        }
    }

    proof fn lemma_grows(self, ifd: int, count: int, i: int, st: TiffState)
        ensures
            self.after_entries(ifd, count, i, st).max_end >= st.max_end,
            self.after_directory(ifd, count, st).max_end >= st.max_end,
        decreases larger(st.budget, 0), 1int,
    {
        self.lemma_entries_grow(ifd, count, i, st);
        let span = ifd + self.count_size() + count * self.entry_size() + self.ptr_size();
        let a = TiffState {
            max_end: if span <= self.avail {
                larger(st.max_end, span)
            } else {
                st.max_end
            },
            strip_off: None,
            strip_cnt: None,
            tile_off: None,
            tile_cnt: None,
            ..st
        };
        self.lemma_entries_grow(ifd, count, 0, a);
    }

    proof fn lemma_entries_grow(self, ifd: int, count: int, i: int, st: TiffState)
        ensures
            self.after_entries(ifd, count, i, st).max_end >= st.max_end,
        decreases larger(st.budget, 0), 0int,
    {
        if i < count && st.budget > 0 {
            let one = TiffState { budget: st.budget - 1, ..st };
            match self.after_entry(ifd + self.count_size() + i * self.entry_size(), one) {
                None => {},
                Some(next) => self.lemma_entries_grow(ifd, count, i + 1, next),
            }
        }
    }

    proof fn lemma_chain(self, dirs: Seq<u64>, sizes: Seq<int>, i: int, st: TiffState, k: int)
        requires
            self.is_chain(dirs, sizes),
            0 <= i <= k < dirs.len(),
            st.queue.len() > 0,
            st.queue.last() == dirs[i],
        ensures
            self.walk(st, dirs.take(i).to_set(), i).1 >= self.entry(dirs[k] as int, sizes[k]) + self.wide(),
        decreases k - i,
    {
        let ifd = dirs[i] as int;
        let n = sizes[i];
        let seen = dirs.take(i).to_set();
        let rest = TiffState { queue: st.queue.drop_last(), ..st };
        assert(self.is_directory(ifd, n));
        assert(!seen.contains(dirs[i])) by {
            if seen.contains(dirs[i]) {
                let j = choose|j: int| 0 <= j < i && dirs.take(i)[j] == dirs[i];
                assert(dirs[j] == dirs[i]);
            }
        }
        lemma_number(self.f, ifd, self.count_size(), self.be);
        lemma_number(self.f, self.entry(ifd, n), self.wide(), self.be);
        let next = self.after_directory(ifd, n, rest);
        self.lemma_at(ifd, n, n);
        let span = self.entry(ifd, n) + self.wide();
        let a = TiffState {
            max_end: larger(rest.max_end, span),
            strip_off: None,
            strip_cnt: None,
            tile_off: None,
            tile_cnt: None,
            ..rest
        };
        self.lemma_any_entries(ifd, n, 0, a);
        assert(next.max_end >= span);
        assert(dirs.take(i + 1).to_set() =~= seen.insert(dirs[i])) by {
            assert(dirs.take(i + 1) =~= dirs.take(i).push(dirs[i]));
            assert forall|x: u64| dirs.take(i + 1).contains(x) == (dirs.take(i).contains(x) || x == dirs[i]) by {
                let t = dirs.take(i + 1);
                if dirs.take(i).contains(x) {
                    let j = choose|j: int| 0 <= j < i && dirs.take(i)[j] == x;
                    assert(t[j] == x);
                }
                assert(t[i] == dirs[i]);
                if t.contains(x) && x != dirs[i] {
                    let j = choose|j: int| 0 <= j < t.len() && t[j] == x;
                    assert(dirs.take(i)[j] == x);
                }
            }
        }
        assert(self.walk(st, seen, i) == self.walk(next, seen.insert(dirs[i]), i + 1));
        if i < k {
            assert(dirs[i + 1] == number(self.f, self.entry(dirs[i] as int, sizes[i]), self.wide(), self.be));
            assert(self.is_directory(dirs[i + 1] as int, sizes[i + 1]));
            assert(next.queue.last() == dirs[i + 1]);
            self.lemma_chain(dirs, sizes, i + 1, next, k);
        } else {
            self.lemma_walk_grows(next, seen.insert(dirs[i]), i + 1);
        }
    }

    /// Every directory of a chain belongs to a TIFF: it reaches to the end of each of them at least.
    pub proof fn law_tiff_chain(self, dirs: Seq<u64>, sizes: Seq<int>, k: int, r: int)
        requires
            self.is_chain(dirs, sizes),
            0 <= k < dirs.len(),
            dirs[0] == number(
                self.f,
                if self.big {
                    8
                } else {
                    4
                },
                self.wide(),
                self.be,
            ),
            self.length() == Some(r),
        ensures
            r >= self.entry(dirs[k] as int, sizes[k]) + self.wide(),
    {
        let first_at: int = if self.big {
            8
        } else {
            4
        };
        assert(self.is_directory(dirs[0] as int, sizes[0]));
        lemma_number(self.f, first_at, self.wide(), self.be);
        let st = TiffState {
            queue: seq![dirs[0]],
            budget: 0x10_0000,
            max_end: self.header_end(),
            strip_off: None,
            strip_cnt: None,
            tile_off: None,
            tile_cnt: None,
        };
        assert(dirs.take(0).to_set() =~= Set::<u64>::empty());
        self.lemma_chain(dirs, sizes, 0, st, k);
    }

    /// What the entry of a directory says where other directories are (tag 330, or 34665 and 34853 with one value) is read
    /// as such: its values are among the directories that are still to be read.
    pub proof fn law_subdirectories(self, ifd: int, n: int, k: int, st: TiffState, j: int)
        requires
            self.is_directory(ifd, n),
            0 <= k < n,
            self.each(ifd, k) > 0,
            self.past(ifd, k) <= self.avail,
            0 <= j < self.many(ifd, k),
            ({
                ||| self.tag(ifd, k) == 330 && self.many(ifd, k) <= 64
                ||| self.tag(ifd, k) == 34665 && self.many(ifd, k) == 1
                ||| self.tag(ifd, k) == 34853 && self.many(ifd, k) == 1
            }),
        ensures
            self.after_entry(self.entry(ifd, k), st) matches Some(r) && r.queue.contains(
                self.value(ifd, k, j) as u64,
            ),
    {
        let e = self.entry(ifd, k);
        let w = self.wide();
        let cap: int = if self.tag(ifd, k) == 330 {
            64
        } else {
            1
        };
        lemma_number(self.f, e, 2, self.be);
        lemma_number(self.f, e + 2, 2, self.be);
        lemma_number(self.f, e + 4, w, self.be);
        self.lemma_entry(ifd, n, k, st);
        self.lemma_values(ifd, n, k, cap);
        let r = self.after_entry(e, st)->Some_0;
        let entry = TiffEntry {
            kind: number(self.f, e + 2, 2, self.be) as u64,
            count: self.many(ifd, k) as u64,
            at: e as u64,
        };
        let v = self.values(entry, cap);
        assert(r.queue == st.queue + v);
        assert(v[j] == self.value(ifd, k, j));
        assert(r.queue[st.queue.len() + j] == v[j]);
    }
}

/// The first four bytes say in which order a TIFF has its bytes, and whether it is a BigTIFF.
pub proof fn law_tiff_kinds(f: Seq<u8>, avail: int)
    requires
        16 <= avail <= f.len(),
    ensures
        f[0] == 0x49 && f[1] == 0x49 && f[2] == 42 && f[3] == 0 ==> tiff_len(f, avail) == (TiffFile {
            f,
            avail,
            be: false,
            big: false,
        }).length(),
        f[0] == 0x4D && f[1] == 0x4D && f[2] == 0 && f[3] == 42 ==> tiff_len(f, avail) == (TiffFile {
            f,
            avail,
            be: true,
            big: false,
        }).length(),
        f[0] == 0x49 && f[1] == 0x49 && f[2] == 43 && f[3] == 0 && f[4] == 8 && f[5] == 0 && f[6] == 0 && f[7]
            == 0 ==> tiff_len(f, avail) == (TiffFile { f, avail, be: false, big: true }).length(),
        f[0] == 0x4D && f[1] == 0x4D && f[2] == 0 && f[3] == 43 && f[4] == 0 && f[5] == 8 && f[6] == 0 && f[7]
            == 0 ==> tiff_len(f, avail) == (TiffFile { f, avail, be: true, big: true }).length(),
{
    reveal_strlit("II");
    reveal_strlit("MM");
    let h = f.subrange(0, 8);
    assert(text_at(h, 0, "II"@) <==> f[0] == 0x49 && f[1] == 0x49) by {
        if text_at(h, 0, "II"@) {
            assert(h[0int + 0] == "II"@[0] as u32 && h[0int + 1] == "II"@[1] as u32);
        }
    }
    assert(text_at(h, 0, "MM"@) <==> f[0] == 0x4D && f[1] == 0x4D) by {
        if text_at(h, 0, "MM"@) {
            assert(h[0int + 0] == "MM"@[0] as u32 && h[0int + 1] == "MM"@[1] as u32);
        }
    }
    let be = !text_at(h, 0, "II"@);
    assert(ord16(h, 2, be) == if be {
        256 * f[2] + f[3]
    } else {
        f[2] + 256 * f[3]
    });
}

} // verus!
