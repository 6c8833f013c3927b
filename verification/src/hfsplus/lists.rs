//! What holds of the records of files and folders, of paths, and of the forks that hold them.

use crate::hfsplus::laws::record_count;
use crate::hfsplus::records::{
    extent_record_at, file_at, folder_at, free_range, hfs_sanitized, path_of, FileView,
};
use crate::hfsplus::{extents_from, Volume};
use crate::source::{window, Source};
use crate::strings::utf16_text;
use vstd::prelude::*;

verus! {

/// The four bytes at `i`, the most significant first.
pub open spec fn four(s: Seq<u8>, i: int) -> int {
    0x100_0000 * s[i] + 0x1_0000 * s[i + 1] + 0x100 * s[i + 2] + s[i + 3]
}

/// At `off` there is the key of a record of the catalog: how long it is, the folder it is in, and a name of `n` units, two
/// bytes each.
pub open spec fn is_key(node: Seq<u8>, off: int, n: int) -> bool {
    &&& 0 <= off
    &&& off + 8 + 2 * n <= node.len()
    &&& 1 <= n <= 255
    &&& 0x100 * node[off] + node[off + 1] == 6 + 2 * n
    &&& 0x100 * node[off + 6] + node[off + 7] == n
}

/// The units of the name in a key.
pub open spec fn key_units(node: Seq<u8>, off: int, n: int) -> Seq<u16> {
    Seq::new(n as nat, |i: int| (0x100 * node[off + 8 + 2 * i] + node[off + 9 + 2 * i]) as u16)
}

/// What a record of a file says is where the format has it: behind the key its type (2), and at 8, 16 and 24 its CNID and
/// the dates of its content and of its last access, at 88 how many bytes it has, in eight, and at 104 its extents.
pub proof fn law_file_record(
    node: Seq<u8>,
    off: int,
    n: int,
    total: int,
    size: int,
    extents: Seq<(u32, u32)>,
    f: FileView,
)
    requires
        is_key(node, off, n),
        four(node, off + 2) >= 2,
        ({
            let r = off + 8 + 2 * n;
            &&& r + 168 <= node.len()
            &&& node[r] == 0 && node[r + 1] == 2
            &&& four(node, r + 8) != 0
            &&& 0 < four(node, r + 88) * 0x1_0000_0000 + four(node, r + 92) <= size
            &&& extents_from(node, r + 104, 0, total) == Some(extents)
            &&& extents.len() > 0
            &&& f.file_id == four(node, r + 8)
            &&& f.mod_date == four(node, r + 16)
            &&& f.access_date == four(node, r + 24)
            &&& f.logical_size == four(node, r + 88) * 0x1_0000_0000 + four(node, r + 92)
        }),
        f.name == utf16_text(key_units(node, off, n), 0),
        f.parent_id == four(node, off + 2),
        f.extents == extents,
    ensures
        file_at(node, off, total, size) == Some(f),
{
    assert(crate::hfsplus::records::name_units(node, off, n) =~= key_units(node, off, n));
    let g = file_at(node, off, total, size)->Some_0;
    assert(g =~= f);
}

/// What a record of a folder says is where the format has it: behind the key its type (1), and at 8 its CNID.
pub proof fn law_folder_record(node: Seq<u8>, off: int, n: int, id: u32, parent: u32)
    requires
        is_key(node, off, n),
        parent == four(node, off + 2),
        parent != 0,
        ({
            let r = off + 8 + 2 * n;
            &&& r + 16 <= node.len()
            &&& node[r] == 0 && node[r + 1] == 1
            &&& id == four(node, r + 8)
        }),
        id != 0,
    ensures
        folder_at(node, off) == Some((id, utf16_text(key_units(node, off, n), 0), parent)),
{
    assert(crate::hfsplus::records::name_units(node, off, n) =~= key_units(node, off, n));
}

/// What a record of the extents-overflow tree says is where the format has it: a key of ten bytes, the fork, the CNID of the
/// file and the block of the file that it begins with, and then eight extents.
pub proof fn law_overflow_record(node: Seq<u8>, off: int, total: int, v: Seq<(u32, u32)>)
    requires
        0 <= off,
        off + 76 <= node.len(),
        node[off] == 0 && node[off + 1] == 10,
        four(node, off + 4) != 0,
        extents_from(node, off + 12, 0, total) == Some(v),
    ensures
        extent_record_at(node, off, total) == Some(
            (node[off + 2], four(node, off + 4) as u32, four(node, off + 8) as u32, v),
        ),
{
}

/// The free space of a node is what is left between its records and the entries of its array: there is one entry more than
/// it has records, and that says where the free space begins.
pub proof fn law_free_range(node: Seq<u8>, size: int, start: int)
    requires
        14 <= size <= node.len(),
        2 * (record_count(node) + 1) <= size,
        start == 0x100 * node[size - 2 * record_count(node) - 2] + node[size - 2 * record_count(node) - 1],
        14 <= start <= size,
    ensures
        free_range(node, size) == (start, size - 2 * record_count(node) - 2),
{
}

/// The folders that contain each other, `ids`, the first of which is in the root folder (2): the path of the last has all
/// their names, in that order, with a slash between each two.
pub proof fn law_path(folders: Map<u32, (Seq<char>, u32)>, ids: Seq<u32>, guard: int)
    requires
        0 < ids.len(),
        0 <= guard,
        ids.len() + guard <= 256,
        forall|i: int| 0 <= i < ids.len() ==> folders.contains_key(#[trigger] ids[i]) && ids[i] != 2,
        folders[ids[0]].1 == 2,
        forall|i: int, j: int|
            #![trigger ids[i], ids[j]]
            0 <= i && j == i + 1 && j < ids.len() ==> folders[ids[j]].1 == ids[i],
        forall|i: int|
            0 <= i < ids.len() ==> hfs_sanitized(folders[#[trigger] ids[i]].0).len() > 0,
    ensures
        path_of(folders, ids.last(), guard) == with_slashes(
            Seq::new(ids.len(), |i: int| hfs_sanitized(folders[ids[i]].0)),
        ),
        path_of(folders, ids.last(), guard).len() > 0,
    decreases ids.len(),
{
    reveal_strlit("/");
    assert("/"@ =~= seq!['/']);
    let names = Seq::new(ids.len(), |i: int| hfs_sanitized(folders[ids[i]].0));
    let last = ids.last();
    assert(folders.contains_key(ids[ids.len() - 1]));
    if ids.len() > 1 {
        let before = ids.drop_last();
        assert(folders[ids[ids.len() - 1]].1 == ids[ids.len() - 2]);
        assert forall|i: int| 0 <= i < before.len() implies folders.contains_key(#[trigger] before[i])
            && before[i] != 2 && hfs_sanitized(folders[before[i]].0).len() > 0 by {
            assert(before[i] == ids[i]);
        }
        assert forall|i: int, j: int|
            #![trigger before[i], before[j]]
            0 <= i && j == i + 1 && j < before.len() implies folders[before[j]].1 == before[i] by {
            assert(before[i] == ids[i] && before[j] == ids[j]);
        }
        law_path(folders, before, guard + 1);
        assert(names.drop_last() =~= Seq::new(
            before.len(),
            |i: int| hfs_sanitized(folders[before[i]].0),
        ));
        assert(names.last() == hfs_sanitized(folders[last].0));
    } else {
        assert(ids[0] == last);
        assert(path_of(folders, 2, guard + 1) =~= Seq::empty());
        assert(names.last() == hfs_sanitized(folders[last].0));
    }
}

/// Names with a slash between each two.
pub open spec fn with_slashes(names: Seq<Seq<char>>) -> Seq<char>
    decreases names.len(),
{
    if names.len() == 0 {
        Seq::empty()
    } else if names.len() == 1 {
        names[0]
    } else {
        with_slashes(names.drop_last()) + seq!['/'] + names.last()
    }
}

impl Volume {
    proof fn lemma_fork(
        &self,
        src: Source,
        extents: Seq<(u32, u32)>,
        e: int,
        b: int,
        want: int,
        buf: Seq<u8>,
    )
        requires
            src.intact(),
            0 <= e <= extents.len(),
            self.block_size > 0,
            e < extents.len() ==> 0 <= b <= extents[e].1,
            e == extents.len() ==> b == 0,
            want <= Self::blocks_before(extents, extents.len() as int) * self.block_size,
            buf.len() == (Self::blocks_before(extents, e) + b) * self.block_size,
            self.is_from(src, extents, buf),
            forall|k: int|
                0 <= k < extents.len() ==> self.offset + ((#[trigger] extents[k]).0 + extents[k].1)
                    * self.block_size <= src@.len(),
        ensures
            self.fork_from(src, extents, e, b, want, buf) matches Some(r) && self.is_from(src, extents, r)
                && r.len() >= want,
        decreases extents.len() - e, if e < extents.len() {
            extents[e].1 - b
        } else {
            0
        },
    {
        let u = self.block_size as int;
        if e < extents.len() {
            let before = Self::blocks_before(extents, e);
            if b >= extents[e].1 {
                self.lemma_fork(src, extents, e + 1, 0, want, buf);
            } else if buf.len() < want {
                let at = self.offset + (extents[e].0 + b) * u;
                assert((extents[e].0 + b) * u + u <= (extents[e].0 + extents[e].1) * u && (extents[e].0 + b)
                    * u >= 0) by (nonlinear_arith)
                    requires
                        b + 1 <= extents[e].1,
                        0 <= b,
                        u > 0,
                ;
                let d = src@.subrange(at, at + u);
                assert(window(src@, at, u) =~= d);
                assert(src.fetch(at, u) == Some(d)) by {
                    assert(!src.faulty(at, u));
                }
                let next = buf + d;
                assert((before + b + 1) * u == (before + b) * u + u) by (nonlinear_arith);
                assert((before + b) * u == before * u + b * u) by (nonlinear_arith);
                assert((extents[e].0 + b) * u == extents[e].0 * u + b * u) by (nonlinear_arith);
                assert((before + extents[e].1) * u >= (before + b + 1) * u) by (nonlinear_arith)
                    requires
                        b + 1 <= extents[e].1,
                        u > 0,
                ;
                assert(b * u >= 0) by (nonlinear_arith)
                    requires
                        b >= 0,
                        u > 0,
                ;
                assert forall|q: int, j: int|
                    #![trigger next[q], extents[j]]
                    0 <= q && 0 <= j < extents.len() && Self::blocks_before(extents, j) * self.block_size <= q
                        < next.len() && q < Self::blocks_before(extents, j + 1) * self.block_size implies next[q]
                    == src@[self.offset + extents[j].0 * self.block_size + (q - Self::blocks_before(
                    extents,
                    j,
                ) * self.block_size)] by {
                    if q < buf.len() {
                        assert(next[q] == buf[q]);
                    } else {
                        if j < e {
                            self.lemma_extents_apart(extents, j + 1, e);
                        } else if j > e {
                            self.lemma_extents_apart(extents, e + 1, j);
                        }
                        assert(j == e);
                        assert(next[q] == src@[at + (q - buf.len())]);
                    }
                }
                self.lemma_fork(src, extents, e, b + 1, want, next);
            }
        }
    }

    proof fn lemma_extents_apart(&self, extents: Seq<(u32, u32)>, j: int, k: int)
        requires
            0 <= j <= k,
        ensures
            Self::blocks_before(extents, j) * self.block_size <= Self::blocks_before(extents, k)
                * self.block_size,
        decreases k,
    {
        if j < k {
            self.lemma_extents_apart(extents, j, k - 1);
            let a = Self::blocks_before(extents, k - 1);
            let n = extents[k - 1].1;
            assert((a + n) * self.block_size >= a * self.block_size) by (nonlinear_arith)
                requires
                    n >= 0,
            ;
        }
    }

    proof fn lemma_same_blocks(extents: Seq<(u32, u32)>, n: int)
        ensures
            Self::blocks_in(extents, n) == Self::blocks_before(extents, n),
        decreases n,
    {
        if n > 0 {
            Self::lemma_same_blocks(extents, n - 1);
        }
    }

    /// What is read of a fork comes from its extents, one after another: its size where it has one, otherwise all of them,
    /// and no more than `cap`.
    pub proof fn law_fork(&self, src: Source, extents: Seq<(u32, u32)>, size: int, cap: int, all: int)
        requires
            src.intact(),
            self.block_size > 0,
            0 <= size,
            0 <= cap,
            all == Self::blocks_before(extents, extents.len() as int) * self.block_size,
            forall|k: int|
                0 <= k < extents.len() ==> self.offset + ((#[trigger] extents[k]).0 + extents[k].1)
                    * self.block_size <= src@.len(),
        ensures
            self.fork(src, extents, size, cap) matches Some(c) && self.is_from(src, extents, c) && {
                &&& c.len() <= cap
                &&& c.len() <= all
                &&& size > 0 ==> c.len() <= size
                &&& c.len() == cap || c.len() == all || size > 0 && c.len() == size
            },
    {
        Self::lemma_same_blocks(extents, extents.len() as int);
        self.lemma_extents_apart(extents, 0, extents.len() as int);
        assert(0 * self.block_size == 0) by (nonlinear_arith);
        let want = self.fork_len(extents, size, cap);
        self.lemma_fork(src, extents, 0, 0, want, Seq::empty());
        let buf = self.fork_from(src, extents, 0, 0, want, Seq::empty())->Some_0;
        let c = buf.take(want);
        assert forall|q: int, j: int|
            #![trigger c[q], extents[j]]
            0 <= q && 0 <= j < extents.len() && Self::blocks_before(extents, j) * self.block_size <= q < c.len()
                && q < Self::blocks_before(extents, j + 1) * self.block_size implies c[q] == src@[self.offset
            + extents[j].0 * self.block_size + (q - Self::blocks_before(extents, j) * self.block_size)] by {
            assert(c[q] == buf[q]);
        }
    }

    /// A block is free exactly where its bit is clear, the most significant bit of each byte being that of the first of
    /// eight blocks.
    pub proof fn law_bitmap(bitmap: Seq<u8>, b: int)
        requires
            0 <= b,
            b / 8 < bitmap.len(),
        ensures
            b % 8 == 0 ==> Self::is_free(bitmap, b) == (bitmap[b / 8] / 128 % 2 == 0),
            b % 8 == 1 ==> Self::is_free(bitmap, b) == (bitmap[b / 8] / 64 % 2 == 0),
            b % 8 == 2 ==> Self::is_free(bitmap, b) == (bitmap[b / 8] / 32 % 2 == 0),
            b % 8 == 3 ==> Self::is_free(bitmap, b) == (bitmap[b / 8] / 16 % 2 == 0),
            b % 8 == 4 ==> Self::is_free(bitmap, b) == (bitmap[b / 8] / 8 % 2 == 0),
            b % 8 == 5 ==> Self::is_free(bitmap, b) == (bitmap[b / 8] / 4 % 2 == 0),
            b % 8 == 6 ==> Self::is_free(bitmap, b) == (bitmap[b / 8] / 2 % 2 == 0),
            b % 8 == 7 ==> Self::is_free(bitmap, b) == (bitmap[b / 8] % 2 == 0),
    {
        crate::basics::law_bits(bitmap[b / 8]);
    }
}

} // verus!
