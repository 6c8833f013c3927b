//! What holds of the records of every node, and of the content of every file.

use crate::bytes::smaller;
use crate::hfsplus::records::{entry_of, folder_at, is_plausible_leaf, offsets_from, FileView};
use crate::hfsplus::undelete::{
    chained, has_as_new, has_file, more_extents, node_of, run_slot, runs_of, Journaled, Live,
};
use crate::hfsplus::{extents_from, Volume};
use crate::source::{window, Source};
use vstd::prelude::*;

verus! {

/// The number of records that a node says it has.
pub open spec fn record_count(node: Seq<u8>) -> int {
    0x100 * node[10] + node[11]
}

/// Where the `i`-th record of a node is: the node ends with two bytes for the first, and those for each of the others
/// stand before them.
pub open spec fn record_place(node: Seq<u8>, size: int, i: int) -> int {
    0x100 * node[size - 2 - 2 * i] + node[size - 1 - 2 * i]
}

proof fn lemma_offsets(node: Seq<u8>, size: int, i: int)
    requires
        14 <= size <= node.len(),
        0 <= i,
        2 * record_count(node) <= size,
    ensures
        forall|k: int|
            i <= k < record_count(node) && 14 <= #[trigger] record_place(node, size, k) < size
                ==> offsets_from(node, size, i).contains(record_place(node, size, k)),
        forall|x: int| #[trigger]
            offsets_from(node, size, i).contains(x) ==> 14 <= x < size && exists|k: int|
                i <= k < record_count(node) && #[trigger] record_place(node, size, k) == x,
        (forall|k: int|
            i <= k < record_count(node) ==> 14 <= #[trigger] record_place(node, size, k) < size) ==> {
            &&& offsets_from(node, size, i).len() == if i < record_count(node) {
                record_count(node) - i
            } else {
                0
            }
            &&& forall|k: int|
                i <= k < record_count(node) ==> #[trigger] offsets_from(node, size, i)[k - i]
                    == record_place(node, size, k)
        },
    decreases record_count(node) - i,
{
    let all = offsets_from(node, size, i);
    if i < record_count(node) {
        lemma_offsets(node, size, i + 1);
        let rest = offsets_from(node, size, i + 1);
        let off = record_place(node, size, i);
        let head = if 14 <= off < size {
            seq![off]
        } else {
            Seq::<int>::empty()
        };
        assert(all == head + rest);
        assert forall|x: int| #[trigger] all.contains(x) == (head.contains(x) || rest.contains(x)) by {
            if head.contains(x) {
                assert(all[0] == x);
            }
            if rest.contains(x) {
                let k = choose|k: int| 0 <= k < rest.len() && rest[k] == x;
                assert(all[head.len() + k] == x);
            }
            if all.contains(x) {
                let k = choose|k: int| 0 <= k < all.len() && all[k] == x;
                if k < head.len() {
                    assert(head[k] == x);
                } else {
                    assert(rest[k - head.len()] == x);
                }
            }
        }
        assert(14 <= off < size ==> head[0] == off);
        if forall|k: int|
            i <= k < record_count(node) ==> 14 <= #[trigger] record_place(node, size, k) < size {
            assert(head =~= seq![off]);
            assert forall|k: int| i <= k < record_count(node) implies #[trigger] all[k - i] == record_place(
                node,
                size,
                k,
            ) by {
                if k > i {
                    assert(all[k - i] == rest[k - (i + 1)]);
                }
            }
        }
    }
}

/// The records of a node are where the entries of the array at its end say, each entry in turn from the end on: where
/// all of them can be, there are as many as the node says it has, and the `i`-th is where the `i`-th entry says.
/// Otherwise those that can be are all there, and nothing else is.
pub proof fn law_records_are_where_the_node_says(node: Seq<u8>, size: int)
    requires
        14 <= size <= node.len(),
        2 * record_count(node) <= size,
    ensures
        (forall|k: int|
            0 <= k < record_count(node) ==> 14 <= #[trigger] record_place(node, size, k) < size)
            ==> offsets_from(node, size, 0) == Seq::new(
            record_count(node) as nat,
            |k: int| record_place(node, size, k),
        ),
        forall|x: int|
            offsets_from(node, size, 0).contains(x) <==> 14 <= x < size && exists|k: int|
                0 <= k < record_count(node) && #[trigger] record_place(node, size, k) == x,
{
    lemma_offsets(node, size, 0);
    let all = offsets_from(node, size, 0);
    if forall|k: int|
        0 <= k < record_count(node) ==> 14 <= #[trigger] record_place(node, size, k) < size {
        let want = Seq::new(record_count(node) as nat, |k: int| record_place(node, size, k));
        assert forall|k: int| 0 <= k < want.len() implies all[k] == want[k] by {
            assert(all[k - 0] == record_place(node, size, k));
        }
        assert(all =~= want);
    }
}

/// The records of a plausible leaf are in different places, the later the further on, and there are as many as the node
/// says it has.
pub proof fn law_leaf_records_differ(node: Seq<u8>, size: int)
    requires
        512 <= size,
        is_plausible_leaf(node, size),
    ensures
        offsets_from(node, size, 0) == Seq::new(
            record_count(node) as nat,
            |k: int| record_place(node, size, k),
        ),
        forall|i: int, j: int|
            0 <= i < j < record_count(node) ==> (#[trigger] record_place(node, size, i)) < (
            #[trigger] record_place(node, size, j)),
        record_place(node, size, 0) == 14,
        1 <= record_count(node) <= size / 24,
{
    let n = record_count(node);
    assert forall|k: int| 0 <= k < n implies #[trigger] rises(node, size, k) by {
        lemma_rises(node, size, k);
    }
    lemma_rises(node, size, 0);
    assert forall|i: int, j: int| 0 <= i < j < n implies (#[trigger] record_place(node, size, i)) < (
    #[trigger] record_place(node, size, j)) by {
        lemma_places_rise(node, size, i, j);
    }
    assert forall|k: int| 0 <= k < n implies 14 <= #[trigger] record_place(node, size, k) < size by {
        lemma_rises(node, size, k);
        if k > 0 {
            lemma_places_rise(node, size, 0, k);
        }
    }
    law_records_are_where_the_node_says(node, size);
}

/// The record behind the `i`-th is further on.
spec fn rises(node: Seq<u8>, size: int, i: int) -> bool {
    record_place(node, size, i) < record_place(node, size, i + 1)
}

proof fn lemma_rises(node: Seq<u8>, size: int, i: int)
    requires
        512 <= size,
        is_plausible_leaf(node, size),
        0 <= i < record_count(node),
    ensures
        rises(node, size, i),
        record_place(node, size, i) <= size - 2 * (record_count(node) + 1),
        entry_of(node, size, i) == record_place(node, size, i),
{
    assert(entry_of(node, size, i) < entry_of(node, size, i + 1));
    assert(entry_of(node, size, i) <= size - 2 * (record_count(node) + 1));
}

proof fn lemma_places_rise(node: Seq<u8>, size: int, i: int, j: int)
    requires
        forall|k: int| i <= k < j ==> #[trigger] rises(node, size, k),
        i < j,
    ensures
        record_place(node, size, i) < record_place(node, size, j),
    decreases j - i,
{
    assert(rises(node, size, j - 1));
    if i < j - 1 {
        lemma_places_rise(node, size, i, j - 1);
    }
}

impl Volume {
    /// Every record of every node of a journal is looked at: whichever plausible leaf on a 512-byte boundary, and
    /// whichever of its records, a file that it gives is live, or known, or in what the journal gives, by that record or
    /// by one that is no older.
    pub proof fn law_every_journaled_record_counts(
        &self,
        journal: Seq<u8>,
        size: int,
        live: Set<u32>,
        seen: Set<u32>,
        st: Journaled,
        m: nat,
        i: int,
        f: FileView,
    )
        requires
            512 <= size,
            512 * m + size <= journal.len(),
            is_plausible_leaf(journal.subrange(512 * m as int, 512 * m + size), size),
            0 <= i < record_count(journal.subrange(512 * m as int, 512 * m + size)),
            self.file_in(
                journal.subrange(512 * m as int, 512 * m + size),
                record_place(journal.subrange(512 * m as int, 512 * m + size), size, i),
            ) == Some(f),
            !live.contains(f.file_id),
            !seen.contains(f.file_id),
        ensures
            has_as_new(self.journaled_from(journal, size, 0, live, seen, st).newest, f),
    {
        let node = journal.subrange(512 * m as int, 512 * m + size);
        law_leaf_records_differ(node, size);
        self.law_newest_is_kept(journal, size, 0, live, seen, st, m, i);
        assert(offsets_from(node, size, 0)[i] == record_place(node, size, i));
    }

    proof fn lemma_live_in_node(&self, node: Seq<u8>, offsets: Seq<int>, n: int, live: Live, k: int)
        requires
            0 <= n <= offsets.len(),
        ensures
            live.files.subset_of(self.live_in_node(node, offsets, n, live).files),
            live.folders.dom().subset_of(self.live_in_node(node, offsets, n, live).folders.dom()),
            0 <= k < n ==> {
                let after = self.live_in_node(node, offsets, n, live);
                match self.file_in(node, offsets[k]) {
                    Some(f) => after.files.contains(f.file_id),
                    None => folder_at(node, offsets[k]) matches Some(x) ==> after.folders.contains_key(x.0),
                }
            },
        decreases n,
    {
        if n > 0 {
            self.lemma_live_in_node(node, offsets, n - 1, live, k);
        }
    }

    /// Every record of every leaf of the catalog is looked at: the files and the folders that its records give are live.
    pub proof fn law_every_live_record_counts(&self, tree: Seq<u8>, size: int, n: int, m: int, x: int)
        requires
            512 <= size,
            0 <= m < n,
            n * size <= tree.len(),
            node_of(tree, size, m).len() > 8 && node_of(tree, size, m)[8] == 0xFF,
            2 * record_count(node_of(tree, size, m)) <= size,
            14 <= x < size,
            exists|i: int|
                0 <= i < record_count(node_of(tree, size, m)) && #[trigger] record_place(
                    node_of(tree, size, m),
                    size,
                    i,
                ) == x,
        ensures
            match self.file_in(node_of(tree, size, m), x) {
                Some(f) => self.live_in(tree, size, n).files.contains(f.file_id),
                None => folder_at(node_of(tree, size, m), x) matches Some(d) ==> self.live_in(
                    tree,
                    size,
                    n,
                ).folders.contains_key(d.0),
            },
        decreases n,
    {
        let node = node_of(tree, size, n - 1);
        let before = self.live_in(tree, size, n - 1);
        let offsets = offsets_from(node, size, 0);
        assert((n - 1) * size == n * size - size) by (nonlinear_arith);
        assert((m + 1) * size <= n * size && m * size >= 0 && (m + 1) * size == m * size + size) by (
        nonlinear_arith)
            requires
                0 <= m < n,
                size > 0,
        ;
        if m == n - 1 {
            law_records_are_where_the_node_says(node, size);
            assert(offsets.contains(x));
            let k = choose|k: int| 0 <= k < offsets.len() && offsets[k] == x;
            self.lemma_live_in_node(node, offsets, offsets.len() as int, before, k);
        } else {
            self.law_every_live_record_counts(tree, size, n - 1, m, x);
            self.lemma_live_in_node(node, offsets, offsets.len() as int, before, 0);
        }
    }

    /// The candidates of the free space of a node: whatever file record stands at an even distance from where it begins
    /// is among them, by its own or by an earlier record, unless the file is live.
    pub proof fn law_free_space_is_searched(
        &self,
        node: Seq<u8>,
        off: int,
        end: int,
        live: Set<u32>,
        found: Seq<FileView>,
        k: int,
        f: FileView,
    )
        requires
            0 <= k,
            off + 2 * k + 2 <= end,
            self.file_in(node, off + 2 * k) == Some(f),
            !live.contains(f.file_id),
        ensures
            has_file(self.stale_from(node, off, end, live, found), f.file_id),
        decreases k,
    {
        let next = match self.file_in(node, off) {
            Some(g) => if live.contains(g.file_id) || has_file(found, g.file_id) {
                found
            } else {
                found.push(g)
            },
            None => found,
        };
        if k > 0 {
            self.law_free_space_is_searched(node, off + 2, end, live, next, k - 1, f);
        } else {
            if !has_file(found, f.file_id) {
                assert(next[found.len() as int] == f);
            }
            assert(has_file(next, f.file_id));
            self.lemma_found_stay(node, off + 2, end, live, next, f.file_id);
        }
    }

    proof fn lemma_found_stay(
        &self,
        node: Seq<u8>,
        off: int,
        end: int,
        live: Set<u32>,
        found: Seq<FileView>,
        id: u32,
    )
        requires
            has_file(found, id),
        ensures
            has_file(self.stale_from(node, off, end, live, found), id),
        decreases end - off,
    {
        if off + 2 <= end {
            let next = match self.file_in(node, off) {
                Some(g) => if live.contains(g.file_id) || has_file(found, g.file_id) {
                    found
                } else {
                    found.push(g)
                },
                None => found,
            };
            let i = choose|i: int| 0 <= i < found.len() && (#[trigger] found[i]).file_id == id;
            assert(next[i].file_id == id);
            self.lemma_found_stay(node, off + 2, end, live, next, id);
        }
    }

    /// The number of blocks of the extents before the `k`-th.
    pub open spec fn blocks_before(extents: Seq<(u32, u32)>, k: int) -> int
        decreases k,
    {
        if k <= 0 {
            0
        } else {
            Self::blocks_before(extents, k - 1) + extents[k - 1].1
        }
    }

    /// Bytes are those of the extents, one after another: what as many bytes come before as the first `k` extents have
    /// is in the `k`-th, as far from its beginning.
    pub open spec fn is_from(&self, src: Source, extents: Seq<(u32, u32)>, c: Seq<u8>) -> bool {
        forall|q: int, k: int|
            #![trigger c[q], extents[k]]
            0 <= q && 0 <= k < extents.len() && Self::blocks_before(extents, k) * self.block_size <= q < c.len()
                && q < Self::blocks_before(extents, k + 1) * self.block_size ==> c[q] == src@[self.offset
                + extents[k].0 * self.block_size + (q - Self::blocks_before(extents, k)
                * self.block_size)]
    }

    proof fn lemma_blocks_rise(extents: Seq<(u32, u32)>, j: int, k: int)
        requires
            0 <= j <= k,
        ensures
            0 <= Self::blocks_before(extents, j) <= Self::blocks_before(extents, k),
        decreases k,
    {
        if j < k {
            Self::lemma_blocks_rise(extents, j, k - 1);
        } else if k > 0 {
            Self::lemma_blocks_rise(extents, k - 1, k - 1);
        }
    }

    /// Of two extents, the blocks of the first come before those of the second.
    proof fn lemma_places(&self, extents: Seq<(u32, u32)>, j: int, k: int)
        requires
            0 <= j <= k,
        ensures
            0 <= Self::blocks_before(extents, j) * self.block_size <= Self::blocks_before(extents, k)
                * self.block_size,
    {
        Self::lemma_blocks_rise(extents, j, k);
        let a = Self::blocks_before(extents, j);
        let b = Self::blocks_before(extents, k);
        let u = self.block_size as int;
        assert(0 <= a * u <= b * u) by (nonlinear_arith)
            requires
                0 <= a <= b,
                u >= 0,
        ;
    }

    proof fn lemma_one_more_extent(
        &self,
        src: Source,
        extents: Seq<(u32, u32)>,
        k: int,
        take: int,
        c: Seq<u8>,
    )
        requires
            0 <= k < extents.len(),
            c.len() == Self::blocks_before(extents, k) * self.block_size,
            self.is_from(src, extents, c),
            0 <= take <= extents[k].1 * self.block_size,
            self.offset + extents[k].0 * self.block_size + take <= src@.len(),
        ensures
            ({
                let at = self.offset + extents[k].0 * self.block_size;
                self.is_from(src, extents, c + src@.subrange(at, at + take))
            }),
            Self::blocks_before(extents, k + 1) * self.block_size == Self::blocks_before(extents, k)
                * self.block_size + extents[k].1 * self.block_size,
    {
        let u = self.block_size as int;
        let at = self.offset + extents[k].0 * self.block_size;
        let before = Self::blocks_before(extents, k);
        assert((before + extents[k].1) * u == before * u + extents[k].1 * u) by (nonlinear_arith);
        assert(extents[k].0 * self.block_size >= 0) by (nonlinear_arith);
        let more = c + src@.subrange(at, at + take);
        assert forall|q: int, j: int|
            #![trigger more[q], extents[j]]
            0 <= q && 0 <= j < extents.len() && Self::blocks_before(extents, j) * self.block_size <= q < more.len()
                && q < Self::blocks_before(extents, j + 1) * self.block_size implies more[q] == src@[self.offset
            + extents[j].0 * self.block_size + (q - Self::blocks_before(extents, j) * self.block_size)] by {
            self.lemma_places(extents, 0, j);
            if q < c.len() {
                assert(more[q] == c[q]);
            } else {
                if j < k {
                    self.lemma_places(extents, j + 1, k);
                } else if j > k {
                    self.lemma_places(extents, k + 1, j);
                }
                assert(j == k);
                assert(more[q] == src@[at + (q - c.len())]);
            }
        }
    }

    proof fn lemma_content_in_extents(
        &self,
        src: Source,
        extents: Seq<(u32, u32)>,
        k: int,
        left: int,
        data: Seq<u8>,
    )
        requires
            0 <= k,
            left > 0 ==> data.len() == Self::blocks_before(extents, k) * self.block_size,
            self.is_from(src, extents, data),
        ensures
            self.content_from(src, extents, k, left, data) matches Some(c) ==> self.is_from(
                src,
                extents,
                c,
            ),
        decreases extents.len() - k,
    {
        if left > 0 && k < extents.len() {
            let take = smaller(extents[k].1 * self.block_size, left);
            let at = self.offset + extents[k].0 * self.block_size;
            assert(extents[k].0 * self.block_size >= 0 && extents[k].1 * self.block_size >= 0) by (
            nonlinear_arith);
            if let Some(d) = src.fetch(at, take) {
                if d.len() >= take {
                    if take > 0 {
                        assert(d =~= src@.subrange(at, at + take));
                        self.lemma_one_more_extent(src, extents, k, take, data);
                    } else {
                        assert(data + d =~= data);
                        let before = Self::blocks_before(extents, k);
                        assert((before + extents[k].1) * self.block_size == before * self.block_size
                            + extents[k].1 * self.block_size) by (nonlinear_arith);
                    }
                    self.lemma_content_in_extents(src, extents, k + 1, left - take, data + d);
                }
            }
        }
    }

    /// What is read of a file is as long as its record says, and comes from the extents of its record and then from those
    /// of the extents-overflow tree, one after another.
    pub proof fn law_content_is_in_the_extents(
        &self,
        src: Source,
        runs: Seq<(u32, u32, Seq<(u32, u32)>)>,
        f: FileView,
        c: Seq<u8>,
    )
        requires
            self.content(src, runs, f) == Some(c),
        ensures
            c.len() == f.logical_size,
            self.is_from(src, f.extents + more_extents(runs, f.file_id), c),
    {
        self.law_content_is_whole(src, runs, f);
        assert(0 * self.block_size == 0) by (nonlinear_arith);
        self.lemma_content_in_extents(
            src,
            f.extents + more_extents(runs, f.file_id),
            0,
            f.logical_size as int,
            Seq::empty(),
        );
    }

    /// A file whose extents cover it and are in the image, all of which could be read, is read.
    pub proof fn law_covered_file_is_read(
        &self,
        src: Source,
        runs: Seq<(u32, u32, Seq<(u32, u32)>)>,
        f: FileView,
    )
        requires
            src.intact(),
            ({
                let all = f.extents + more_extents(runs, f.file_id);
                &&& f.logical_size <= Self::blocks_before(all, all.len() as int) * self.block_size
                &&& forall|k: int|
                    0 <= k < all.len() ==> self.offset + (#[trigger] all[k]).0 * self.block_size + all[k].1
                        * self.block_size <= src@.len()
            }),
        ensures
            self.content(src, runs, f) is Some,
    {
        let all = f.extents + more_extents(runs, f.file_id);
        assert(0 * self.block_size == 0) by (nonlinear_arith);
        self.lemma_covered(src, all, 0, f.logical_size as int, Seq::empty());
    }

    proof fn lemma_covered(
        &self,
        src: Source,
        extents: Seq<(u32, u32)>,
        k: int,
        left: int,
        data: Seq<u8>,
    )
        requires
            src.intact(),
            0 <= k <= extents.len(),
            left <= (Self::blocks_before(extents, extents.len() as int) - Self::blocks_before(
                extents,
                k,
            )) * self.block_size,
            forall|k: int|
                0 <= k < extents.len() ==> self.offset + (#[trigger] extents[k]).0 * self.block_size
                    + extents[k].1 * self.block_size <= src@.len(),
        ensures
            self.content_from(src, extents, k, left, data) is Some,
        decreases extents.len() - k,
    {
        let u = self.block_size as int;
        if k == extents.len() {
            assert(0 * u == 0) by (nonlinear_arith);
        } else if left > 0 {
            let n = extents[k].1 as int;
            let take = smaller(n * u, left);
            let at = self.offset + extents[k].0 * self.block_size;
            assert(extents[k].0 * self.block_size >= 0 && n * u >= 0) by (nonlinear_arith)
                requires
                    n >= 0,
                    u >= 0,
            ;
            assert(at + take <= src@.len());
            let d = window(src@, at, take);
            assert(src.fetch(at, take) == Some(d));
            let rest = Self::blocks_before(extents, extents.len() as int) - Self::blocks_before(
                extents,
                k,
            );
            assert((rest - n) * u == rest * u - n * u) by (nonlinear_arith);
            Self::lemma_blocks_rise(extents, k + 1, extents.len() as int);
            assert((rest - n) * u >= 0) by (nonlinear_arith)
                requires
                    rest >= n,
                    u >= 0,
            ;
            self.lemma_covered(src, extents, k + 1, left - take, data + d);
        }
    }
}

proof fn lemma_run_slot(runs: Seq<(u32, Seq<(u32, u32)>)>, start: u32, k: int)
    requires
        0 <= k <= runs.len(),
    ensures
        k <= run_slot(runs, start, k) <= runs.len(),
        forall|i: int| k <= i < run_slot(runs, start, k) ==> (#[trigger] runs[i]).0 <= start,
        run_slot(runs, start, k) < runs.len() ==> runs[run_slot(runs, start, k)].0 >= start,
    decreases runs.len() - k,
{
    if k < runs.len() {
        lemma_run_slot(runs, start, k + 1);
    }
}

/// One of the first `n` runs is that of a file, and says `x`.
pub open spec fn is_run_of(runs: Seq<(u32, u32, Seq<(u32, u32)>)>, id: u32, n: int, x: (u32, Seq<(u32, u32)>)) -> bool {
    exists|k: int| 0 <= k < n && #[trigger] runs[k] == (id, x.0, x.1)
}

/// The runs are in the order of the blocks of the file that they begin with.
pub open spec fn starts_rise(runs: Seq<(u32, Seq<(u32, u32)>)>) -> bool {
    forall|i: int, j: int| 0 <= i < j < runs.len() ==> (#[trigger] runs[i]).0 <= (#[trigger] runs[j]).0
}

proof fn lemma_insert_run(a: Seq<(u32, Seq<(u32, u32)>)>, y: (u32, Seq<(u32, u32)>))
    requires
        starts_rise(a),
    ensures
        starts_rise(a.insert(run_slot(a, y.0, 0), y)),
        forall|x: (u32, Seq<(u32, u32)>)| #[trigger]
            a.insert(run_slot(a, y.0, 0), y).contains(x) == (x == y || a.contains(x)),
{
    let s = run_slot(a, y.0, 0);
    lemma_run_slot(a, y.0, 0);
    let b = a.insert(s, y);
    assert(b[s] == y);
    assert forall|x: (u32, Seq<(u32, u32)>)| #[trigger] b.contains(x) == (x == y || a.contains(x)) by {
        if b.contains(x) && x != y {
            let i = choose|i: int| 0 <= i < b.len() && b[i] == x;
            if i < s {
                assert(a[i] == x);
            } else {
                assert(a[i - 1] == x);
            }
        }
        if a.contains(x) {
            let i = choose|i: int| 0 <= i < a.len() && a[i] == x;
            if i < s {
                assert(b[i] == x);
            } else {
                assert(b[i + 1] == x);
            }
        }
    }
}

/// The runs of extents that the extents-overflow tree has for a file are taken in the order of the blocks of the file
/// that they begin with, wherever in the tree they stand; all of them are taken, and no others.
pub proof fn law_runs_in_order(runs: Seq<(u32, u32, Seq<(u32, u32)>)>, id: u32, n: int)
    requires
        0 <= n <= runs.len(),
    ensures
        starts_rise(runs_of(runs, id, n)),
        forall|x: (u32, Seq<(u32, u32)>)| #[trigger]
            runs_of(runs, id, n).contains(x) == is_run_of(runs, id, n, x),
    decreases n,
{
    if n > 0 {
        law_runs_in_order(runs, id, n - 1);
        let before = runs_of(runs, id, n - 1);
        let r = runs[n - 1];
        if r.0 == id {
            lemma_insert_run(before, (r.1, r.2));
        }
        assert forall|x: (u32, Seq<(u32, u32)>)| #[trigger] runs_of(runs, id, n).contains(x) == is_run_of(
            runs,
            id,
            n,
            x,
        ) by {
            assert(before.contains(x) == is_run_of(runs, id, n - 1, x));
            if is_run_of(runs, id, n - 1, x) {
                let k = choose|k: int| 0 <= k < n - 1 && #[trigger] runs[k] == (id, x.0, x.1);
                assert(runs[k] == (id, x.0, x.1));
            }
            if is_run_of(runs, id, n, x) {
                let k = choose|k: int| 0 <= k < n && #[trigger] runs[k] == (id, x.0, x.1);
                if k < n - 1 {
                    assert(is_run_of(runs, id, n - 1, x));
                }
            }
            if r.0 == id && x == (r.1, r.2) {
                assert(runs[n - 1] == (id, x.0, x.1));
            }
        }
    }
}

/// The extents of runs stand one after another, each run's together.
pub proof fn law_runs_are_joined(runs: Seq<(u32, Seq<(u32, u32)>)>, n: int)
    requires
        0 < n <= runs.len(),
    ensures
        chained(runs, n).len() == chained(runs, n - 1).len() + runs[n - 1].1.len(),
        chained(runs, n).take(chained(runs, n - 1).len() as int) == chained(runs, n - 1),
        chained(runs, n).skip(chained(runs, n - 1).len() as int) == runs[n - 1].1,
{
    let a = chained(runs, n - 1);
    assert(chained(runs, n).take(a.len() as int) =~= a);
    assert(chained(runs, n).skip(a.len() as int) =~= runs[n - 1].1);
}

/// The extents in a record are the eight that it has room for, in their order, up to the first without blocks: each is
/// four bytes for where it begins and four for how many blocks it has, the most significant first.
pub proof fn law_extents_as_recorded(h: Seq<u8>, at: int, total: int, n: int, v: Seq<(u32, u32)>)
    requires
        0 <= at,
        at + 64 <= h.len(),
        0 <= n <= 8,
        v.len() == n,
        forall|i: int|
            0 <= i < n ==> {
                let p = at + 8 * i;
                &&& (#[trigger] v[i]).0 == 0x100_0000 * h[p] + 0x1_0000 * h[p + 1] + 0x100 * h[p + 2]
                    + h[p + 3]
                &&& v[i].1 == 0x100_0000 * h[p + 4] + 0x1_0000 * h[p + 5] + 0x100 * h[p + 6] + h[p + 7]
                &&& v[i].1 > 0
                &&& v[i].0 + v[i].1 <= total
            },
        n < 8 ==> h[at + 8 * n + 4] == 0 && h[at + 8 * n + 5] == 0 && h[at + 8 * n + 6] == 0 && h[at
            + 8 * n + 7] == 0,
    ensures
        extents_from(h, at, 0, total) == Some(v),
{
    lemma_extents_as_recorded(h, at, total, n, v, 0);
    assert(v.skip(0) =~= v);
}

proof fn lemma_extents_as_recorded(h: Seq<u8>, at: int, total: int, n: int, v: Seq<(u32, u32)>, i: int)
    requires
        0 <= at,
        at + 64 <= h.len(),
        0 <= i <= n <= 8,
        v.len() == n,
        forall|i: int|
            0 <= i < n ==> {
                let p = at + 8 * i;
                &&& (#[trigger] v[i]).0 == 0x100_0000 * h[p] + 0x1_0000 * h[p + 1] + 0x100 * h[p + 2]
                    + h[p + 3]
                &&& v[i].1 == 0x100_0000 * h[p + 4] + 0x1_0000 * h[p + 5] + 0x100 * h[p + 6] + h[p + 7]
                &&& v[i].1 > 0
                &&& v[i].0 + v[i].1 <= total
            },
        n < 8 ==> h[at + 8 * n + 4] == 0 && h[at + 8 * n + 5] == 0 && h[at + 8 * n + 6] == 0 && h[at
            + 8 * n + 7] == 0,
    ensures
        extents_from(h, at, i, total) == Some(v.skip(i)),
    decreases n - i,
{
    if i < n {
        lemma_extents_as_recorded(h, at, total, n, v, i + 1);
        assert(v[i].1 > 0);
        assert(seq![v[i]] + v.skip(i + 1) =~= v.skip(i));
    } else {
        assert(v.skip(i) =~= Seq::<(u32, u32)>::empty());
    }
}

} // verus!
