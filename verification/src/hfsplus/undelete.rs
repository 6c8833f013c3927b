//! The scan for deleted files, and their recovery.

use crate::bytes::{capped, larger, min_u64, smaller};
use crate::hfsplus::records::{
    extent_record_at, file_at, file_views, folder_at, free_range, free_space, hfs_component,
    hfs_sanitized, is_leaf, is_plausible_leaf, live_record_offsets, looks_like_leaf_node,
    node_is_leaf, node_size, node_size_in, offsets_from, parse_extent_record, parse_file_record,
    parse_folder_record, path_of, positions, FileRecord, FileView, Folders,
};
use crate::hfsplus::{are_extents, Volume, HFS_EPOCH_OFFSET, MAX_CATALOG};
use crate::recover::{
    join_path, joined, RecoverOptions, RecoverStats, RecoveredView, Recovery, VolumeError,
};
use crate::source::{window, Source};
use crate::times::{from_unix, set_time};
use std::collections::HashSet;
use vstd::prelude::*;

verus! {

broadcast use vstd::std_specs::hash::group_hash_axioms;

/// The Unix time of an HFS+ date, zero for one before.
pub open spec fn unix_seconds(date: u32) -> u32 {
    if date >= HFS_EPOCH_OFFSET {
        (date - HFS_EPOCH_OFFSET) as u32
    } else {
        0
    }
}

fn hfs_to_unix(date: u32) -> (r: u32)
    ensures
        r == unix_seconds(date),
{
    date.saturating_sub(HFS_EPOCH_OFFSET)
}

/// The `i`-th node of a tree.
pub open spec fn node_of(tree: Seq<u8>, size: int, i: int) -> Seq<u8> {
    tree.subrange(i * size, (i + 1) * size)
}

/// What is live: the CNIDs of files, and the folders by theirs.
#[verifier::ext_equal]
pub struct Live {
    pub files: Set<u32>,
    pub folders: Map<u32, (Seq<char>, u32)>,
}

/// A run of a file's extents in the extents-overflow tree.
pub struct OverflowRun {
    pub file_id: u32,
    pub start_block: u32,
    pub extents: Vec<(u32, u32)>,
}

/// What is said of runs of extents.
pub open spec fn run_views(v: Seq<OverflowRun>) -> Seq<(u32, u32, Seq<(u32, u32)>)> {
    v.map_values(|x: OverflowRun| (x.file_id, x.start_block, x.extents@))
}

impl Volume {
    /// The file record at `off`.
    pub open spec fn file_in(&self, node: Seq<u8>, off: int) -> Option<FileView> {
        file_at(
            node,
            off,
            self.total_blocks as int,
            capped(self.total_blocks * self.block_size),
        )
    }

    /// What is live after the first `n` records of a node.
    pub open spec fn live_in_node(&self, node: Seq<u8>, offsets: Seq<int>, n: int, live: Live) -> Live
        decreases n,
    {
        if n <= 0 {
            live
        } else {
            let before = self.live_in_node(node, offsets, n - 1, live);
            match self.file_in(node, offsets[n - 1]) {
                Some(f) => Live { files: before.files.insert(f.file_id), ..before },
                None => match folder_at(node, offsets[n - 1]) {
                    Some((cnid, name, parent)) => Live {
                        folders: before.folders.insert(cnid, (name, parent)),
                        ..before
                    },
                    None => before,
                },
            }
        }
    }

    /// What is live after the first `n` nodes of the catalog.
    pub open spec fn live_in(&self, tree: Seq<u8>, size: int, n: int) -> Live
        decreases n,
    {
        if n <= 0 {
            Live { files: Set::empty(), folders: Map::empty() }
        } else {
            let before = self.live_in(tree, size, n - 1);
            let node = node_of(tree, size, n - 1);
            if is_leaf(node) {
                let offsets = offsets_from(node, size, 0);
                self.live_in_node(node, offsets, offsets.len() as int, before)
            } else {
                before
            }
        }
    }

    /// The candidates that are found from `off` to the `end` of a node's free space, behind others: file
    /// records of files that are not live, each file once. Catalog structures are 2-byte aligned.
    pub open spec fn stale_from(
        &self,
        node: Seq<u8>,
        off: int,
        end: int,
        live: Set<u32>,
        found: Seq<FileView>,
    ) -> Seq<FileView>
        decreases end - off,
    {
        if off + 2 > end {
            found
        } else {
            let next = match self.file_in(node, off) {
                Some(f) => if live.contains(f.file_id) || has_file(found, f.file_id) {
                    found
                } else {
                    found.push(f)
                },
                None => found,
            };
            self.stale_from(node, off + 2, end, live, next)
        }
    }

    /// The candidates in the free space of the first `n` nodes of the catalog.
    pub open spec fn stale_in(&self, tree: Seq<u8>, size: int, n: int, live: Set<u32>) -> Seq<FileView>
        decreases n,
    {
        if n <= 0 {
            Seq::empty()
        } else {
            let before = self.stale_in(tree, size, n - 1, live);
            let node = node_of(tree, size, n - 1);
            if is_leaf(node) {
                let (start, end) = free_range(node, size);
                self.stale_from(node, start, end, live, before)
            } else {
                before
            }
        }
    }
}

/// A file is among others.
pub open spec fn has_file(list: Seq<FileView>, id: u32) -> bool {
    exists|i: int| 0 <= i < list.len() && (#[trigger] list[i]).file_id == id
}

impl Volume {
    /// Collect what is live in a node.
    fn take_live(
        &self,
        node: &[u8],
        node_size: usize,
        live: &mut HashSet<u32>,
        folders: &mut Folders,
    )
        requires
            self.wf(),
            512 <= node_size <= 32768,
        ensures
            (Live { files: final(live)@, folders: final(folders)@ }) == ({
                let offsets = offsets_from(node@, node_size as int, 0);
                self.live_in_node(
                    node@,
                    offsets,
                    offsets.len() as int,
                    Live { files: old(live)@, folders: old(folders)@ },
                )
            }),
    {
        let offsets = live_record_offsets(node, node_size);
        let ghost before = Live { files: live@, folders: folders@ };
        let ghost all = offsets_from(node@, node_size as int, 0);
        let mut i: usize = 0;
        while i < offsets.len()
            invariant
                self.wf(),
                512 <= node_size <= 32768,
                i <= offsets@.len(),
                all == positions(offsets@),
                forall|i: int| 0 <= i < offsets@.len() ==> 14 <= #[trigger] offsets@[i] < node_size,
                (Live { files: live@, folders: folders@ }) == self.live_in_node(
                    node@,
                    all,
                    i as int,
                    before,
                ),
            decreases offsets@.len() - i,
        {
            let off: usize = offsets[i];
            assert(all[i as int] == off);
            match parse_file_record(node, off, self) {
                Some(f) => {
                    live.insert(f.file_id);
                },
                None => {
                    if let Some(f) = parse_folder_record(node, off) {
                        folders.add(f.cnid, f.name, f.parent);
                    }
                },
            }
            i += 1;
        }
    }

    /// Collect the candidates in the free space of a node.
    fn take_stale(
        &self,
        node: &[u8],
        node_size: usize,
        live: &HashSet<u32>,
        seen: &mut HashSet<u32>,
        found: &mut Vec<FileRecord>,
    )
        requires
            self.wf(),
            512 <= node_size <= 32768,
            forall|id: u32| old(seen)@.contains(id) <==> has_file(file_views(old(found)@), id),
            self.are_readable(old(found)@),
        ensures
            file_views(final(found)@) == ({
                let (start, end) = free_range(node@, node_size as int);
                self.stale_from(node@, start, end, live@, file_views(old(found)@))
            }),
            forall|id: u32| final(seen)@.contains(id) <==> has_file(file_views(final(found)@), id),
            self.are_readable(final(found)@),
    {
        let (start, end) = free_space(node, node_size);
        let ghost all = self.stale_from(
            node@,
            start as int,
            end as int,
            live@,
            file_views(found@),
        );
        let mut off: usize = start;
        while off + 2 <= end
            invariant
                self.wf(),
                512 <= node_size <= 32768,
                end <= node_size,
                off <= node_size + 2,
                forall|id: u32| seen@.contains(id) <==> has_file(file_views(found@), id),
                self.are_readable(found@),
                all == self.stale_from(
                    node@,
                    off as int,
                    end as int,
                    live@,
                    file_views(found@),
                ),
            decreases node_size + 2 - off,
        {
            if let Some(f) = parse_file_record(node, off, self) {
                if !live.contains(&f.file_id) && !seen.contains(&f.file_id) {
                    seen.insert(f.file_id);
                    let ghost before = found@;
                    let ghost v = f@;
                    found.push(f);
                    proof {
                        let list = file_views(found@);
                        assert(list =~= file_views(before).push(v));
                        lemma_has_file(file_views(before), v);
                    }
                }
            }
            off = off + 2;
        }
    }

    /// The extents of file records lie in the volume.
    pub open spec fn are_readable(&self, v: Seq<FileRecord>) -> bool {
        forall|i: int|
            0 <= i < v.len() ==> are_extents((#[trigger] v[i]).extents@, self.total_blocks as int)
    }
}

/// One file more.
proof fn lemma_has_file(list: Seq<FileView>, f: FileView)
    ensures
        forall|id: u32| has_file(list.push(f), id) <==> has_file(list, id) || id == f.file_id,
{
    let next = list.push(f);
    assert forall|id: u32| has_file(next, id) <==> has_file(list, id) || id == f.file_id by {
        if has_file(list, id) {
            let i = choose|i: int| 0 <= i < list.len() && (#[trigger] list[i]).file_id == id;
            assert(next[i].file_id == id);
        }
        assert(next[list.len() as int] == f);
        if has_file(next, id) {
            let i = choose|i: int| 0 <= i < next.len() && (#[trigger] next[i]).file_id == id;
            if i < list.len() {
                assert(list[i].file_id == id);
            }
        }
    }
}

/// Where a file belongs, from the `k`-th on, among files in the order of their CNIDs.
pub open spec fn newest_slot(list: Seq<FileView>, id: u32, k: int) -> int
    decreases list.len() - k,
{
    if k >= list.len() || list[k].file_id >= id {
        k
    } else {
        newest_slot(list, id, k + 1)
    }
}

/// Files in the order of their CNIDs with one more, of which the newest record is kept, the later one where two
/// are equally new.
pub open spec fn with_newest(list: Seq<FileView>, f: FileView) -> Seq<FileView> {
    let k = newest_slot(list, f.file_id, 0);
    if k < list.len() && list[k].file_id == f.file_id {
        if f.mod_date >= list[k].mod_date {
            list.update(k, f)
        } else {
            list
        }
    } else {
        list.insert(k, f)
    }
}

/// Take up the newest record of a file.
fn add_newest(list: &mut Vec<FileRecord>, f: FileRecord)
    ensures
        file_views(final(list)@) == with_newest(file_views(old(list)@), f@),
        forall|i: int|
            0 <= i < final(list)@.len() ==> #[trigger] final(list)@[i] == f || exists|j: int|
                0 <= j < old(list)@.len() && final(list)@[i] == #[trigger] old(list)@[j],
{
    let ghost before = list@;
    let ghost views = file_views(list@);
    let mut k: usize = 0;
    while k < list.len() && list[k].file_id < f.file_id
        invariant
            k <= list.len(),
            list@ == before,
            views == file_views(list@),
            newest_slot(views, f.file_id, 0) == newest_slot(views, f.file_id, k as int),
        decreases list.len() - k,
    {
        k += 1;
    }
    if k < list.len() && list[k].file_id == f.file_id {
        if f.mod_date >= list[k].mod_date {
            let ghost v = f@;
            list.set(k, f);
            assert(file_views(list@) =~= views.update(k as int, v));
        }
    } else {
        let ghost v = f@;
        list.insert(k, f);
        assert(file_views(list@) =~= views.insert(k as int, v));
        assert forall|i: int| 0 <= i < list@.len() implies #[trigger] list@[i] == f || exists|j: int|
            0 <= j < before.len() && list@[i] == #[trigger] before[j] by {
            if i < k {
                assert(list@[i] == before[i]);
            } else if i > k {
                assert(list@[i] == before[i - 1]);
            }
        }
    }
}

/// What a journal gives: the newest records of files, and folders.
#[verifier::ext_equal]
pub struct Journaled {
    pub newest: Seq<FileView>,
    pub folders: Map<u32, (Seq<char>, u32)>,
}

impl Volume {
    /// What the first `n` records of a stale node give: files that are neither live nor candidates already, and
    /// folders that are not known, which were deleted along with their contents.
    pub open spec fn journaled_in_node(
        &self,
        node: Seq<u8>,
        offsets: Seq<int>,
        n: int,
        live: Set<u32>,
        seen: Set<u32>,
        st: Journaled,
    ) -> Journaled
        decreases n,
    {
        if n <= 0 {
            st
        } else {
            let before = self.journaled_in_node(node, offsets, n - 1, live, seen, st);
            match self.file_in(node, offsets[n - 1]) {
                Some(f) => if live.contains(f.file_id) || seen.contains(f.file_id) {
                    before
                } else {
                    Journaled { newest: with_newest(before.newest, f), ..before }
                },
                None => match folder_at(node, offsets[n - 1]) {
                    Some((cnid, name, parent)) => if before.folders.contains_key(cnid) {
                        before
                    } else {
                        Journaled { folders: before.folders.insert(cnid, (name, parent)), ..before }
                    },
                    None => before,
                },
            }
        }
    }

    /// What a journal gives from `p` on. Stale nodes can start on any 512-byte boundary.
    pub open spec fn journaled_from(
        &self,
        journal: Seq<u8>,
        size: int,
        p: int,
        live: Set<u32>,
        seen: Set<u32>,
        st: Journaled,
    ) -> Journaled
        decreases larger(journal.len() - p, 0),
    {
        if p + size > journal.len() || size <= 0 {
            st
        } else {
            let node = journal.subrange(p, p + size);
            let next = if is_plausible_leaf(node, size) {
                let offsets = offsets_from(node, size, 0);
                self.journaled_in_node(node, offsets, offsets.len() as int, live, seen, st)
            } else {
                st
            };
            self.journaled_from(journal, size, p + 512, live, seen, next)
        }
    }

    /// Collect what a stale node gives.
    fn take_journaled(
        &self,
        node: &[u8],
        node_size: usize,
        live: &HashSet<u32>,
        seen: &HashSet<u32>,
        newest: &mut Vec<FileRecord>,
        folders: &mut Folders,
    )
        requires
            self.wf(),
            512 <= node_size <= 32768,
            self.are_readable(old(newest)@),
        ensures
            (Journaled { newest: file_views(final(newest)@), folders: final(folders)@ }) == ({
                let offsets = offsets_from(node@, node_size as int, 0);
                self.journaled_in_node(
                    node@,
                    offsets,
                    offsets.len() as int,
                    live@,
                    seen@,
                    Journaled { newest: file_views(old(newest)@), folders: old(folders)@ },
                )
            }),
            self.are_readable(final(newest)@),
    {
        let offsets = live_record_offsets(node, node_size);
        let ghost st = Journaled { newest: file_views(newest@), folders: folders@ };
        let ghost all = offsets_from(node@, node_size as int, 0);
        let mut i: usize = 0;
        while i < offsets.len()
            invariant
                self.wf(),
                512 <= node_size <= 32768,
                i <= offsets@.len(),
                all == positions(offsets@),
                forall|i: int| 0 <= i < offsets@.len() ==> 14 <= #[trigger] offsets@[i] < node_size,
                (Journaled { newest: file_views(newest@), folders: folders@ })
                    == self.journaled_in_node(node@, all, i as int, live@, seen@, st),
                self.are_readable(newest@),
            decreases offsets@.len() - i,
        {
            let off: usize = offsets[i];
            assert(all[i as int] == off);
            match parse_file_record(node, off, self) {
                Some(f) => {
                    if !live.contains(&f.file_id) && !seen.contains(&f.file_id) {
                        add_newest(newest, f);
                    }
                },
                None => {
                    if let Some(f) = parse_folder_record(node, off) {
                        if !folders.has(f.cnid) {
                            folders.add(f.cnid, f.name, f.parent);
                        }
                    }
                },
            }
            i += 1;
        }
    }

    /// Look through the journal for everything that looks like a complete catalog leaf node. The journal is a
    /// ring of block copies whose transaction headers are in the writing machine's byte order, so rather than
    /// replaying it the scan simply looks for node descriptors at 512-byte boundaries and checks their
    /// record-offset array: a real node's offsets start at 14 and rise strictly, and random bytes almost never
    /// do.
    fn scan_journal(
        &self,
        journal: &Vec<u8>,
        node_size: usize,
        live: &HashSet<u32>,
        seen: &HashSet<u32>,
        newest: &mut Vec<FileRecord>,
        folders: &mut Folders,
    )
        requires
            self.wf(),
            512 <= node_size <= 32768,
            self.are_readable(old(newest)@),
            journal@.len() <= isize::MAX,
        ensures
            (Journaled { newest: file_views(final(newest)@), folders: final(folders)@ })
                == self.journaled_from(
                journal@,
                node_size as int,
                0,
                live@,
                seen@,
                (Journaled { newest: file_views(old(newest)@), folders: old(folders)@ }),
            ),
            self.are_readable(final(newest)@),
    {
        let ghost all = self.journaled_from(
            journal@,
            node_size as int,
            0,
            live@,
            seen@,
            (Journaled { newest: file_views(newest@), folders: folders@ }),
        );
        let mut p: usize = 0;
        while p + node_size <= journal.len()
            invariant
                self.wf(),
                512 <= node_size <= 32768,
                self.are_readable(newest@),
                journal@.len() <= isize::MAX,
                p <= journal@.len() + 512,
                all == self.journaled_from(
                    journal@,
                    node_size as int,
                    p as int,
                    live@,
                    seen@,
                    (Journaled { newest: file_views(newest@), folders: folders@ }),
                ),
            decreases journal@.len() + 512 - p,
        {
            let node = &journal[p..p + node_size];
            if looks_like_leaf_node(node, node_size) {
                self.take_journaled(node, node_size, live, seen, newest, folders);
            }
            p = p + 512;
        }
    }
}

impl Volume {
    /// The runs of data forks in the first `n` records of a node of the extents-overflow tree, behind others.
    pub open spec fn runs_in_node(
        &self,
        node: Seq<u8>,
        offsets: Seq<int>,
        n: int,
        runs: Seq<(u32, u32, Seq<(u32, u32)>)>,
    ) -> Seq<(u32, u32, Seq<(u32, u32)>)>
        decreases n,
    {
        if n <= 0 {
            runs
        } else {
            let before = self.runs_in_node(node, offsets, n - 1, runs);
            match extent_record_at(node, offsets[n - 1], self.total_blocks as int) {
                Some((fork, id, start, extents)) => if fork == 0 && extents.len() > 0 {
                    before.push((id, start, extents))
                } else {
                    before
                },
                None => before,
            }
        }
    }

    /// The runs of data forks in the first `n` nodes of the extents-overflow tree.
    pub open spec fn runs_in(&self, tree: Seq<u8>, size: int, n: int) -> Seq<
        (u32, u32, Seq<(u32, u32)>),
    >
        decreases n,
    {
        if n <= 0 {
            Seq::empty()
        } else {
            let before = self.runs_in(tree, size, n - 1);
            let node = node_of(tree, size, n - 1);
            if is_leaf(node) {
                let offsets = offsets_from(node, size, 0);
                self.runs_in_node(node, offsets, offsets.len() as int, before)
            } else {
                before
            }
        }
    }

    /// The runs of data forks in the extents-overflow tree; none where the tree is absent, cannot be read, or
    /// is no tree.
    pub open spec fn overflow(&self, src: Source) -> Seq<(u32, u32, Seq<(u32, u32)>)> {
        if self.extents_overflow_extents@.len() == 0 {
            Seq::empty()
        } else {
            match self.fork(
                src,
                self.extents_overflow_extents@,
                self.extents_overflow_size as int,
                MAX_CATALOG as int,
            ) {
                Some(tree) => match node_size_in(tree) {
                    Some(size) => if tree.len() >= 512 {
                        self.runs_in(tree, size, tree.len() as int / size)
                    } else {
                        Seq::empty()
                    },
                    None => Seq::empty(),
                },
                None => Seq::empty(),
            }
        }
    }

    /// The extents of runs lie in the volume.
    pub open spec fn are_runs(&self, v: Seq<OverflowRun>) -> bool {
        forall|i: int|
            0 <= i < v.len() ==> are_extents((#[trigger] v[i]).extents@, self.total_blocks as int)
    }

    /// Collect the runs in a node.
    fn take_runs(&self, node: &[u8], node_size: usize, runs: &mut Vec<OverflowRun>)
        requires
            self.wf(),
            512 <= node_size <= 32768,
            self.are_runs(old(runs)@),
        ensures
            run_views(final(runs)@) == ({
                let offsets = offsets_from(node@, node_size as int, 0);
                self.runs_in_node(node@, offsets, offsets.len() as int, run_views(old(runs)@))
            }),
            self.are_runs(final(runs)@),
    {
        let offsets = live_record_offsets(node, node_size);
        let ghost st = run_views(runs@);
        let ghost all = offsets_from(node@, node_size as int, 0);
        let mut i: usize = 0;
        while i < offsets.len()
            invariant
                self.wf(),
                512 <= node_size <= 32768,
                i <= offsets@.len(),
                all == positions(offsets@),
                forall|i: int| 0 <= i < offsets@.len() ==> 14 <= #[trigger] offsets@[i] < node_size,
                run_views(runs@) == self.runs_in_node(node@, all, i as int, st),
                self.are_runs(runs@),
            decreases offsets@.len() - i,
        {
            let off: usize = offsets[i];
            assert(all[i as int] == off);
            if let Some(x) = parse_extent_record(node, off, self) {
                if x.fork == 0 && x.extents.len() > 0 {
                    let ghost before = runs@;
                    let ghost v = (x.file_id, x.start_block, x.extents@);
                    runs.push(
                        OverflowRun {
                            file_id: x.file_id,
                            start_block: x.start_block,
                            extents: x.extents,
                        },
                    );
                    assert(run_views(runs@) =~= run_views(before).push(v));
                }
            }
            i += 1;
        }
    }

    /// Read the extents-overflow B-tree and list its **data-fork** extent records. Returns an empty list when
    /// the tree is absent, unreadable, or holds no usable records — recovery then falls back to inline extents
    /// only.
    fn read_extents_overflow(&self, src: &Source) -> (r: Vec<OverflowRun>)
        requires
            self.wf(),
            src.wf(),
        ensures
            run_views(r@) == self.overflow(*src),
            self.are_runs(r@),
    {
        let mut runs: Vec<OverflowRun> = Vec::new();
        assert(run_views(runs@) =~= Seq::empty());
        if self.extents_overflow_extents.len() == 0 {
            return runs;
        }
        let tree = match self.read_fork(
            src,
            &self.extents_overflow_extents,
            self.extents_overflow_size,
            MAX_CATALOG,
        ) {
            Ok(t) => t,
            Err(_) => {
                return runs;
            },
        };
        if tree.len() < 512 {
            return runs;
        }
        let size: usize = match node_size(&tree) {
            Ok(n) => n,
            Err(_) => {
                return runs;
            },
        };
        let total: usize = tree.len() / size;
        let mut i: usize = 0;
        while i < total
            invariant
                self.wf(),
                512 <= size <= 32768,
                i <= total == tree@.len() / size as nat,
                tree@.len() <= MAX_CATALOG,
                run_views(runs@) == self.runs_in(tree@, size as int, i as int),
                self.are_runs(runs@),
            decreases total - i,
        {
            proof {
                lemma_node_bounds(tree@.len() as int, size as int, i as int);
            }
            let node = &tree[i * size..(i + 1) * size];
            assert(node@ =~= node_of(tree@, size as int, i as int));
            if node_is_leaf(node) {
                self.take_runs(node, size, &mut runs);
            }
            i += 1;
        }
        runs
    }
}

/// A node lies in its tree.
proof fn lemma_node_bounds(len: int, size: int, i: int)
    requires
        0 <= len,
        0 < size,
        0 <= i < len / size,
    ensures
        0 <= i * size,
        i * size + size == (i + 1) * size,
        (i + 1) * size <= len,
{
    assert(0 <= i * size) by (nonlinear_arith)
        requires
            0 <= i,
            0 < size,
    ;
    assert(i * size + size == (i + 1) * size) by (nonlinear_arith);
    assert((i + 1) * size <= len) by (nonlinear_arith)
        requires
            i + 1 <= len / size,
            0 < size,
            0 <= len,
    ;
}

/// Where a run belongs, from the `k`-th on, among runs in the order of their start blocks: behind those that
/// start no later.
pub open spec fn run_slot(runs: Seq<(u32, Seq<(u32, u32)>)>, start: u32, k: int) -> int
    decreases runs.len() - k,
{
    if k >= runs.len() || runs[k].0 > start {
        k
    } else {
        run_slot(runs, start, k + 1)
    }
}

/// The runs of a file among the first `n`, in the order of their start blocks.
pub open spec fn runs_of(runs: Seq<(u32, u32, Seq<(u32, u32)>)>, id: u32, n: int) -> Seq<
    (u32, Seq<(u32, u32)>),
>
    decreases n,
{
    if n <= 0 {
        Seq::empty()
    } else {
        let before = runs_of(runs, id, n - 1);
        let x = runs[n - 1];
        if x.0 == id {
            before.insert(run_slot(before, x.1, 0), (x.1, x.2))
        } else {
            before
        }
    }
}

/// The extents of the first `n` runs, one after another.
pub open spec fn chained(runs: Seq<(u32, Seq<(u32, u32)>)>, n: int) -> Seq<(u32, u32)>
    decreases n,
{
    if n <= 0 {
        Seq::empty()
    } else {
        chained(runs, n - 1) + runs[n - 1].1
    }
}

/// The extents of a file beyond those in its catalog record.
pub open spec fn more_extents(runs: Seq<(u32, u32, Seq<(u32, u32)>)>, id: u32) -> Seq<(u32, u32)> {
    let mine = runs_of(runs, id, runs.len() as int);
    chained(mine, mine.len() as int)
}

/// What is said of runs by where they are in a list.
spec fn picked(runs: Seq<OverflowRun>, order: Seq<usize>) -> Seq<(u32, Seq<(u32, u32)>)> {
    order.map_values(|k: usize| (runs[k as int].start_block, runs[k as int].extents@))
}

/// Where the runs of a file are, in the order of their start blocks.
fn order_runs(runs: &Vec<OverflowRun>, id: u32) -> (order: Vec<usize>)
    ensures
        picked(runs@, order@) == runs_of(run_views(runs@), id, runs@.len() as int),
        forall|k: int| 0 <= k < order@.len() ==> #[trigger] order@[k] < runs@.len(),
{
    let mut order: Vec<usize> = Vec::new();
    let ghost views = run_views(runs@);
    let mut i: usize = 0;
    assert(picked(runs@, order@) =~= Seq::empty());
    while i < runs.len()
        invariant
            i <= runs@.len(),
            views == run_views(runs@),
            picked(runs@, order@) == runs_of(views, id, i as int),
            forall|k: int| 0 <= k < order@.len() ==> #[trigger] order@[k] < runs@.len(),
        decreases runs@.len() - i,
    {
        if runs[i].file_id == id {
            let start: u32 = runs[i].start_block;
            let ghost before = picked(runs@, order@);
            let ghost old_order = order@;
            let mut k: usize = 0;
            while k < order.len() && runs[order[k]].start_block <= start
                invariant
                    k <= order@.len(),
                    order@ == old_order,
                    before == picked(runs@, order@),
                    run_slot(before, start, 0) == run_slot(before, start, k as int),
                    forall|k: int| 0 <= k < order@.len() ==> #[trigger] order@[k] < runs@.len(),
                decreases order@.len() - k,
            {
                assert(before[k as int].0 == runs@[order@[k as int] as int].start_block);
                k += 1;
            }
            assert(run_slot(before, start, k as int) == k) by {
                if k < order@.len() {
                    assert(before[k as int].0 == runs@[order@[k as int] as int].start_block);
                }
            }
            order.insert(k, i);
            assert(picked(runs@, order@) =~= before.insert(
                k as int,
                (start, runs@[i as int].extents@),
            ));
            assert forall|j: int| 0 <= j < order@.len() implies #[trigger] order@[j] < runs@.len() by {
                if j < k {
                    assert(order@[j] == old_order[j]);
                } else if j > k {
                    assert(order@[j] == old_order[j - 1]);
                }
            }
        }
        i += 1;
    }
    order
}

/// Add the extents of a file beyond those in its catalog record to `out`.
fn add_more_extents(runs: &Vec<OverflowRun>, id: u32, out: &mut Vec<(u32, u32)>)
    ensures
        final(out)@ == old(out)@ + more_extents(run_views(runs@), id),
{
    let order = order_runs(runs, id);
    let ghost mine = picked(runs@, order@);
    let ghost before = out@;
    let mut i: usize = 0;
    assert(out@ =~= before + chained(mine, 0));
    while i < order.len()
        invariant
            i <= order@.len(),
            mine == picked(runs@, order@),
            out@ == before + chained(mine, i as int),
            forall|k: int| 0 <= k < order@.len() ==> #[trigger] order@[k] < runs@.len(),
        decreases order@.len() - i,
    {
        let run = &runs[order[i]];
        let ghost done = out@;
        let mut k: usize = 0;
        assert(out@ =~= done + run.extents@.take(0));
        while k < run.extents.len()
            invariant
                k <= run.extents@.len(),
                out@ == done + run.extents@.take(k as int),
            decreases run.extents@.len() - k,
        {
            out.push(run.extents[k]);
            k += 1;
            assert(out@ =~= done + run.extents@.take(k as int));
        }
        assert(run.extents@.take(k as int) =~= run.extents@);
        assert(mine[i as int].1 == run.extents@);
        i += 1;
        assert(out@ =~= before + chained(mine, i as int));
    }
}

impl Volume {
    /// What is read of a file of which `left` bytes are missing from the `k`-th of its extents on, behind what
    /// was read before. `None` where the extents do not cover the file, the image ends before them, or a byte
    /// could not be read.
    pub open spec fn content_from(
        &self,
        src: Source,
        extents: Seq<(u32, u32)>,
        k: int,
        left: int,
        data: Seq<u8>,
    ) -> Option<Seq<u8>>
        decreases extents.len() - k,
    {
        if left <= 0 {
            Some(data)
        } else if k >= extents.len() {
            None
        } else {
            let take = smaller(extents[k].1 * self.block_size, left);
            match src.fetch(self.offset + extents[k].0 * self.block_size, take) {
                None => None,
                Some(d) => if d.len() < take {
                    None
                } else {
                    self.content_from(src, extents, k + 1, left - take, data + d)
                },
            }
        }
    }

    /// The bytes of a file: from the eight extents stored inline in the catalog record, followed by any from the
    /// extents-overflow tree for a fragmented file.
    pub open spec fn content(
        &self,
        src: Source,
        runs: Seq<(u32, u32, Seq<(u32, u32)>)>,
        f: FileView,
    ) -> Option<Seq<u8>> {
        self.content_from(
            src,
            f.extents + more_extents(runs, f.file_id),
            0,
            f.logical_size as int,
            Seq::empty(),
        )
    }

    /// Reconstruct a file's bytes from its data-fork extents. Returns `None` if the combined extents still do
    /// not cover the whole logical size.
    fn read_file_data(&self, src: &Source, rec: &FileRecord, runs: &Vec<OverflowRun>) -> (r: Option<
        Vec<u8>,
    >)
        requires
            self.wf(),
            src.wf(),
        ensures
            match r {
                Some(v) => self.content(*src, run_views(runs@), rec@) == Some(v@) && v@.len()
                    == rec.logical_size,
                None => self.content(*src, run_views(runs@), rec@) is None,
            },
    {
        let mut extents = vstd::slice::slice_to_vec(rec.extents.as_slice());
        add_more_extents(runs, rec.file_id, &mut extents);
        let bs: u64 = self.block_size;
        let mut data: Vec<u8> = Vec::new();
        let mut left: u64 = rec.logical_size;
        let mut k: usize = 0;
        let ghost all = self.content(*src, run_views(runs@), rec@);
        while left > 0
            invariant
                self.wf(),
                src.wf(),
                bs == self.block_size,
                k <= extents@.len(),
                data@.len() + left == rec.logical_size,
                all == self.content(*src, run_views(runs@), rec@),
                all == self.content_from(*src, extents@, k as int, left as int, data@),
            decreases extents@.len() - k,
        {
            if k >= extents.len() {
                return None;
            }
            let start: u64 = extents[k].0 as u64;
            let count: u64 = extents[k].1 as u64;
            assert(0 <= start * bs <= 0xFFFF_FFFF * 65536) by (nonlinear_arith)
                requires
                    0 <= start <= 0xFFFF_FFFF,
                    0 <= bs <= 65536,
            ;
            assert(0 <= count * bs <= 0xFFFF_FFFF * 65536) by (nonlinear_arith)
                requires
                    0 <= count <= 0xFFFF_FFFF,
                    0 <= bs <= 65536,
            ;
            let take: u64 = min_u64(count * bs, left);
            let at: u64 = self.offset + start * bs;
            let size: u64 = src.size();
            if take > 0 && (at > size || size - at < take) {
                assert(window(src@, at as int, take as int).len() < take);
                return None;
            }
            match src.read_at(at, take as usize) {
                Ok(d) => {
                    let mut d = d;
                    data.append(&mut d);
                },
                Err(_) => {
                    return None;
                },
            }
            left = left - take;
            k += 1;
        }
        Some(data)
    }

    /// What comes of a file that was deleted: one of which not every byte can be had is not recovered.
    pub open spec fn with_deleted(
        &self,
        src: Source,
        opts: RecoverOptions,
        folders: Map<u32, (Seq<char>, u32)>,
        runs: Seq<(u32, u32, Seq<(u32, u32)>)>,
        rec: Recovery,
        f: FileView,
    ) -> Recovery {
        let path = joined(path_of(folders, f.parent_id, 0), hfs_sanitized(f.name));
        let modified = set_time(unix_seconds(f.mod_date));
        let file = RecoveredView {
            path,
            size: f.logical_size as int,
            content: None,
            modified,
            accessed: set_time(unix_seconds(f.access_date)),
        };
        if !opts.wants_size(f.logical_size as int) || !opts.wants_time(modified) || !opts.wants_name(
            f.name,
        ) {
            rec
        } else if f.logical_size == 0 || f.logical_size > capped(self.total_blocks * self.block_size) {
            rec.with_skipped(path, f.logical_size as int)
        } else if opts.dry_run {
            rec.with_file(file)
        } else {
            match self.content(src, runs, f) {
                Some(d) => rec.with_file(RecoveredView { content: Some(d), ..file }),
                None => rec.with_skipped(path, f.logical_size as int),
            }
        }
    }

    /// What comes of the first `n` of the files that were deleted.
    pub open spec fn recovered(
        &self,
        src: Source,
        opts: RecoverOptions,
        folders: Map<u32, (Seq<char>, u32)>,
        runs: Seq<(u32, u32, Seq<(u32, u32)>)>,
        deleted: Seq<FileView>,
        n: int,
    ) -> Recovery
        decreases n,
    {
        if n <= 0 {
            Recovery::none()
        } else {
            self.with_deleted(
                src,
                opts,
                folders,
                runs,
                self.recovered(src, opts, folders, runs, deleted, n - 1),
                deleted[n - 1],
            )
        }
    }

    /// The catalog of the volume: `None` where it could not be read.
    pub open spec fn catalog(&self, src: Source) -> Option<Seq<u8>> {
        self.fork(src, self.catalog_extents@, self.catalog_size as int, MAX_CATALOG as int)
    }

    /// What the journal of the volume holds: nothing, where it has none, and `None` where it could not be read.
    pub open spec fn journal_bytes(&self, src: Source) -> Option<Seq<u8>> {
        match self.journal {
            Some((at, len)) => src.fetch(self.offset + at, len as int),
            None => Some(Seq::empty()),
        }
    }

    /// The files that were deleted, by the catalog, with nodes of `size` bytes, and the journal: first those in
    /// the free space of the catalog, then those that only the journal has, in the order of their CNIDs; and
    /// the folders.
    pub open spec fn deleted(&self, catalog: Seq<u8>, size: int, journal: Seq<u8>) -> (
        Seq<FileView>,
        Map<u32, (Seq<char>, u32)>,
    ) {
        let n = catalog.len() as int / size;
        let live = self.live_in(catalog, size, n);
        let stale = self.stale_in(catalog, size, n, live.files);
        let more = self.journaled_from(
            journal,
            size,
            0,
            live.files,
            Set::new(|id: u32| has_file(stale, id)),
            Journaled { newest: Seq::empty(), folders: live.folders },
        );
        (stale + more.newest, more.folders)
    }

    /// What comes of all deleted files: what is wrong with the catalog, or what was recovered. `None` where the
    /// catalog or the journal could not be read.
    pub open spec fn recovery(&self, src: Source, opts: RecoverOptions) -> Option<
        Result<Recovery, VolumeError>,
    > {
        match self.catalog(src) {
            None => None,
            Some(catalog) => if catalog.len() < 512 {
                Some(Err(VolumeError::CatalogTruncated))
            } else {
                match node_size_in(catalog) {
                    None => Some(Err(VolumeError::NodeSize)),
                    Some(size) => match self.journal_bytes(src) {
                        None => None,
                        Some(journal) => {
                            let (deleted, folders) = self.deleted(catalog, size, journal);
                            Some(
                                Ok(
                                    self.recovered(
                                        src,
                                        opts,
                                        folders,
                                        self.overflow(src),
                                        deleted,
                                        deleted.len() as int,
                                    ),
                                ),
                            )
                        },
                    },
                }
            },
        }
    }

    /// Recover a file.
    fn recover_file(
        &self,
        src: &Source,
        opts: &RecoverOptions,
        folders: &Folders,
        runs: &Vec<OverflowRun>,
        f: &FileRecord,
        stats: &mut RecoverStats,
    )
        requires
            self.wf(),
            src.wf(),
            old(stats).wf(),
        ensures
            final(stats).wf(),
            final(stats)@ == self.with_deleted(
                *src,
                *opts,
                folders@,
                run_views(runs@),
                old(stats)@,
                f@,
            ),
    {
        let size: u64 = f.logical_size;
        let modified = from_unix(hfs_to_unix(f.mod_date));
        let accessed = from_unix(hfs_to_unix(f.access_date));
        if !opts.size_ok(size) || !opts.time_ok(modified) || !opts.name_ok(f.name.as_str()) {
            return;
        }
        let dir = folders.resolve_path(f.parent_id);
        let name = hfs_component(f.name.as_str());
        let path = join_path(dir.as_str(), name.as_str());
        if size == 0 || size > self.size() {
            stats.record_skipped(path, size);
            return;
        }
        if opts.dry_run {
            stats.record_recoverable(path, size, modified, accessed);
            return;
        }
        match self.read_file_data(src, f, runs) {
            Some(data) => {
                stats.record_recovered(path, size, data, modified, accessed);
            },
            None => {
                stats.record_skipped(path, size);
            },
        }
    }

    /// Find the files that were deleted.
    fn find_deleted(&self, catalog: &Vec<u8>, size: usize, journal: &Vec<u8>) -> (r: (
        Vec<FileRecord>,
        Folders,
    ))
        requires
            self.wf(),
            512 <= size <= 32768,
            catalog@.len() <= MAX_CATALOG,
            journal@.len() <= isize::MAX,
        ensures
            (file_views(r.0@), r.1@) == self.deleted(catalog@, size as int, journal@),
    {
        let total: usize = catalog.len() / size;
        let mut live: HashSet<u32> = HashSet::new();
        let mut folders = Folders::new();
        let mut i: usize = 0;
        while i < total
            invariant
                self.wf(),
                512 <= size <= 32768,
                i <= total == catalog@.len() / size as nat,
                catalog@.len() <= MAX_CATALOG,
                (Live { files: live@, folders: folders@ }) == self.live_in(
                    catalog@,
                    size as int,
                    i as int,
                ),
            decreases total - i,
        {
            proof {
                lemma_node_bounds(catalog@.len() as int, size as int, i as int);
            }
            let node = &catalog[i * size..(i + 1) * size];
            assert(node@ =~= node_of(catalog@, size as int, i as int));
            if node_is_leaf(node) {
                self.take_live(node, size, &mut live, &mut folders);
            }
            i += 1;
        }
        let mut found: Vec<FileRecord> = Vec::new();
        let mut seen: HashSet<u32> = HashSet::new();
        let mut i: usize = 0;
        assert(file_views(found@) =~= Seq::empty());
        while i < total
            invariant
                self.wf(),
                512 <= size <= 32768,
                i <= total == catalog@.len() / size as nat,
                catalog@.len() <= MAX_CATALOG,
                file_views(found@) == self.stale_in(catalog@, size as int, i as int, live@),
                forall|id: u32| seen@.contains(id) <==> has_file(file_views(found@), id),
                self.are_readable(found@),
            decreases total - i,
        {
            proof {
                lemma_node_bounds(catalog@.len() as int, size as int, i as int);
            }
            let node = &catalog[i * size..(i + 1) * size];
            assert(node@ =~= node_of(catalog@, size as int, i as int));
            if node_is_leaf(node) {
                self.take_stale(node, size, &live, &mut seen, &mut found);
            }
            i += 1;
        }
        let ghost stale = file_views(found@);
        assert(seen@ =~= Set::new(|id: u32| has_file(stale, id)));
        let mut newest: Vec<FileRecord> = Vec::new();
        assert(file_views(newest@) =~= Seq::empty());
        self.scan_journal(journal, size, &live, &seen, &mut newest, &mut folders);
        let ghost more = file_views(newest@);
        found.append(&mut newest);
        assert(file_views(found@) =~= stale + more);
        (found, folders)
    }

    /// Recover all deleted files.
    pub fn recover_deleted(&self, src: &Source, opts: &RecoverOptions) -> (r: Result<
        RecoverStats,
        VolumeError,
    >)
        requires
            self.wf(),
            src.wf(),
        ensures
            match r {
                Ok(s) => s.wf() && (self.recovery(*src, *opts) matches Some(Ok(x)) && s@ == x),
                Err(VolumeError::Read(e)) => self.recovery(*src, *opts) is None && src.explains(e),
                Err(e) => self.recovery(*src, *opts) matches Some(Err(x)) && x == e,
            },
    {
        let catalog = match self.read_fork(
            src,
            &self.catalog_extents,
            self.catalog_size,
            MAX_CATALOG,
        ) {
            Ok(v) => v,
            Err(e) => {
                return Err(VolumeError::Read(e));
            },
        };
        if catalog.len() < 512 {
            return Err(VolumeError::CatalogTruncated);
        }
        let size: usize = match node_size(&catalog) {
            Ok(n) => n,
            Err(e) => {
                return Err(e);
            },
        };
        let journal = match self.journal {
            Some((at, len)) => match src.read_at(self.offset + at, len as usize) {
                Ok(v) => v,
                Err(e) => {
                    return Err(VolumeError::Read(e));
                },
            },
            None => Vec::new(),
        };
        assert(self.journal_bytes(*src) == Some(journal@));
        let (found, folders) = self.find_deleted(&catalog, size, &journal);
        let runs = self.read_extents_overflow(src);
        let mut stats = RecoverStats::new();
        let mut i: usize = 0;
        while i < found.len()
            invariant
                self.wf(),
                src.wf(),
                    stats.wf(),
                i <= found@.len(),
                stats@ == self.recovered(
                    *src,
                    *opts,
                    folders@,
                    run_views(runs@),
                    file_views(found@),
                    i as int,
                ),
            decreases found@.len() - i,
        {
            self.recover_file(src, opts, &folders, &runs, &found[i], &mut stats);
            i += 1;
        }
        Ok(stats)
    }
}

/// No two files have the same CNID, and none has one of `ids`.
pub open spec fn are_new(list: Seq<FileView>, ids: Set<u32>) -> bool {
    &&& forall|i: int| 0 <= i < list.len() ==> !ids.contains((#[trigger] list[i]).file_id)
    &&& forall|i: int, j: int|
        0 <= i < j < list.len() ==> (#[trigger] list[i]).file_id != (#[trigger] list[j]).file_id
}

/// Files in the order of their CNIDs, one for each, and none of `ids`.
spec fn are_new_in_order(list: Seq<FileView>, ids: Set<u32>) -> bool {
    &&& forall|i: int| 0 <= i < list.len() ==> !ids.contains((#[trigger] list[i]).file_id)
    &&& forall|i: int, j: int|
        0 <= i < j < list.len() ==> (#[trigger] list[i]).file_id < (#[trigger] list[j]).file_id
}

proof fn lemma_newest_slot(list: Seq<FileView>, id: u32, k: int)
    requires
        0 <= k <= list.len(),
        forall|i: int| 0 <= i < k ==> (#[trigger] list[i]).file_id < id,
    ensures
        ({
            let at = newest_slot(list, id, k);
            &&& k <= at <= list.len()
            &&& forall|i: int| 0 <= i < at ==> (#[trigger] list[i]).file_id < id
            &&& at < list.len() ==> list[at].file_id >= id
        }),
    decreases list.len() - k,
{
    if k < list.len() && list[k].file_id < id {
        lemma_newest_slot(list, id, k + 1);
    }
}

proof fn lemma_with_newest(list: Seq<FileView>, f: FileView, ids: Set<u32>)
    requires
        are_new_in_order(list, ids),
        !ids.contains(f.file_id),
    ensures
        are_new_in_order(with_newest(list, f), ids),
{
    lemma_newest_slot(list, f.file_id, 0);
    let k = newest_slot(list, f.file_id, 0);
    let next = with_newest(list, f);
    if next.len() > list.len() {
        assert forall|i: int| 0 <= i < next.len() implies #[trigger] next[i] == (if i < k {
            list[i]
        } else if i == k {
            f
        } else {
            list[i - 1]
        }) by {}
        assert forall|i: int, j: int| 0 <= i < j < next.len() implies (#[trigger] next[i]).file_id < (
        #[trigger] next[j]).file_id by {
            if j > k {
                assert(list[j - 1].file_id >= f.file_id);
                if j - 1 > k {
                    assert(list[k].file_id < list[j - 1].file_id);
                }
            }
        }
    }
}

/// A record of the same file as `f`, no older than it, is in the list.
pub open spec fn has_as_new(list: Seq<FileView>, f: FileView) -> bool {
    exists|i: int|
        0 <= i < list.len() && (#[trigger] list[i]).file_id == f.file_id && list[i].mod_date
            >= f.mod_date
}

proof fn lemma_slot_bounds(list: Seq<FileView>, id: u32, k: int)
    requires
        0 <= k <= list.len(),
    ensures
        k <= newest_slot(list, id, k) <= list.len(),
    decreases list.len() - k,
{
    if k < list.len() && list[k].file_id < id {
        lemma_slot_bounds(list, id, k + 1);
    }
}

proof fn lemma_has_as_new(list: Seq<FileView>, f: FileView, g: FileView)
    ensures
        has_as_new(with_newest(list, f), f),
        has_as_new(list, g) ==> has_as_new(with_newest(list, f), g),
{
    lemma_slot_bounds(list, f.file_id, 0);
    let k = newest_slot(list, f.file_id, 0);
    let next = with_newest(list, f);
    assert(next[k].file_id == f.file_id && next[k].mod_date >= f.mod_date);
    if has_as_new(list, g) {
        let i = choose|i: int|
            0 <= i < list.len() && (#[trigger] list[i]).file_id == g.file_id && list[i].mod_date
                >= g.mod_date;
        if next.len() > list.len() && i >= k {
            assert(next[i + 1] == list[i]);
        } else {
            assert(next[i].file_id == g.file_id && next[i].mod_date >= g.mod_date);
        }
    }
}

impl Volume {
    proof fn lemma_stale_from(
        &self,
        node: Seq<u8>,
        off: int,
        end: int,
        live: Set<u32>,
        found: Seq<FileView>,
    )
        requires
            are_new(found, live),
        ensures
            are_new(self.stale_from(node, off, end, live, found), live),
        decreases end - off,
    {
        if off + 2 <= end {
            let next = match self.file_in(node, off) {
                Some(f) => if live.contains(f.file_id) || has_file(found, f.file_id) {
                    found
                } else {
                    found.push(f)
                },
                None => found,
            };
            assert(are_new(next, live)) by {
                if next.len() > found.len() {
                    let f = next.last();
                    assert forall|i: int| 0 <= i < found.len() implies (#[trigger] found[i]).file_id
                        != f.file_id by {}
                }
            }
            self.lemma_stale_from(node, off + 2, end, live, next);
        }
    }

    proof fn lemma_stale_in(&self, tree: Seq<u8>, size: int, n: int, live: Set<u32>)
        ensures
            are_new(self.stale_in(tree, size, n, live), live),
        decreases n,
    {
        if n > 0 {
            self.lemma_stale_in(tree, size, n - 1, live);
            let node = node_of(tree, size, n - 1);
            let (start, end) = free_range(node, size);
            self.lemma_stale_from(node, start, end, live, self.stale_in(tree, size, n - 1, live));
        }
    }

    proof fn lemma_journaled_in_node(
        &self,
        node: Seq<u8>,
        offsets: Seq<int>,
        n: int,
        live: Set<u32>,
        seen: Set<u32>,
        st: Journaled,
    )
        requires
            are_new_in_order(st.newest, live.union(seen)),
        ensures
            are_new_in_order(
                self.journaled_in_node(node, offsets, n, live, seen, st).newest,
                live.union(seen),
            ),
        decreases n,
    {
        if n > 0 {
            self.lemma_journaled_in_node(node, offsets, n - 1, live, seen, st);
            let before = self.journaled_in_node(node, offsets, n - 1, live, seen, st);
            if let Some(f) = self.file_in(node, offsets[n - 1]) {
                if !live.contains(f.file_id) && !seen.contains(f.file_id) {
                    lemma_with_newest(before.newest, f, live.union(seen));
                }
            }
        }
    }

    proof fn lemma_journaled_from(
        &self,
        journal: Seq<u8>,
        size: int,
        p: int,
        live: Set<u32>,
        seen: Set<u32>,
        st: Journaled,
    )
        requires
            are_new_in_order(st.newest, live.union(seen)),
        ensures
            are_new_in_order(
                self.journaled_from(journal, size, p, live, seen, st).newest,
                live.union(seen),
            ),
        decreases larger(journal.len() - p, 0),
    {
        if p + size <= journal.len() && size > 0 {
            let node = journal.subrange(p, p + size);
            let offsets = offsets_from(node, size, 0);
            self.lemma_journaled_in_node(node, offsets, offsets.len() as int, live, seen, st);
            let next = if is_plausible_leaf(node, size) {
                self.journaled_in_node(node, offsets, offsets.len() as int, live, seen, st)
            } else {
                st
            };
            self.lemma_journaled_from(journal, size, p + 512, live, seen, next);
        }
    }

    proof fn lemma_kept_in_node(
        &self,
        node: Seq<u8>,
        offsets: Seq<int>,
        n: int,
        live: Set<u32>,
        seen: Set<u32>,
        st: Journaled,
        g: FileView,
    )
        requires
            !live.contains(g.file_id) && !seen.contains(g.file_id),
            has_as_new(st.newest, g) || exists|k: int|
                0 <= k < n && self.file_in(node, #[trigger] offsets[k]) == Some(g),
        ensures
            has_as_new(self.journaled_in_node(node, offsets, n, live, seen, st).newest, g),
        decreases n,
    {
        if n > 0 {
            let before = self.journaled_in_node(node, offsets, n - 1, live, seen, st);
            if has_as_new(st.newest, g) || self.file_in(node, offsets[n - 1]) != Some(g) {
                self.lemma_kept_in_node(node, offsets, n - 1, live, seen, st, g);
            }
            if let Some(f) = self.file_in(node, offsets[n - 1]) {
                lemma_has_as_new(before.newest, f, g);
            }
        }
    }

    proof fn lemma_kept_from(
        &self,
        journal: Seq<u8>,
        size: int,
        p: int,
        live: Set<u32>,
        seen: Set<u32>,
        st: Journaled,
        g: FileView,
    )
        requires
            !live.contains(g.file_id) && !seen.contains(g.file_id),
            has_as_new(st.newest, g),
        ensures
            has_as_new(self.journaled_from(journal, size, p, live, seen, st).newest, g),
        decreases larger(journal.len() - p, 0),
    {
        if p + size <= journal.len() && size > 0 {
            let node = journal.subrange(p, p + size);
            let offsets = offsets_from(node, size, 0);
            self.lemma_kept_in_node(node, offsets, offsets.len() as int, live, seen, st, g);
            let next = if is_plausible_leaf(node, size) {
                self.journaled_in_node(node, offsets, offsets.len() as int, live, seen, st)
            } else {
                st
            };
            self.lemma_kept_from(journal, size, p + 512, live, seen, next, g);
        }
    }

    /// Of the records of a deleted file that a journal has, the newest is kept: whichever node on a 512-byte
    /// boundary from `p` on, and whichever record of it, that record or one of the same file that is no older is
    /// in what the journal gives.
    pub proof fn law_newest_is_kept(
        &self,
        journal: Seq<u8>,
        size: int,
        p: int,
        live: Set<u32>,
        seen: Set<u32>,
        st: Journaled,
        m: nat,
        k: int,
    )
        requires
            0 < size,
            0 <= p,
            p + 512 * m + size <= journal.len(),
        ensures
            ({
                let node = journal.subrange(p + 512 * m, p + 512 * m + size);
                let offsets = offsets_from(node, size, 0);
                is_plausible_leaf(node, size) && 0 <= k < offsets.len() ==> (self.file_in(
                    node,
                    offsets[k],
                ) matches Some(f) ==> live.contains(f.file_id) || seen.contains(f.file_id)
                    || has_as_new(
                    self.journaled_from(journal, size, p, live, seen, st).newest,
                    f,
                ))
            }),
        decreases m,
    {
        let node = journal.subrange(p, p + size);
        let offsets = offsets_from(node, size, 0);
        let n = offsets.len() as int;
        let next = if is_plausible_leaf(node, size) {
            self.journaled_in_node(node, offsets, n, live, seen, st)
        } else {
            st
        };
        if m > 0 {
            self.law_newest_is_kept(
                journal,
                size,
                p + 512,
                live,
                seen,
                next,
                (m - 1) as nat,
                k,
            );
        } else if is_plausible_leaf(node, size) && 0 <= k < n {
            if let Some(f) = self.file_in(node, offsets[k]) {
                if !live.contains(f.file_id) && !seen.contains(f.file_id) {
                    self.lemma_kept_in_node(node, offsets, n, live, seen, st, f);
                    self.lemma_kept_from(journal, size, p + 512, live, seen, next, f);
                }
            }
        }
    }

    /// No file that is taken for deleted is live, and none is taken twice.
    pub proof fn law_deleted_is_not_live(&self, catalog: Seq<u8>, size: int, journal: Seq<u8>)
        ensures
            are_new(
                self.deleted(catalog, size, journal).0,
                self.live_in(catalog, size, catalog.len() as int / size).files,
            ),
    {
        let n = catalog.len() as int / size;
        let live = self.live_in(catalog, size, n);
        let stale = self.stale_in(catalog, size, n, live.files);
        let seen = Set::new(|id: u32| has_file(stale, id));
        let st = Journaled { newest: Seq::empty(), folders: live.folders };
        self.lemma_stale_in(catalog, size, n, live.files);
        self.lemma_journaled_from(journal, size, 0, live.files, seen, st);
        let more = self.journaled_from(journal, size, 0, live.files, seen, st).newest;
        let all = stale + more;
        assert forall|i: int| 0 <= i < all.len() implies !live.files.contains(
            (#[trigger] all[i]).file_id,
        ) by {
            if i >= stale.len() {
                let k = i - stale.len();
                assert(all[i] == more[k]);
                assert(!live.files.union(seen).contains(more[k].file_id));
            }
        }
        assert forall|i: int, j: int| 0 <= i < j < all.len() implies (#[trigger] all[i]).file_id != (
        #[trigger] all[j]).file_id by {
            if j >= stale.len() {
                let k = j - stale.len();
                assert(all[j] == more[k]);
                assert(!live.files.union(seen).contains(more[k].file_id));
                if i < stale.len() {
                    assert(stale[i] == all[i]);
                    assert(has_file(stale, stale[i].file_id));
                } else {
                    assert(all[i] == more[i - stale.len()]);
                }
            }
        }
    }

    /// Every deleted file that is asked for is accounted for once, as recovered or as skipped, and a run that only
    /// says what can be recovered accounts for as many.
    pub proof fn law_accounted(
        &self,
        src: Source,
        opts: RecoverOptions,
        dry: RecoverOptions,
        folders: Map<u32, (Seq<char>, u32)>,
        runs: Seq<(u32, u32, Seq<(u32, u32)>)>,
        deleted: Seq<FileView>,
        n: int,
    )
        requires
            dry == (RecoverOptions { dry_run: true, ..opts }),
            0 <= n,
        ensures
            ({
                let a = self.recovered(src, opts, folders, runs, deleted, n);
                let b = self.recovered(src, dry, folders, runs, deleted, n);
                &&& a.files.len() + a.skipped.len() <= n
                &&& a.files.len() + a.skipped.len() == b.files.len() + b.skipped.len()
                &&& a.files.len() <= b.files.len()
            }),
        decreases n,
    {
        if n > 0 {
            self.law_accounted(src, opts, dry, folders, runs, deleted, n - 1);
        }
    }

    /// A file is recovered whole or not at all: its bytes are as many as its record says.
    pub proof fn law_content_is_whole(
        &self,
        src: Source,
        runs: Seq<(u32, u32, Seq<(u32, u32)>)>,
        f: FileView,
    )
        ensures
            self.content(src, runs, f) matches Some(d) ==> d.len() == f.logical_size,
    {
        self.lemma_content_from(
            src,
            f.extents + more_extents(runs, f.file_id),
            0,
            f.logical_size as int,
            Seq::empty(),
        );
    }

    proof fn lemma_content_from(
        &self,
        src: Source,
        extents: Seq<(u32, u32)>,
        k: int,
        left: int,
        data: Seq<u8>,
    )
        requires
            left >= 0,
            k >= 0,
        ensures
            self.content_from(src, extents, k, left, data) matches Some(d) ==> d.len() == data.len()
                + left,
        decreases extents.len() - k,
    {
        if left > 0 && k < extents.len() {
            let size = extents[k].1 * self.block_size;
            assert(size >= 0) by (nonlinear_arith)
                requires
                    size == extents[k].1 * self.block_size,
            ;
            let take = smaller(size, left);
            let at = self.offset + extents[k].0 * self.block_size;
            assert(extents[k].0 * self.block_size >= 0) by (nonlinear_arith);
            if let Some(d) = src.fetch(at, take) {
                if d.len() >= take {
                    assert(d.len() == take);
                    self.lemma_content_from(src, extents, k + 1, left - take, data + d);
                }
            }
        }
    }
}

} // verus!
