//! The walk over directories, and the recovery of what was deleted from them.

use crate::bytes::{capped, ceil, ceil_div, le32, smaller};
use crate::ext4::directory::{entry_views, DirEntry};
use crate::ext4::inode::{
    dir_len, dir_size, inode_atime, inode_ctime, inode_has_blockmap, inode_is_deleted,
    inode_is_dir, inode_is_reg, inode_mtime, is_deleted, is_dir, is_mapped, is_reg, reg_len,
    reg_size,
};
use crate::ext4::journal::{copies_of, JournalIndex};
use crate::ext4::Volume;
use crate::recover::{
    join_path, joined, lemma_u32_set, sanitize_component, sanitized, RecoverOptions, RecoverStats,
    RecoveredView, Recovery, VolumeError,
};
use crate::source::Source;
use crate::strings::same_text;
use crate::times::{from_unix, set_time};
use std::collections::HashSet;
use vstd::prelude::*;
use vstd::string::*;

verus! {

broadcast use vstd::std_specs::hash::group_hash_axioms;

pub const ROOT_INODE: u32 = 2;

/// How deep directories are walked.
pub const MAX_DIR_DEPTH: usize = 64;

impl Volume {
    /// An inode in a copy of the block that it is in.
    pub open spec fn inode_in(&self, copy: Option<Seq<u8>>, within: int) -> Option<Seq<u8>> {
        match copy {
            Some(d) => if within + self.inode_size <= d.len() && is_mapped(
                d.subrange(within, within + self.inode_size),
            ) {
                Some(d.subrange(within, within + self.inode_size))
            } else {
                None
            },
            None => None,
        }
    }

    /// The inode with the latest change time in the first `n` copies of the block that it is in, the later
    /// one where two have the same. Copies that could not be read, or in which the block map is gone, do not
    /// count.
    pub open spec fn best_copy(
        &self,
        src: Source,
        copies: Seq<u64>,
        n: int,
        within: int,
    ) -> Option<Seq<u8>>
        decreases n,
    {
        if n <= 0 {
            None
        } else {
            let before = self.best_copy(src, copies, n - 1, within);
            match self.inode_in(self.block(src, copies[n - 1] as int), within) {
                Some(i) => match before {
                    Some(b) => if le32(i, 0xC) >= le32(b, 0xC) {
                        Some(i)
                    } else {
                        before
                    },
                    None => Some(i),
                },
                None => before,
            }
        }
    }

    /// The journaled copy of an inode.
    pub open spec fn journaled(&self, src: Source, index: Map<u64, Seq<u64>>, ino: u32) -> Option<
        Seq<u8>,
    > {
        match self.inode_pos(ino) {
            None => None,
            Some(pos) => {
                let copies = copies_of(index, (capped(pos) / self.block_size as int) as u64);
                self.best_copy(
                    src,
                    copies,
                    copies.len() as int,
                    capped(pos) % self.block_size as int,
                )
            },
        }
    }

    /// The inode to recover from: the live one if it still has a usable block map, otherwise a journaled copy
    /// that does.
    pub open spec fn usable(&self, src: Source, index: Map<u64, Seq<u64>>, ino: u32) -> Option<
        Seq<u8>,
    > {
        match self.inode(src, ino) {
            Some(Some(i)) if is_mapped(i) => Some(i),
            _ => self.journaled(src, index, ino),
        }
    }

    /// The inode of a directory. A deleted one's block map was zeroed, so a journaled copy is used.
    pub open spec fn directory(&self, src: Source, index: Map<u64, Seq<u64>>, ino: u32) -> Option<
        Seq<u8>,
    > {
        match self.inode(src, ino) {
            Some(Some(i)) if is_dir(i) && is_mapped(i) => Some(i),
            _ => match self.journaled(src, index, ino) {
                Some(i) if is_dir(i) => Some(i),
                _ => None,
            },
        }
    }

    /// Look up a journaled copy of inode `ino` whose block map survived. When several do, the one with the
    /// latest change time wins (ties go to the later position in the journal): an inode number is reused, so
    /// an older copy may describe a different, earlier file that had the same number.
    fn journaled_inode(&self, src: &Source, journal: &JournalIndex, ino: u32) -> (r: Option<Vec<u8>>)
        requires
            self.wf(),
            src.wf(),
        ensures
            match r {
                Some(v) => self.journaled(*src, journal@, ino) == Some(v@) && v@.len()
                    == self.inode_size,
                None => self.journaled(*src, journal@, ino) is None,
            },
    {
        let byte: u64 = match self.find_inode(ino) {
            Some(pos) => pos,
            None => {
                return None;
            },
        };
        let within: usize = (byte % self.block_size) as usize;
        let size: usize = self.inode_size as usize;
        let copies = journal.copies(byte / self.block_size);
        let mut best: Option<Vec<u8>> = None;
        let mut k: usize = 0;
        while k < copies.len()
            invariant
                self.wf(),
                src.wf(),
                k <= copies@.len(),
                within < self.block_size <= 65536,
                size == self.inode_size,
                match best {
                    Some(v) => self.best_copy(*src, copies@, k as int, within as int) == Some(v@)
                        && v@.len() == self.inode_size,
                    None => self.best_copy(*src, copies@, k as int, within as int) is None,
                },
            decreases copies@.len() - k,
        {
            if let Ok(copy) = self.read_block(src, copies[k]) {
                if within + size <= copy.len() {
                    let inode = vstd::slice::slice_to_vec(&copy[within..within + size]);
                    if inode_has_blockmap(&inode) {
                        let newer = match &best {
                            Some(b) => inode_ctime(&inode) >= inode_ctime(b),
                            None => true,
                        };
                        if newer {
                            best = Some(inode);
                        }
                    }
                }
            }
            k += 1;
        }
        best
    }

    /// Pick the inode bytes to recover from: the live inode if it still has a usable block map, otherwise a
    /// journaled copy that does.
    fn choose_inode(&self, src: &Source, journal: &JournalIndex, ino: u32) -> (r: Option<Vec<u8>>)
        requires
            self.wf(),
            src.wf(),
        ensures
            match r {
                Some(v) => self.usable(*src, journal@, ino) == Some(v@) && v@.len()
                    == self.inode_size,
                None => self.usable(*src, journal@, ino) is None,
            },
    {
        if let Ok(Some(live)) = self.read_inode(src, ino) {
            if inode_has_blockmap(&live) {
                return Some(live);
            }
        }
        self.journaled_inode(src, journal, ino)
    }

    /// The inode of a directory.
    fn directory_inode(&self, src: &Source, journal: &JournalIndex, ino: u32) -> (r: Option<Vec<u8>>)
        requires
            self.wf(),
            src.wf(),
        ensures
            match r {
                Some(v) => self.directory(*src, journal@, ino) == Some(v@) && v@.len()
                    == self.inode_size,
                None => self.directory(*src, journal@, ino) is None,
            },
    {
        if let Ok(Some(live)) = self.read_inode(src, ino) {
            if inode_is_dir(&live) && inode_has_blockmap(&live) {
                return Some(live);
            }
        }
        match self.journaled_inode(src, journal, ino) {
            Some(i) => if inode_is_dir(&i) {
                Some(i)
            } else {
                None
            },
            None => None,
        }
    }

    /// What the first `n` copies of a block of a directory list, the newest first.
    pub open spec fn copies_listed(&self, src: Source, copies: Seq<u64>, n: int) -> Seq<
        (u32, Seq<char>),
    >
        decreases n,
    {
        if n <= 0 {
            Seq::empty()
        } else {
            (match self.block(src, copies[n - 1] as int) {
                Some(d) => self.listed(d),
                None => Seq::empty(),
            }) + self.copies_listed(src, copies, n - 1)
        }
    }

    /// What the journaled copies of the blocks of a directory list, from the `i`-th block on.
    pub open spec fn blocks_listed(
        &self,
        src: Source,
        index: Map<u64, Seq<u64>>,
        blocks: Seq<u64>,
        i: int,
    ) -> Seq<(u32, Seq<char>)>
        decreases blocks.len() - i,
    {
        if i >= blocks.len() {
            Seq::empty()
        } else if blocks[i] == 0 {
            self.blocks_listed(src, index, blocks, i + 1)
        } else {
            let copies = copies_of(index, blocks[i]);
            self.copies_listed(src, copies, copies.len() as int) + self.blocks_listed(
                src,
                index,
                blocks,
                i + 1,
            )
        }
    }

    /// What a directory lists, and its journaled copies after it, each name of an inode once.
    pub open spec fn all_listed(
        &self,
        src: Source,
        index: Map<u64, Seq<u64>>,
        inode: Seq<u8>,
    ) -> Seq<(u32, Seq<char>)> {
        let list = self.ever_listed(src, index, inode);
        firsts(list, list.len() as int)
    }

    /// What a directory lists, and its journaled copies after it.
    pub open spec fn ever_listed(
        &self,
        src: Source,
        index: Map<u64, Seq<u64>>,
        inode: Seq<u8>,
    ) -> Seq<(u32, Seq<char>)> {
        let size = dir_len(inode);
        (match self.content(src, inode, size) {
            Some(d) => self.listed(d),
            None => Seq::empty(),
        }) + (match self.mapped(src, inode, ceil(size, self.block_size as int)) {
            Some(blocks) => self.blocks_listed(src, index, blocks, 0),
            None => Seq::empty(),
        })
    }

    /// The entries of a directory: its live blocks (including stale entries in their slack) *and* every
    /// journaled copy of those blocks, which is where the names survive when the kernel zeroes deleted
    /// entries. The newest copies come first: a name seen in an older copy may belong to an earlier file whose
    /// inode number was since reused.
    fn list_directory(&self, src: &Source, journal: &JournalIndex, inode: &[u8]) -> (r: Vec<DirEntry>)
        requires
            self.wf(),
            src.wf(),
            inode.len() >= 128,
        ensures
            entry_views(r@) == self.all_listed(*src, journal@, inode@),
    {
        let size: u64 = dir_size(inode);
        let mut entries = match self.read_file_data(src, inode, size) {
            Ok(d) => self.parse_dir_block(&d),
            Err(_) => Vec::new(),
        };
        let ghost live = entry_views(entries@);
        assert(live =~= match self.content(*src, inode@, size as int) {
            Some(d) => self.listed(d),
            None => Seq::empty(),
        });
        let count: u64 = ceil_div(size, self.block_size);
        let ghost all = self.ever_listed(*src, journal@, inode@);
        match self.map_blocks(src, inode, count) {
            Ok(blocks) => {
                let mut i: usize = 0;
                while i < blocks.len()
                    invariant
                        self.wf(),
                        src.wf(),
                        i <= blocks.len(),
                        all =~= entry_views(entries@) + self.blocks_listed(
                            *src,
                            journal@,
                            blocks@,
                            i as int,
                        ),
                    decreases blocks.len() - i,
                {
                    if blocks[i] != 0 {
                        let copies = journal.copies(blocks[i]);
                        let ghost rest = self.blocks_listed(*src, journal@, blocks@, i + 1);
                        let mut k: usize = copies.len();
                        assert(entry_views(entries@) + (self.copies_listed(
                            *src,
                            copies@,
                            k as int,
                        ) + rest) =~= entry_views(entries@) + self.copies_listed(
                            *src,
                            copies@,
                            k as int,
                        ) + rest);
                        while k > 0
                            invariant
                                self.wf(),
                                src.wf(),
                                k <= copies@.len(),
                                all =~= entry_views(entries@) + self.copies_listed(
                                    *src,
                                    copies@,
                                    k as int,
                                ) + rest,
                            decreases k,
                        {
                            k -= 1;
                            let ghost before = entries@;
                            match self.read_block(src, copies[k]) {
                                Ok(d) => {
                                    let mut more = self.parse_dir_block(&d);
                                    let ghost m = more@;
                                    entries.append(&mut more);
                                    assert(entry_views(entries@) =~= entry_views(before)
                                        + entry_views(m));
                                },
                                Err(_) => {},
                            }
                        }
                    }
                    i += 1;
                }
            },
            Err(_) => {},
        }
        assert(entry_views(entries@) =~= all);
        keep_firsts(&entries)
    }
}

/// The first `n` entries, those that came before left out.
pub open spec fn firsts(list: Seq<(u32, Seq<char>)>, n: int) -> Seq<(u32, Seq<char>)>
    decreases n,
{
    if n <= 0 {
        Seq::empty()
    } else {
        let before = firsts(list, n - 1);
        if before.contains(list[n - 1]) {
            before
        } else {
            before.push(list[n - 1])
        }
    }
}

/// Whether an entry is among others.
fn has_entry(list: &Vec<DirEntry>, e: &DirEntry) -> (r: bool)
    ensures
        r == entry_views(list@).contains((e.ino, e.name@)),
{
    let ghost views = entry_views(list@);
    let mut k: usize = 0;
    while k < list.len()
        invariant
            k <= list@.len(),
            views == entry_views(list@),
            forall|j: int| 0 <= j < k ==> #[trigger] views[j] != (e.ino, e.name@),
        decreases list@.len() - k,
    {
        assert(views[k as int] == (list@[k as int].ino, list@[k as int].name@));
        if list[k].ino == e.ino && same_text(list[k].name.as_str(), e.name.as_str()) {
            return true;
        }
        k += 1;
    }
    false
}

/// Entries without those that came before.
fn keep_firsts(list: &Vec<DirEntry>) -> (r: Vec<DirEntry>)
    ensures
        entry_views(r@) == firsts(entry_views(list@), list@.len() as int),
{
    let mut out: Vec<DirEntry> = Vec::new();
    let ghost views = entry_views(list@);
    let mut k: usize = 0;
    assert(entry_views(out@) =~= firsts(views, 0));
    while k < list.len()
        invariant
            k <= list@.len(),
            views == entry_views(list@),
            entry_views(out@) == firsts(views, k as int),
        decreases list@.len() - k,
    {
        let e = &list[k];
        assert(views[k as int] == (e.ino, e.name@));
        if !has_entry(&out, e) {
            let ghost before = out@;
            out.push(DirEntry { ino: e.ino, name: e.name.clone() });
            assert(entry_views(out@) =~= entry_views(before).push((e.ino, e.name@)));
        }
        k += 1;
    }
    out
}

/// A deleted file that was found: its inode number, and where it was under which name.
pub struct FoundFile {
    pub ino: u32,
    pub path: String,
    pub name: String,
}

/// What is said of a deleted file that was found.
#[verifier::ext_equal]
pub struct FoundView {
    pub ino: u32,
    pub path: Seq<char>,
    pub name: Seq<char>,
}

/// What is said of deleted files that were found.
pub open spec fn found_views(v: Seq<FoundFile>) -> Seq<FoundView> {
    v.map_values(|f: FoundFile| FoundView { ino: f.ino, path: f.path@, name: f.name@ })
}

/// Where a file belongs, from the `k`-th on, among files in the order of their inode numbers.
pub open spec fn found_slot(list: Seq<FoundView>, ino: u32, k: int) -> int
    decreases list.len() - k,
{
    if k >= list.len() || list[k].ino >= ino {
        k
    } else {
        found_slot(list, ino, k + 1)
    }
}

/// Files in the order of their inode numbers with one more. The first that is found for an inode stays, so
/// that several stale links to one file do not make several files.
pub open spec fn with_found(list: Seq<FoundView>, f: FoundView) -> Seq<FoundView> {
    let k = found_slot(list, f.ino, 0);
    if k < list.len() && list[k].ino == f.ino {
        list
    } else {
        list.insert(k, f)
    }
}

/// A directory that is to be walked: its inode number, its path, and how deep it is.
pub struct Pending {
    pub ino: u32,
    pub path: String,
    pub depth: usize,
}

/// What is said of directories that are to be walked.
pub open spec fn pending_views(v: Seq<Pending>) -> Seq<(u32, Seq<char>, int)> {
    v.map_values(|p: Pending| (p.ino, p.path@, p.depth as int))
}

/// How far a walk has come: the directories that are to be walked, the last first; those that were walked;
/// and the deleted files that were found.
#[verifier::ext_equal]
pub struct WalkState {
    pub stack: Seq<(u32, Seq<char>, int)>,
    pub visited: Set<u32>,
    pub found: Seq<FoundView>,
}

/// The state in which a walk begins.
pub open spec fn walk_start() -> WalkState {
    WalkState {
        stack: seq![(ROOT_INODE, Seq::<char>::empty(), 0int)],
        visited: Set::empty(),
        found: Seq::empty(),
    }
}

impl Volume {
    /// The state after an entry of the directory at `path`: a directory is to be walked, live or deleted, and
    /// a regular file that was deleted is found.
    pub open spec fn after_entry(
        &self,
        src: Source,
        st: WalkState,
        path: Seq<char>,
        depth: int,
        e: (u32, Seq<char>),
    ) -> WalkState {
        if e.1 == "."@ || e.1 == ".."@ || e.0 == 0 {
            st
        } else {
            match self.inode(src, e.0) {
                Some(Some(child)) => {
                    let name = sanitized(e.1);
                    if is_dir(child) {
                        if depth < MAX_DIR_DEPTH {
                            WalkState {
                                stack: st.stack.push((e.0, joined(path, name), depth + 1)),
                                ..st
                            }
                        } else {
                            st
                        }
                    } else if is_reg(child) && is_deleted(child) {
                        WalkState {
                            found: with_found(
                                st.found,
                                FoundView { ino: e.0, path: joined(path, name), name },
                            ),
                            ..st
                        }
                    } else {
                        st
                    }
                },
                _ => st,
            }
        }
    }

    /// The state after the first `n` entries of a directory.
    pub open spec fn after_entries(
        &self,
        src: Source,
        st: WalkState,
        path: Seq<char>,
        depth: int,
        entries: Seq<(u32, Seq<char>)>,
        n: int,
    ) -> WalkState
        decreases n,
    {
        if n <= 0 {
            st
        } else {
            self.after_entry(
                src,
                self.after_entries(src, st, path, depth, entries, n - 1),
                path,
                depth,
                entries[n - 1],
            )
        }
    }

    /// The state after the next directory. One that was walked before is left out.
    pub open spec fn after_directory(
        &self,
        src: Source,
        index: Map<u64, Seq<u64>>,
        st: WalkState,
    ) -> WalkState {
        if st.stack.len() == 0 {
            st
        } else {
            let (ino, path, depth) = st.stack.last();
            let rest = WalkState { stack: st.stack.drop_last(), ..st };
            if st.visited.contains(ino) {
                rest
            } else {
                let next = WalkState { visited: st.visited.insert(ino), ..rest };
                match self.directory(src, index, ino) {
                    None => next,
                    Some(inode) => {
                        let entries = self.all_listed(src, index, inode);
                        self.after_entries(src, next, path, depth, entries, entries.len() as int)
                    },
                }
            }
        }
    }

    /// The state after `n` directories.
    pub open spec fn after_steps(&self, src: Source, index: Map<u64, Seq<u64>>, n: nat) -> WalkState
        decreases n,
    {
        if n == 0 {
            walk_start()
        } else {
            self.after_directory(src, index, self.after_steps(src, index, (n - 1) as nat))
        }
    }

    /// A walk is over after `n` directories.
    pub open spec fn walk_ends(&self, src: Source, index: Map<u64, Seq<u64>>, n: nat) -> bool {
        self.after_steps(src, index, n).stack.len() == 0
    }

    /// The deleted files that a walk finds, in the order of their inode numbers.
    pub open spec fn walked(&self, src: Source, index: Map<u64, Seq<u64>>) -> Seq<FoundView> {
        self.after_steps(src, index, choose|n: nat| self.walk_ends(src, index, n)).found
    }

    /// Once a walk is over nothing changes.
    proof fn lemma_walk_over(&self, src: Source, index: Map<u64, Seq<u64>>, a: nat, b: nat)
        requires
            a <= b,
            self.walk_ends(src, index, a),
        ensures
            self.after_steps(src, index, b) == self.after_steps(src, index, a),
        decreases b - a,
    {
        if a < b {
            self.lemma_walk_over(src, index, a, (b - 1) as nat);
        }
    }

    /// A walk finds the same, whenever it is over.
    proof fn lemma_walked(&self, src: Source, index: Map<u64, Seq<u64>>, n: nat)
        requires
            self.walk_ends(src, index, n),
        ensures
            self.walked(src, index) == self.after_steps(src, index, n).found,
    {
        let m = choose|m: nat| self.walk_ends(src, index, m);
        if m <= n {
            self.lemma_walk_over(src, index, m, n);
        } else {
            self.lemma_walk_over(src, index, n, m);
        }
    }
}

/// Take up a deleted file that was found.
fn add_found(list: &mut Vec<FoundFile>, ino: u32, path: String, name: String)
    ensures
        found_views(final(list)@) == with_found(
            found_views(old(list)@),
            FoundView { ino, path: path@, name: name@ },
        ),
{
    let ghost views = found_views(list@);
    let mut k: usize = 0;
    while k < list.len() && list[k].ino < ino
        invariant
            k <= list.len(),
            list@ == old(list)@,
            views == found_views(list@),
            found_slot(views, ino, 0) == found_slot(views, ino, k as int),
        decreases list.len() - k,
    {
        k += 1;
    }
    if k < list.len() && list[k].ino == ino {
        return;
    }
    list.insert(k, FoundFile { ino, path, name });
    assert(found_views(list@) =~= views.insert(
        k as int,
        FoundView { ino, path: path@, name: name@ },
    ));
}

impl Volume {
    /// Take up what the entries of a directory give.
    fn take_entries(
        &self,
        src: &Source,
        entries: &Vec<DirEntry>,
        path: &String,
        depth: usize,
        stack: &mut Vec<Pending>,
        found: &mut Vec<FoundFile>,
        Ghost(visited): Ghost<Set<u32>>,
    )
        requires
            self.wf(),
            src.wf(),
            depth <= MAX_DIR_DEPTH,
            forall|i: int| 0 <= i < old(stack)@.len() ==> (#[trigger] old(stack)@[i]).depth <= MAX_DIR_DEPTH,
        ensures
            (WalkState {
                stack: pending_views(final(stack)@),
                visited,
                found: found_views(final(found)@),
            }) == self.after_entries(
                *src,
                (WalkState {
                    stack: pending_views(old(stack)@),
                    visited,
                    found: found_views(old(found)@),
                }),
                path@,
                depth as int,
                entry_views(entries@),
                entries@.len() as int,
            ),
            forall|i: int|
                0 <= i < final(stack)@.len() ==> (#[trigger] final(stack)@[i]).depth
                    <= MAX_DIR_DEPTH,
    {
        let ghost st = WalkState {
            stack: pending_views(stack@),
            visited,
            found: found_views(found@),
        };
        let mut k: usize = 0;
        while k < entries.len()
            invariant
                self.wf(),
                src.wf(),
                k <= entries@.len(),
                depth <= MAX_DIR_DEPTH,
                (WalkState {
                    stack: pending_views(stack@),
                    visited,
                    found: found_views(found@),
                }) == self.after_entries(
                    *src,
                    st,
                    path@,
                    depth as int,
                    entry_views(entries@),
                    k as int,
                ),
                forall|i: int|
                    0 <= i < stack@.len() ==> (#[trigger] stack@[i]).depth <= MAX_DIR_DEPTH,
            decreases entries@.len() - k,
        {
            let e = &entries[k];
            let ghost now = WalkState {
                stack: pending_views(stack@),
                visited,
                found: found_views(found@),
            };
            let ghost view = (e.ino, e.name@);
            assert(entry_views(entries@)[k as int] == view);
            if !same_text(e.name.as_str(), ".") && !same_text(e.name.as_str(), "..") && e.ino != 0 {
                if let Ok(Some(child)) = self.read_inode(src, e.ino) {
                    if inode_is_dir(&child) {
                        if depth < MAX_DIR_DEPTH {
                            let name = sanitize_component(e.name.as_str());
                            let child_path = join_path(path.as_str(), name.as_str());
                            let ghost before = stack@;
                            let p = Pending { ino: e.ino, path: child_path, depth: depth + 1 };
                            stack.push(p);
                            assert(pending_views(stack@) =~= pending_views(before).push(
                                (p.ino, p.path@, p.depth as int),
                            ));
                        }
                    } else if inode_is_reg(&child) && inode_is_deleted(&child) {
                        let name = sanitize_component(e.name.as_str());
                        let child_path = join_path(path.as_str(), name.as_str());
                        add_found(found, e.ino, child_path, name);
                    }
                }
            }
            assert((WalkState {
                stack: pending_views(stack@),
                visited,
                found: found_views(found@),
            }) =~= self.after_entry(*src, now, path@, depth as int, view));
            k += 1;
        }
    }

    /// Walk directories from root, collecting deleted regular files keyed by inode (so multiple stale links
    /// don't duplicate).
    ///
    /// A directory whose own inode is deleted is read through its journaled inode and journaled blocks, so a
    /// folder tree removed in one go is recovered with its paths.
    pub fn walk(&self, src: &Source, journal: &JournalIndex) -> (r: Vec<FoundFile>)
        requires
            self.wf(),
            src.wf(),
        ensures
            found_views(r@) == self.walked(*src, journal@),
    {
        let mut visited: HashSet<u32> = HashSet::new();
        let mut found: Vec<FoundFile> = Vec::new();
        let mut stack: Vec<Pending> = Vec::new();
        stack.push(Pending { ino: ROOT_INODE, path: String::new(), depth: 0 });
        let ghost mut n: nat = 0;
        proof {
            assert(stack@[0].path@ =~= Seq::<char>::empty());
            assert(pending_views(stack@) =~= walk_start().stack);
            assert(found_views(found@) =~= walk_start().found);
        }
        loop
            invariant
                self.wf(),
                src.wf(),
                visited@.finite(),
                (WalkState {
                    stack: pending_views(stack@),
                    visited: visited@,
                    found: found_views(found@),
                }) == self.after_steps(*src, journal@, n),
                forall|i: int|
                    0 <= i < stack@.len() ==> (#[trigger] stack@[i]).depth <= MAX_DIR_DEPTH,
            decreases 0x1_0000_0000 - visited@.len(), stack@.len(),
        {
            let ghost st = self.after_steps(*src, journal@, n);
            let ghost before = stack@;
            let top = match stack.pop() {
                Some(top) => top,
                None => {
                    proof {
                        self.lemma_walked(*src, journal@, n);
                    }
                    return found;
                },
            };
            proof {
                assert(before[before.len() - 1] == top);
                assert(st.stack.last() == (top.ino, top.path@, top.depth as int));
                assert(pending_views(stack@) =~= st.stack.drop_last());
                n = n + 1;
                lemma_u32_set(visited@);
                lemma_u32_set(visited@.insert(top.ino));
            }
            if visited.insert(top.ino) {
                if let Some(inode) = self.directory_inode(src, journal, top.ino) {
                    let entries = self.list_directory(src, journal, &inode);
                    self.take_entries(
                        src,
                        &entries,
                        &top.path,
                        top.depth,
                        &mut stack,
                        &mut found,
                        Ghost(visited@),
                    );
                    assert(entry_views(entries@).len() == entries@.len());
                }
            }
        }
    }
}

impl Volume {
    /// A file that was found is among those that are asked for.
    pub open spec fn asked_for(opts: RecoverOptions, f: FoundView, inode: Seq<u8>) -> bool {
        &&& opts.wants_size(reg_len(inode))
        &&& opts.wants_time(set_time(le32(inode, 0x10)))
        &&& opts.wants_name(f.name)
    }

    /// What comes of a file whose inode is `inode`: one that is empty, or larger than the volume, or of which
    /// nothing can be read, is not recovered.
    pub open spec fn with_inode(
        &self,
        src: Source,
        opts: RecoverOptions,
        rec: Recovery,
        f: FoundView,
        inode: Seq<u8>,
    ) -> Recovery {
        let size = reg_len(inode);
        let file = RecoveredView {
            path: f.path,
            size,
            content: None,
            modified: set_time(le32(inode, 0x10)),
            accessed: set_time(le32(inode, 8)),
        };
        if !Self::asked_for(opts, f, inode) {
            rec
        } else if size == 0 || size > capped(self.total_blocks * self.block_size) {
            rec.with_skipped(f.path, size)
        } else if opts.dry_run {
            rec.with_file(file)
        } else {
            match self.content(src, inode, size) {
                Some(d) if d.len() > 0 => rec.with_file(RecoveredView { content: Some(d), ..file }),
                _ => rec.with_skipped(f.path, size),
            }
        }
    }

    /// What comes of the first `n` of the files that were found.
    pub open spec fn recovered(
        &self,
        src: Source,
        index: Map<u64, Seq<u64>>,
        opts: RecoverOptions,
        found: Seq<FoundView>,
        n: int,
    ) -> Recovery
        decreases n,
    {
        if n <= 0 {
            Recovery::none()
        } else {
            let rec = self.recovered(src, index, opts, found, n - 1);
            let f = found[n - 1];
            match self.usable(src, index, f.ino) {
                Some(inode) => self.with_inode(src, opts, rec, f, inode),
                None => rec.with_skipped(f.path, 0),
            }
        }
    }

    /// The journal index that recovery goes by: without a journal that can be read, an empty one.
    pub open spec fn known_copies(&self, src: Source) -> Map<u64, Seq<u64>> {
        match self.journal(src) {
            Some(index) => index,
            None => Map::empty(),
        }
    }

    /// What comes of all deleted files.
    pub open spec fn recovery(&self, src: Source, opts: RecoverOptions) -> Recovery {
        let index = self.known_copies(src);
        let found = self.walked(src, index);
        self.recovered(src, index, opts, found, found.len() as int)
    }

    /// Recover a file from its inode.
    fn recover_file(
        &self,
        src: &Source,
        opts: &RecoverOptions,
        f: &FoundFile,
        inode: &Vec<u8>,
        stats: &mut RecoverStats,
    )
        requires
            self.wf(),
            src.wf(),
            inode.len() >= 128,
            old(stats).wf(),
        ensures
            final(stats).wf(),
            final(stats)@ == self.with_inode(
                *src,
                *opts,
                old(stats)@,
                (FoundView { ino: f.ino, path: f.path@, name: f.name@ }),
                inode@,
            ),
    {
        let size: u64 = reg_size(inode);
        let modified = from_unix(inode_mtime(inode));
        let accessed = from_unix(inode_atime(inode));
        if !opts.size_ok(size) || !opts.time_ok(modified) || !opts.name_ok(f.name.as_str()) {
            return;
        }
        if size == 0 || size > self.size() {
            stats.record_skipped(f.path.clone(), size);
            return;
        }
        if opts.dry_run {
            stats.record_recoverable(f.path.clone(), size, modified, accessed);
            return;
        }
        match self.read_file_data(src, inode, size) {
            Ok(data) => {
                if data.len() > 0 {
                    stats.record_recovered(f.path.clone(), size, data, modified, accessed);
                } else {
                    stats.record_skipped(f.path.clone(), size);
                }
            },
            Err(_) => {
                stats.record_skipped(f.path.clone(), size);
            },
        }
    }

    /// Recover all deleted files.
    ///
    /// Journaled copies of inode-table blocks let us recover files whose live inode had its extent tree zeroed
    /// on deletion, and journaled copies of directory blocks still name files whose entries were zeroed. Best
    /// effort: an empty index just means we rely on what is live on disk.
    pub fn recover_deleted(&self, src: &Source, opts: &RecoverOptions) -> (r: Result<
        RecoverStats,
        VolumeError,
    >)
        requires
            self.wf(),
            src.wf(),
        ensures
            r matches Ok(s) && s.wf() && s@ == self.recovery(*src, *opts),
    {
        let journal = match self.build_journal_index(src) {
            Ok(index) => index,
            Err(_) => JournalIndex::new(),
        };
        let found = self.walk(src, &journal);
        let mut stats = RecoverStats::new();
        let mut i: usize = 0;
        while i < found.len()
            invariant
                self.wf(),
                src.wf(),
                stats.wf(),
                i <= found@.len(),
                stats@ == self.recovered(
                    *src,
                    journal@,
                    *opts,
                    found_views(found@),
                    i as int,
                ),
            decreases found@.len() - i,
        {
            let f = &found[i];
            match self.choose_inode(src, &journal, f.ino) {
                Some(inode) => {
                    self.recover_file(src, opts, f, &inode, &mut stats);
                },
                None => {
                    stats.record_skipped(f.path.clone(), 0);
                },
            }
            i += 1;
        }
        Ok(stats)
    }
}

/// Files in the order of their inode numbers, one for each.
pub open spec fn in_order(list: Seq<FoundView>) -> bool {
    forall|i: int, j: int| 0 <= i < j < list.len() ==> (#[trigger] list[i]).ino < (#[trigger] list[j]).ino
}

/// The place of a file comes after the smaller numbers, and before the others.
proof fn lemma_found_slot(list: Seq<FoundView>, ino: u32, k: int)
    requires
        0 <= k <= list.len(),
        forall|i: int| 0 <= i < k ==> (#[trigger] list[i]).ino < ino,
    ensures
        ({
            let at = found_slot(list, ino, k);
            &&& k <= at <= list.len()
            &&& forall|i: int| 0 <= i < at ==> (#[trigger] list[i]).ino < ino
            &&& at < list.len() ==> list[at].ino >= ino
        }),
    decreases list.len() - k,
{
    if k < list.len() && list[k].ino < ino {
        lemma_found_slot(list, ino, k + 1);
    }
}

impl Volume {
    /// Files that were found are such as were deleted.
    pub open spec fn all_deleted(&self, src: Source, list: Seq<FoundView>) -> bool {
        forall|i: int|
            0 <= i < list.len() ==> (self.inode(src, (#[trigger] list[i]).ino) matches Some(Some(x))
                && is_reg(x) && is_deleted(x))
    }

    proof fn lemma_with_found(&self, src: Source, list: Seq<FoundView>, f: FoundView)
        requires
            in_order(list),
            self.all_deleted(src, list),
            self.inode(src, f.ino) matches Some(Some(x)) && is_reg(x) && is_deleted(x),
        ensures
            in_order(with_found(list, f)),
            self.all_deleted(src, with_found(list, f)),
    {
        lemma_found_slot(list, f.ino, 0);
        let k = found_slot(list, f.ino, 0);
        let next = with_found(list, f);
        if next.len() > list.len() {
            assert forall|i: int| 0 <= i < next.len() implies #[trigger] next[i] == (if i < k {
                list[i]
            } else if i == k {
                f
            } else {
                list[i - 1]
            }) by {}
            assert(in_order(next)) by {
                assert forall|i: int, j: int| 0 <= i < j < next.len() implies (
                #[trigger] next[i]).ino < (#[trigger] next[j]).ino by {
                    if j > k {
                        assert(list[j - 1].ino >= f.ino);
                        if j - 1 > k {
                            assert(list[k].ino < list[j - 1].ino);
                        }
                    }
                }
            }
        }
    }

    proof fn lemma_after_entries(
        &self,
        src: Source,
        st: WalkState,
        path: Seq<char>,
        depth: int,
        entries: Seq<(u32, Seq<char>)>,
        n: int,
    )
        requires
            in_order(st.found),
            self.all_deleted(src, st.found),
        ensures
            in_order(self.after_entries(src, st, path, depth, entries, n).found),
            self.all_deleted(src, self.after_entries(src, st, path, depth, entries, n).found),
        decreases n,
    {
        if n > 0 {
            self.lemma_after_entries(src, st, path, depth, entries, n - 1);
            let before = self.after_entries(src, st, path, depth, entries, n - 1);
            let e = entries[n - 1];
            let name = sanitized(e.1);
            let f = FoundView { ino: e.0, path: joined(path, name), name };
            if let Some(Some(child)) = self.inode(src, e.0) {
                if is_reg(child) && is_deleted(child) {
                    self.lemma_with_found(src, before.found, f);
                }
            }
        }
    }

    proof fn lemma_after_steps(&self, src: Source, index: Map<u64, Seq<u64>>, n: nat)
        ensures
            in_order(self.after_steps(src, index, n).found),
            self.all_deleted(src, self.after_steps(src, index, n).found),
        decreases n,
    {
        if n > 0 {
            self.lemma_after_steps(src, index, (n - 1) as nat);
            let st = self.after_steps(src, index, (n - 1) as nat);
            if st.stack.len() > 0 {
                let (ino, path, depth) = st.stack.last();
                let next = WalkState {
                    visited: st.visited.insert(ino),
                    stack: st.stack.drop_last(),
                    ..st
                };
                if let Some(inode) = self.directory(src, index, ino) {
                    let entries = self.all_listed(src, index, inode);
                    self.lemma_after_entries(
                        src,
                        next,
                        path,
                        depth,
                        entries,
                        entries.len() as int,
                    );
                }
            }
        }
    }

    /// The files that a walk finds are regular files whose live inodes say that they were deleted, each inode
    /// once, in the order of their numbers.
    pub proof fn law_walk_finds_deleted(&self, src: Source, index: Map<u64, Seq<u64>>)
        ensures
            in_order(self.walked(src, index)),
            self.all_deleted(src, self.walked(src, index)),
    {
        self.lemma_after_steps(src, index, choose|n: nat| self.walk_ends(src, index, n));
    }

    /// Of the journaled copies of an inode that can be used, the one that is chosen has the latest change time.
    pub proof fn law_best_copy_is_newest(
        &self,
        src: Source,
        copies: Seq<u64>,
        n: int,
        within: int,
        k: int,
    )
        requires
            0 <= k < n <= copies.len(),
        ensures
            self.inode_in(self.block(src, copies[k] as int), within) matches Some(i) ==> (
            self.best_copy(src, copies, n, within) matches Some(best) && le32(best, 0xC) >= le32(
                i,
                0xC,
            )),
        decreases n,
    {
        if k < n - 1 {
            self.law_best_copy_is_newest(src, copies, n - 1, within, k);
        }
    }

    /// What is read of a file is no more than its size, and no more than the image holds.
    pub proof fn law_content_bounded(&self, src: Source, inode: Seq<u8>, size: int)
        requires
            self.wf(),
            0 <= size,
        ensures
            self.content(src, inode, size) matches Some(d) ==> d.len() <= size && d.len() <= src@.len(),
    {
        let n = smaller(size, src@.len() as int);
        if let Some(blocks) = self.mapped(src, inode, ceil(n, self.block_size as int)) {
            self.lemma_content_from(src, blocks, 0, n, Seq::empty());
        }
    }

    proof fn lemma_content_from(
        &self,
        src: Source,
        blocks: Seq<u64>,
        i: int,
        size: int,
        out: Seq<u8>,
    )
        requires
            self.wf(),
            out.len() <= size,
        ensures
            self.content_from(src, blocks, i, size, out) matches Some(d) ==> d.len() <= size,
        decreases blocks.len() - i,
    {
        if i < blocks.len() && out.len() < size {
            let take = smaller(size - out.len(), self.block_size as int);
            if blocks[i] == 0 {
                self.lemma_content_from(
                    src,
                    blocks,
                    i + 1,
                    size,
                    out + Seq::new(take as nat, |k: int| 0u8),
                );
            } else if let Some(d) = src.fetch(self.offset + blocks[i] * self.block_size, take) {
                if d.len() >= take {
                    self.lemma_content_from(src, blocks, i + 1, size, out + d);
                }
            }
        }
    }

    /// Every file that is found and asked for is accounted for once, as recovered or as skipped, and a run
    /// that only says what can be recovered accounts for as many.
    pub proof fn law_accounted(
        &self,
        src: Source,
        index: Map<u64, Seq<u64>>,
        opts: RecoverOptions,
        dry: RecoverOptions,
        found: Seq<FoundView>,
        n: int,
    )
        requires
            dry == (RecoverOptions { dry_run: true, ..opts }),
            0 <= n,
        ensures
            ({
                let a = self.recovered(src, index, opts, found, n);
                let b = self.recovered(src, index, dry, found, n);
                &&& a.files.len() + a.skipped.len() <= n
                &&& a.files.len() + a.skipped.len() == b.files.len() + b.skipped.len()
                &&& a.files.len() <= b.files.len()
            }),
        decreases n,
    {
        if n > 0 {
            self.law_accounted(src, index, opts, dry, found, n - 1);
        }
    }
}

} // verus!
