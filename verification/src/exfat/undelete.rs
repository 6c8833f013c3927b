//! The walk over directories, and the recovery of what was deleted from them.

use crate::bytes::{capped, larger, min_u64, smaller};
use crate::exfat::entries::{
    item_views, items_from, parse_entry_sets, Item, ItemView,
};
use crate::exfat::Volume;
use crate::recover::{
    is_jpeg_name, join_path, joined, lemma_u32_set, looks_like_jpeg_name, sanitize_component,
    sanitized, RecoverOptions, RecoverStats, RecoveredView, Recovery, VolumeError,
};
use crate::source::{ReadError, Source};
use std::collections::HashSet;
use vstd::prelude::*;

verus! {

broadcast use vstd::std_specs::hash::group_hash_axioms;

/// How deep directories are walked.
pub const MAX_DIR_DEPTH: usize = 64;

/// How many clusters in a row are passed over because they cannot come next.
pub const MAX_TRIES: u32 = 4096;

/// A deleted file to recover.
pub struct DeletedFile {
    pub path: String,
    pub name: String,
    pub first_cluster: u32,
    pub data_length: u64,
    pub no_fat_chain: bool,
    pub mtime: Option<u64>,
    pub atime: Option<u64>,
}

/// What is said of a deleted file.
#[verifier::ext_equal]
pub struct DeletedView {
    pub path: Seq<char>,
    pub name: Seq<char>,
    pub first_cluster: u32,
    pub data_length: u64,
    pub no_fat_chain: bool,
    pub mtime: Option<u64>,
    pub atime: Option<u64>,
}

impl View for DeletedFile {
    type V = DeletedView;

    open spec fn view(&self) -> DeletedView {
        DeletedView {
            path: self.path@,
            name: self.name@,
            first_cluster: self.first_cluster,
            data_length: self.data_length,
            no_fat_chain: self.no_fat_chain,
            mtime: self.mtime,
            atime: self.atime,
        }
    }
}

/// What is said of deleted files.
pub open spec fn deleted_views(v: Seq<DeletedFile>) -> Seq<DeletedView> {
    v.map_values(|f: DeletedFile| f@)
}

/// A directory that is to be walked.
pub struct Pending {
    pub cluster: u32,
    pub len: Option<u64>,
    pub contiguous: bool,
    pub path: String,
    pub depth: usize,
    /// Whether the directory itself is deleted.
    pub gone: bool,
}

/// What is said of a directory that is to be walked.
#[verifier::ext_equal]
pub struct PendingView {
    pub cluster: u32,
    pub len: Option<u64>,
    pub contiguous: bool,
    pub path: Seq<char>,
    pub depth: int,
    pub gone: bool,
}

impl View for Pending {
    type V = PendingView;

    open spec fn view(&self) -> PendingView {
        PendingView {
            cluster: self.cluster,
            len: self.len,
            contiguous: self.contiguous,
            path: self.path@,
            depth: self.depth as int,
            gone: self.gone,
        }
    }
}

/// What is said of directories that are to be walked.
pub open spec fn pending_views(v: Seq<Pending>) -> Seq<PendingView> {
    v.map_values(|p: Pending| p@)
}

/// How far a walk has come: the directories that are to be walked, the last first; those that were walked; and
/// the deleted files that were found.
#[verifier::ext_equal]
pub struct WalkState {
    pub stack: Seq<PendingView>,
    pub visited: Set<u32>,
    pub found: Seq<DeletedView>,
}

impl Volume {
    /// The state in which a walk begins.
    pub open spec fn walk_start(&self) -> WalkState {
        WalkState {
            stack: seq![
                PendingView {
                    cluster: self.root_cluster,
                    len: None,
                    contiguous: false,
                    path: Seq::empty(),
                    depth: 0,
                    gone: false,
                },
            ],
            visited: Set::empty(),
            found: Seq::empty(),
        }
    }

    /// The state after an entry set of the directory `dir`. Deleted directories are descended as well: removing a
    /// folder tree marks its entries deleted before the folder itself, and the folder's clusters keep them until
    /// reused. Under a deleted folder every entry counts as deleted.
    pub open spec fn after_item(&self, st: WalkState, dir: PendingView, item: ItemView) -> WalkState {
        let gone = item.deleted || dir.gone;
        let name = sanitized(item.name);
        let path = joined(dir.path, name);
        if item.is_dir {
            if dir.depth < MAX_DIR_DEPTH && self.is_cluster(item.first_cluster)
                && !st.visited.contains(item.first_cluster) {
                WalkState {
                    stack: st.stack.push(
                        PendingView {
                            cluster: item.first_cluster,
                            len: Some(item.data_length),
                            contiguous: item.no_fat_chain,
                            path,
                            depth: dir.depth + 1,
                            gone,
                        },
                    ),
                    ..st
                }
            } else {
                st
            }
        } else if gone {
            WalkState {
                found: st.found.push(
                    DeletedView {
                        path,
                        name,
                        first_cluster: item.first_cluster,
                        data_length: item.data_length,
                        no_fat_chain: item.no_fat_chain,
                        mtime: item.mtime,
                        atime: item.atime,
                    },
                ),
                ..st
            }
        } else {
            st
        }
    }

    /// The state after the first `n` entry sets of a directory.
    pub open spec fn after_items(
        &self,
        st: WalkState,
        dir: PendingView,
        items: Seq<ItemView>,
        n: int,
    ) -> WalkState
        decreases n,
    {
        if n <= 0 {
            st
        } else {
            self.after_item(self.after_items(st, dir, items, n - 1), dir, items[n - 1])
        }
    }

    /// The state after the next directory. One that was walked before, or that cannot be read, is left out.
    pub open spec fn after_directory(&self, src: Source, st: WalkState) -> WalkState {
        if st.stack.len() == 0 {
            st
        } else {
            let dir = st.stack.last();
            let rest = WalkState { stack: st.stack.drop_last(), ..st };
            if st.visited.contains(dir.cluster) {
                rest
            } else {
                let next = WalkState { visited: st.visited.insert(dir.cluster), ..rest };
                match self.directory(src, dir.cluster, dir.len, dir.contiguous) {
                    None => next,
                    Some(b) => {
                        let items = items_from(b, 0);
                        self.after_items(next, dir, items, items.len() as int)
                    },
                }
            }
        }
    }

    /// The state after `n` directories.
    pub open spec fn after_steps(&self, src: Source, n: nat) -> WalkState
        decreases n,
    {
        if n == 0 {
            self.walk_start()
        } else {
            self.after_directory(src, self.after_steps(src, (n - 1) as nat))
        }
    }

    /// A walk is over after `n` directories.
    pub open spec fn walk_ends(&self, src: Source, n: nat) -> bool {
        self.after_steps(src, n).stack.len() == 0
    }

    /// The deleted files that a walk finds.
    pub open spec fn walked(&self, src: Source) -> Seq<DeletedView> {
        self.after_steps(src, choose|n: nat| self.walk_ends(src, n)).found
    }

    /// Once a walk is over nothing changes.
    proof fn lemma_walk_over(&self, src: Source, a: nat, b: nat)
        requires
            a <= b,
            self.walk_ends(src, a),
        ensures
            self.after_steps(src, b) == self.after_steps(src, a),
        decreases b - a,
    {
        if a < b {
            self.lemma_walk_over(src, a, (b - 1) as nat);
        }
    }

    /// A walk finds the same, whenever it is over.
    proof fn lemma_walked(&self, src: Source, n: nat)
        requires
            self.walk_ends(src, n),
        ensures
            self.walked(src) == self.after_steps(src, n).found,
    {
        let m = choose|m: nat| self.walk_ends(src, m);
        if m <= n {
            self.lemma_walk_over(src, m, n);
        } else {
            self.lemma_walk_over(src, n, m);
        }
    }

    /// Take up what the entry sets of a directory give.
    fn take_items(
        &self,
        items: &Vec<Item>,
        dir: &Pending,
        stack: &mut Vec<Pending>,
        visited: &HashSet<u32>,
        found: &mut Vec<DeletedFile>,
    )
        requires
            dir.depth <= MAX_DIR_DEPTH,
            forall|i: int|
                0 <= i < old(stack)@.len() ==> (#[trigger] old(stack)@[i]).depth <= MAX_DIR_DEPTH,
        ensures
            (WalkState {
                stack: pending_views(final(stack)@),
                visited: visited@,
                found: deleted_views(final(found)@),
            }) == self.after_items(
                (WalkState {
                    stack: pending_views(old(stack)@),
                    visited: visited@,
                    found: deleted_views(old(found)@),
                }),
                dir@,
                item_views(items@),
                items@.len() as int,
            ),
            forall|i: int|
                0 <= i < final(stack)@.len() ==> (#[trigger] final(stack)@[i]).depth
                    <= MAX_DIR_DEPTH,
    {
        let ghost st = WalkState {
            stack: pending_views(stack@),
            visited: visited@,
            found: deleted_views(found@),
        };
        let mut k: usize = 0;
        while k < items.len()
            invariant
                k <= items@.len(),
                dir.depth <= MAX_DIR_DEPTH,
                (WalkState {
                    stack: pending_views(stack@),
                    visited: visited@,
                    found: deleted_views(found@),
                }) == self.after_items(st, dir@, item_views(items@), k as int),
                forall|i: int|
                    0 <= i < stack@.len() ==> (#[trigger] stack@[i]).depth <= MAX_DIR_DEPTH,
            decreases items@.len() - k,
        {
            let item = &items[k];
            let ghost now = WalkState {
                stack: pending_views(stack@),
                visited: visited@,
                found: deleted_views(found@),
            };
            assert(item_views(items@)[k as int] == item@);
            let gone = item.deleted || dir.gone;
            if item.is_dir {
                if dir.depth < MAX_DIR_DEPTH && item.first_cluster >= 2 && item.first_cluster
                    <= self.max_valid_cluster() && !visited.contains(&item.first_cluster) {
                    let name = sanitize_component(item.name.as_str());
                    let path = join_path(dir.path.as_str(), name.as_str());
                    let ghost before = stack@;
                    let p = Pending {
                        cluster: item.first_cluster,
                        len: Some(item.data_length),
                        contiguous: item.no_fat_chain,
                        path,
                        depth: dir.depth + 1,
                        gone,
                    };
                    let ghost v = p@;
                    stack.push(p);
                    assert(pending_views(stack@) =~= pending_views(before).push(v));
                }
            } else if gone {
                let name = sanitize_component(item.name.as_str());
                let path = join_path(dir.path.as_str(), name.as_str());
                let ghost before = found@;
                let f = DeletedFile {
                    path,
                    name,
                    first_cluster: item.first_cluster,
                    data_length: item.data_length,
                    no_fat_chain: item.no_fat_chain,
                    mtime: item.mtime,
                    atime: item.atime,
                };
                let ghost v = f@;
                found.push(f);
                assert(deleted_views(found@) =~= deleted_views(before).push(v));
            }
            assert((WalkState {
                stack: pending_views(stack@),
                visited: visited@,
                found: deleted_views(found@),
            }) =~= self.after_item(now, dir@, item@));
            k += 1;
        }
    }

    /// Walk directories from the root, live and deleted, collecting deleted files.
    pub fn walk(&self, src: &Source) -> (r: Vec<DeletedFile>)
        requires
            self.wf(),
            src.wf(),
        ensures
            deleted_views(r@) == self.walked(*src),
    {
        let mut visited: HashSet<u32> = HashSet::new();
        let mut found: Vec<DeletedFile> = Vec::new();
        let mut stack: Vec<Pending> = Vec::new();
        stack.push(
            Pending {
                cluster: self.root_cluster,
                len: None,
                contiguous: false,
                path: String::new(),
                depth: 0,
                gone: false,
            },
        );
        let ghost mut n: nat = 0;
        proof {
            assert(stack@[0].path@ =~= Seq::<char>::empty());
            assert(pending_views(stack@) =~= self.walk_start().stack);
            assert(deleted_views(found@) =~= self.walk_start().found);
        }
        loop
            invariant
                self.wf(),
                src.wf(),
                visited@.finite(),
                (WalkState {
                    stack: pending_views(stack@),
                    visited: visited@,
                    found: deleted_views(found@),
                }) == self.after_steps(*src, n),
                forall|i: int|
                    0 <= i < stack@.len() ==> (#[trigger] stack@[i]).depth <= MAX_DIR_DEPTH,
            decreases 0x1_0000_0000 - visited@.len(), stack@.len(),
        {
            let ghost st = self.after_steps(*src, n);
            let ghost before = stack@;
            let dir = match stack.pop() {
                Some(dir) => dir,
                None => {
                    proof {
                        self.lemma_walked(*src, n);
                    }
                    return found;
                },
            };
            proof {
                assert(before[before.len() - 1] == dir);
                assert(st.stack.last() == dir@);
                assert(pending_views(stack@) =~= st.stack.drop_last());
                n = n + 1;
                lemma_u32_set(visited@);
                lemma_u32_set(visited@.insert(dir.cluster));
            }
            if visited.insert(dir.cluster) {
                if let Ok(bytes) = self.read_directory(src, dir.cluster, dir.len, dir.contiguous) {
                    let items = parse_entry_sets(&bytes);
                    self.take_items(&items, &dir, &mut stack, &visited, &mut found);
                    assert(item_views(items@).len() == items@.len());
                }
            }
        }
    }
}

impl Volume {
    /// What is read of a file along its FAT chain from cluster `c` on, behind what was read before, until `len`
    /// bytes are there. A chain that leads back ends there, and so does one at the end of the image. `None` where
    /// a cluster or the FAT could not be read.
    pub open spec fn chained(
        &self,
        src: Source,
        c: u32,
        len: int,
        passed: Set<u32>,
        out: Seq<u8>,
    ) -> Option<Seq<u8>>
        decreases 0x1_0000_0000 - passed.len(),
        when passed.finite()
    {
        proof {
            lemma_u32_set(passed.insert(c));
        }
        if out.len() >= len || !self.is_cluster(c) || passed.contains(c) {
            Some(out)
        } else {
            match src.fetch(self.cluster_pos(c), smaller(len - out.len(), self.cluster_len())) {
                None => None,
                Some(d) => if d.len() == 0 {
                    Some(out)
                } else {
                    match self.next(src, c) {
                        None => None,
                        Some(None) => Some(out + d),
                        Some(Some(n)) => self.chained(src, n, len, passed.insert(c), out + d),
                    }
                },
            }
        }
    }

    /// Follow the FAT chain of a file.
    fn copy_chain(&self, src: &Source, first: u32, len: u64) -> (r: Result<Vec<u8>, ReadError>)
        requires
            self.wf(),
            src.wf(),
        ensures
            match r {
                Ok(v) => self.chained(*src, first, len as int, Set::empty(), Seq::empty()) == Some(
                    v@,
                ),
                Err(e) => self.chained(*src, first, len as int, Set::empty(), Seq::empty()) is None
                    && src.explains(e),
            },
    {
        let cb: u64 = self.cluster_bytes();
        let mut out: Vec<u8> = Vec::new();
        let mut cluster: u32 = first;
        let mut guard: HashSet<u32> = HashSet::new();
        let ghost all = self.chained(*src, first, len as int, Set::empty(), Seq::empty());
        loop
            invariant
                self.wf(),
                src.wf(),
                cb == self.cluster_len(),
                512 <= cb <= 0x200_0000,
                guard@.finite(),
                all == self.chained(*src, first, len as int, Set::empty(), Seq::empty()),
                all == self.chained(*src, cluster, len as int, guard@, out@),
            decreases 0x1_0000_0000 - guard@.len(),
        {
            proof {
                lemma_u32_set(guard@.insert(cluster));
            }
            if out.len() as u64 >= len {
                return Ok(out);
            }
            if cluster < 2 || cluster > self.max_valid_cluster() || !guard.insert(cluster) {
                return Ok(out);
            }
            let want: u64 = min_u64(len - out.len() as u64, cb);
            let mut d = src.read_at(self.cluster_offset(cluster), want as usize)?;
            if d.len() == 0 {
                return Ok(out);
            }
            out.append(&mut d);
            match self.next_cluster(src, cluster)? {
                Some(next) => {
                    cluster = next;
                },
                None => {
                    return Ok(out);
                },
            }
        }
    }

    /// A cluster that may hold what is looked for: one that the bitmap does not show allocated, and any where
    /// there is no bitmap.
    pub open spec fn is_open(bitmap: Option<Seq<u8>>, c: int) -> bool {
        match bitmap {
            Some(m) => !Self::is_allocated(m, c),
            None => true,
        }
    }

    /// The next cluster after `c` that may hold what is looked for.
    pub open spec fn next_open(&self, bitmap: Option<Seq<u8>>, c: int) -> Option<int>
        decreases self.max_cluster() - c,
    {
        if c >= self.max_cluster() {
            None
        } else if Self::is_open(bitmap, c + 1) {
            Some(c + 1)
        } else {
            self.next_open(bitmap, c + 1)
        }
    }

    /// The next cluster is after `c`.
    pub proof fn lemma_next_open(&self, bitmap: Option<Seq<u8>>, c: int)
        ensures
            self.next_open(bitmap, c) matches Some(n) ==> c < n <= self.max_cluster(),
        decreases self.max_cluster() - c,
    {
        if c < self.max_cluster() && !Self::is_open(bitmap, c + 1) {
            self.lemma_next_open(bitmap, c + 1);
        }
    }

    /// `r` is what is read of a file from cluster `c` on, behind what was read before, until `len` bytes are
    /// there, stepping over clusters that the bitmap shows allocated. Where the content is `followed`, a cluster
    /// of which `follows` answers that it cannot come next is passed over too, if a bitmap says where to go on,
    /// and the tries are not used up; otherwise the content is followed no more. The first cluster is always
    /// taken. `None` where a cluster could not be read.
    pub open spec fn gathers<F: Fn(&Vec<u8>, &Vec<u8>) -> bool>(
        &self,
        src: Source,
        bitmap: Option<Seq<u8>>,
        follows: F,
        c: Option<int>,
        len: int,
        followed: bool,
        tries: int,
        out: Seq<u8>,
        r: Option<Seq<u8>>,
    ) -> bool
        decreases
                match c {
                    Some(n) => larger(self.max_cluster() - n + 1, 0),
                    None => 0,
                },
    {
        match c {
            None => r == Some(out),
            Some(n) => {
                proof {
                    self.lemma_next_open(bitmap, n);
                }
                let next = self.next_open(bitmap, n);
                if out.len() >= len || n < 0 || n > self.max_cluster() {
                    r == Some(out)
                } else {
                    match src.fetch(
                        self.cluster_pos(n as u32),
                        smaller(len - out.len(), self.cluster_len()),
                    ) {
                        None => r is None,
                        Some(d) => if d.len() == 0 {
                            r == Some(out)
                        } else if !followed {
                            self.gathers(src, bitmap, follows, next, len, false, 0, out + d, r)
                        } else {
                            ||| can_follow(follows, out, d, true) && self.gathers(
                                src,
                                bitmap,
                                follows,
                                next,
                                len,
                                true,
                                0,
                                out + d,
                                r,
                            )
                            ||| can_follow(follows, out, d, false) && if out.len() > 0 && bitmap is Some
                                && tries < MAX_TRIES {
                                self.gathers(
                                    src,
                                    bitmap,
                                    follows,
                                    next,
                                    len,
                                    true,
                                    tries + 1,
                                    out,
                                    r,
                                )
                            } else {
                                self.gathers(src, bitmap, follows, next, len, false, 0, out + d, r)
                            }
                        },
                    }
                }
            },
        }
    }

    /// The next cluster after `c` that may hold what is looked for.
    fn find_next_open(&self, bitmap: &Option<Vec<u8>>, c: u32) -> (r: Option<u32>)
        ensures
            match r {
                Some(n) => self.next_open(bytes_view(*bitmap), c as int) == Some(n as int),
                None => self.next_open(bytes_view(*bitmap), c as int) is None,
            },
    {
        let max: u32 = self.max_valid_cluster();
        let mut n: u32 = c;
        while n < max
            invariant
                max == self.max_cluster(),
                self.next_open(bytes_view(*bitmap), c as int) == self.next_open(
                    bytes_view(*bitmap),
                    n as int,
                ),
            decreases max - n,
        {
            let open = match bitmap {
                Some(m) => !Self::cluster_allocated(m, n + 1),
                None => true,
            };
            if open {
                return Some(n + 1);
            }
            n = n + 1;
        }
        None
    }

    /// Read `len` bytes from `first` onward, skipping any cluster the bitmap marks allocated (without a bitmap
    /// this is a contiguous read).
    fn copy_skipping_allocated<F: Fn(&Vec<u8>, &Vec<u8>) -> bool>(
        &self,
        src: &Source,
        bitmap: &Option<Vec<u8>>,
        follows: &F,
        first: u32,
        len: u64,
        followed: bool,
    ) -> (r: Result<Vec<u8>, ReadError>)
        requires
            self.wf(),
            src.wf(),
            forall|a: &Vec<u8>, b: &Vec<u8>| call_requires(*follows, (a, b)),
        ensures
            self.gathers(
                *src,
                bytes_view(*bitmap),
                *follows,
                self.first_open(first),
                len as int,
                followed,
                0,
                Seq::empty(),
                read_view(r),
            ),
            r matches Err(e) ==> src.explains(e),
    {
        let cb: u64 = self.cluster_bytes();
        let max: u32 = self.max_valid_cluster();
        let mut out: Vec<u8> = Vec::new();
        let mut following = followed;
        let mut tries: u32 = 0;
        let mut cluster: Option<u32> = if first >= 2 && first <= max {
            Some(first)
        } else {
            None
        };
        let ghost map = bytes_view(*bitmap);
        loop
            invariant
                self.wf(),
                src.wf(),
                forall|a: &Vec<u8>, b: &Vec<u8>| call_requires(*follows, (a, b)),
                cb == self.cluster_len(),
                512 <= cb <= 0x200_0000,
                max == self.max_cluster(),
                map == bytes_view(*bitmap),
                tries <= MAX_TRIES,
                cluster matches Some(c) ==> c <= max,
                forall|r: Option<Seq<u8>>| #[trigger]
                    self.gathers(
                        *src,
                        map,
                        *follows,
                        number_view(cluster),
                        len as int,
                        following,
                        tries as int,
                        out@,
                        r,
                    ) ==> self.gathers(
                        *src,
                        map,
                        *follows,
                        self.first_open(first),
                        len as int,
                        followed,
                        0,
                        Seq::empty(),
                        r,
                    ),
            decreases
                    match cluster {
                        Some(c) => max - c + 1,
                        None => 0,
                    },
        {
            let ghost here = number_view(cluster);
            let ghost done = Some(out@);
            let c: u32 = match cluster {
                Some(c) => c,
                None => {
                    assert(self.gathers(
                        *src,
                        map,
                        *follows,
                        here,
                        len as int,
                        following,
                        tries as int,
                        out@,
                        done,
                    ));
                    return Ok(out);
                },
            };
            if out.len() as u64 >= len {
                assert(self.gathers(
                    *src,
                    map,
                    *follows,
                    here,
                    len as int,
                    following,
                    tries as int,
                    out@,
                    done,
                ));
                return Ok(out);
            }
            proof {
                self.lemma_next_open(map, c as int);
            }
            let want: u64 = min_u64(len - out.len() as u64, cb);
            let d = match src.read_at(self.cluster_offset(c), want as usize) {
                Ok(d) => d,
                Err(e) => {
                    assert(self.gathers(
                        *src,
                        map,
                        *follows,
                        here,
                        len as int,
                        following,
                        tries as int,
                        out@,
                        None::<Seq<u8>>,
                    ));
                    return Err(e);
                },
            };
            if d.len() == 0 {
                assert(self.gathers(
                    *src,
                    map,
                    *follows,
                    here,
                    len as int,
                    following,
                    tries as int,
                    out@,
                    done,
                ));
                return Ok(out);
            }
            let next = self.find_next_open(bitmap, c);
            let ghost out0 = out@;
            let ghost following0 = following;
            let ghost tries0 = tries as int;
            let ghost piece = d@;
            let mut pass = false;
            if following {
                let yes = follows(&out, &d);
                assert(call_ensures(*follows, (&out, &d), yes));
                assert(can_follow(*follows, out@, d@, yes));
                if !yes {
                    if out.len() > 0 && bitmap.is_some() && tries < MAX_TRIES {
                        pass = true;
                    } else {
                        following = false;
                    }
                }
            }
            if pass {
                tries = tries + 1;
            } else {
                let mut d = d;
                out.append(&mut d);
                tries = 0;
            }
            cluster = next;
            assert forall|r: Option<Seq<u8>>| #[trigger]
                self.gathers(
                    *src,
                    map,
                    *follows,
                    number_view(cluster),
                    len as int,
                    following,
                    tries as int,
                    out@,
                    r,
                ) implies self.gathers(
                *src,
                map,
                *follows,
                self.first_open(first),
                len as int,
                followed,
                0,
                Seq::empty(),
                r,
            ) by {
                assert(self.gathers(
                    *src,
                    map,
                    *follows,
                    here,
                    len as int,
                    following0,
                    tries0,
                    out0,
                    r,
                ));
            }
        }
    }

    /// Where the search for a file begins.
    pub open spec fn first_open(&self, first: u32) -> Option<int> {
        if self.is_cluster(first) {
            Some(first as int)
        } else {
            None
        }
    }
}

impl Volume {
    /// A file can be looked for: it has bytes, and lies in the volume as far as that can be told.
    pub open spec fn is_placed(&self, f: DeletedView) -> bool {
        let size = self.volume_length_sectors * self.bytes_per_sector;
        &&& f.data_length > 0
        &&& self.is_cluster(f.first_cluster)
        &&& f.data_length <= size
        &&& f.no_fat_chain ==> capped(self.cluster_pos(f.first_cluster) + f.data_length) <= capped(
            self.offset + size,
        )
    }

    /// `r` is what is read of a deleted file: the bytes from its first cluster on, where it is contiguous; those
    /// of its FAT chain, where that is complete; else those that the bitmap leaves, the content of a JPEG file
    /// being followed. `None` where a cluster or the FAT could not be read.
    pub open spec fn reads<F: Fn(&Vec<u8>, &Vec<u8>) -> bool>(
        &self,
        src: Source,
        bitmap: Option<Seq<u8>>,
        follows: F,
        f: DeletedView,
        r: Option<Seq<u8>>,
    ) -> bool {
        let len = f.data_length as int;
        if f.no_fat_chain {
            r == src.fetch(self.cluster_pos(f.first_cluster), len)
        } else {
            match self.chained(src, f.first_cluster, len, Set::empty(), Seq::empty()) {
                None => r is None,
                Some(d) => if d.len() >= len {
                    r == Some(d)
                } else {
                    self.gathers(
                        src,
                        bitmap,
                        follows,
                        self.first_open(f.first_cluster),
                        len,
                        is_jpeg_name(f.name),
                        0,
                        Seq::empty(),
                        r,
                    )
                },
            }
        }
    }

    /// A deleted file is among those that are asked for.
    pub open spec fn asked_for(opts: RecoverOptions, f: DeletedView) -> bool {
        opts.wants_size(f.data_length as int) && opts.wants_time(f.mtime) && opts.wants_name(f.name)
    }

    /// What comes of a deleted file of which `got` is read.
    pub open spec fn with_deleted(
        &self,
        opts: RecoverOptions,
        rec: Recovery,
        f: DeletedView,
        got: Option<Seq<u8>>,
    ) -> Recovery {
        let file = RecoveredView {
            path: f.path,
            size: f.data_length as int,
            content: None,
            modified: f.mtime,
            accessed: f.atime,
        };
        if !Self::asked_for(opts, f) {
            rec
        } else if !self.is_placed(f) {
            rec.with_skipped(f.path, f.data_length as int)
        } else if opts.dry_run {
            rec.with_file(file)
        } else {
            match got {
                Some(d) if d.len() > 0 => rec.with_file(
                    RecoveredView { size: d.len() as int, content: Some(d), ..file },
                ),
                _ => rec.with_skipped(f.path, f.data_length as int),
            }
        }
    }

    /// What comes of the first `n` deleted files of which `got` is read.
    pub open spec fn recovered(
        &self,
        opts: RecoverOptions,
        found: Seq<DeletedView>,
        got: Seq<Option<Seq<u8>>>,
        n: int,
    ) -> Recovery
        decreases n,
    {
        if n <= 0 {
            Recovery::none()
        } else {
            self.with_deleted(
                opts,
                self.recovered(opts, found, got, n - 1),
                found[n - 1],
                got[n - 1],
            )
        }
    }

    /// The bitmap that recovery goes by, where there is one that can be read.
    pub open spec fn known_bitmap(&self, src: Source) -> Option<Seq<u8>> {
        match self.bitmap(src) {
            Some(m) => m,
            None => None,
        }
    }

    /// `got` is what is read of each of the first `n` deleted files that are read.
    pub open spec fn all_read<F: Fn(&Vec<u8>, &Vec<u8>) -> bool>(
        &self,
        src: Source,
        follows: F,
        opts: RecoverOptions,
        found: Seq<DeletedView>,
        got: Seq<Option<Seq<u8>>>,
        n: int,
    ) -> bool {
        got.len() == n && forall|i: int|
            0 <= i < n && Self::asked_for(opts, found[i]) && self.is_placed(found[i])
                && !opts.dry_run ==> #[trigger] self.reads(
                src,
                self.known_bitmap(src),
                follows,
                found[i],
                got[i],
            )
    }

    /// `rec` is what comes of all deleted files, `got` being what is read of each.
    pub open spec fn recovers<F: Fn(&Vec<u8>, &Vec<u8>) -> bool>(
        &self,
        src: Source,
        follows: F,
        opts: RecoverOptions,
        got: Seq<Option<Seq<u8>>>,
        rec: Recovery,
    ) -> bool {
        let found = self.walked(src);
        &&& self.all_read(src, follows, opts, found, got, found.len() as int)
        &&& rec == self.recovered(opts, found, got, found.len() as int)
    }

    fn valid_extent(&self, f: &DeletedFile) -> (r: bool)
        requires
            self.wf(),
        ensures
            r == self.is_placed(f@),
    {
        let size: u64 = self.size();
        let ghost whole = self.volume_length_sectors * self.bytes_per_sector;
        assert(whole >= 0) by (nonlinear_arith)
            requires
                whole == self.volume_length_sectors * self.bytes_per_sector,
        ;
        if f.data_length == 0 {
            return false;
        }
        if f.first_cluster < 2 || f.first_cluster > self.max_valid_cluster() {
            return false;
        }
        if f.data_length > size {
            return false;
        }
        if f.no_fat_chain {
            let start: u64 = self.cluster_offset(f.first_cluster);
            if start.saturating_add(f.data_length) > self.offset.saturating_add(size) {
                return false;
            }
        }
        true
    }

    /// Read a deleted file: contiguously, or following the FAT chain when present and stepping over the clusters
    /// of live files otherwise.
    fn read_file<F: Fn(&Vec<u8>, &Vec<u8>) -> bool>(
        &self,
        src: &Source,
        f: &DeletedFile,
        bitmap: &Option<Vec<u8>>,
        follows: &F,
    ) -> (r: Result<Vec<u8>, ReadError>)
        requires
            self.wf(),
            src.wf(),
            forall|a: &Vec<u8>, b: &Vec<u8>| call_requires(*follows, (a, b)),
        ensures
            self.reads(*src, bytes_view(*bitmap), *follows, f@, read_view(r)),
            r matches Err(e) ==> src.explains(e),
    {
        let len: u64 = f.data_length;
        if f.no_fat_chain {
            let at: u64 = self.cluster_offset(f.first_cluster);
            let take: u64 = min_u64(len, src.size());
            proof {
                if len >= src@.len() {
                    src.lemma_fetch_all(at as int, len as int);
                }
            }
            return src.read_at(at, take as usize);
        }
        let chain = self.copy_chain(src, f.first_cluster, len)?;
        if chain.len() as u64 >= len {
            return Ok(chain);
        }
        let followed = looks_like_jpeg_name(f.name.as_str());
        self.copy_skipping_allocated(src, bitmap, follows, f.first_cluster, len, followed)
    }

    /// Recover all deleted files. `follows` answers whether a piece can come next after what was read of a JPEG
    /// file.
    ///
    /// A deleted file's chain may be gone, but the clusters still allocated to other files say where it cannot
    /// be.
    pub fn recover_deleted<F: Fn(&Vec<u8>, &Vec<u8>) -> bool>(
        &self,
        src: &Source,
        opts: &RecoverOptions,
        follows: &F,
    ) -> (r: Result<RecoverStats, VolumeError>)
        requires
            self.wf(),
            src.wf(),
            forall|a: &Vec<u8>, b: &Vec<u8>| call_requires(*follows, (a, b)),
        ensures
            r matches Ok(s) && s.wf(),
            exists|got: Seq<Option<Seq<u8>>>| #[trigger]
                self.recovers(*src, *follows, *opts, got, r->Ok_0@),
    {
        let found = self.walk(src);
        let ghost views = deleted_views(found@);
        let ghost mut got: Seq<Option<Seq<u8>>> = Seq::empty();
        let bitmap = match self.read_bitmap(src) {
            Ok(m) => m,
            Err(_) => None,
        };
        let mut stats = RecoverStats::new();
        let mut i: usize = 0;
        while i < found.len()
            invariant
                self.wf(),
                src.wf(),
                forall|a: &Vec<u8>, b: &Vec<u8>| call_requires(*follows, (a, b)),
                stats.wf(),
                i <= found@.len(),
                views == deleted_views(found@),
                bytes_view(bitmap) == self.known_bitmap(*src),
                self.all_read(*src, *follows, *opts, views, got, i as int),
                stats@ == self.recovered(*opts, views, got, i as int),
            decreases found@.len() - i,
        {
            let f = &found[i];
            assert(views[i as int] == f@);
            let ghost mut read: Option<Seq<u8>> = None;
            let ghost before = got;
            if opts.size_ok(f.data_length) && opts.time_ok(f.mtime) && opts.name_ok(
                f.name.as_str(),
            ) {
                if !self.valid_extent(f) {
                    stats.record_skipped(f.path.clone(), f.data_length);
                } else if opts.dry_run {
                    stats.record_recoverable(f.path.clone(), f.data_length, f.mtime, f.atime);
                } else {
                    let content = self.read_file(src, f, &bitmap, follows);
                    proof {
                        read = read_view(content);
                    }
                    match content {
                        Ok(d) => {
                            if d.len() > 0 {
                                let size: u64 = d.len() as u64;
                                stats.record_recovered(f.path.clone(), size, d, f.mtime, f.atime);
                            } else {
                                stats.record_skipped(f.path.clone(), f.data_length);
                            }
                        },
                        Err(_) => {
                            stats.record_skipped(f.path.clone(), f.data_length);
                        },
                    }
                }
            }
            proof {
                got = before.push(read);
                self.lemma_recovered_frame(*opts, views, before, got, i as int);
                assert(got[i as int] == read);
                assert forall|k: int|
                    0 <= k < i + 1 && Self::asked_for(*opts, views[k]) && self.is_placed(views[k])
                        && !opts.dry_run implies #[trigger] self.reads(
                    *src,
                    self.known_bitmap(*src),
                    *follows,
                    views[k],
                    got[k],
                ) by {
                    if k < i {
                        assert(got[k] == before[k]);
                        assert(self.reads(
                            *src,
                            self.known_bitmap(*src),
                            *follows,
                            views[k],
                            before[k],
                        ));
                    }
                }
            }
            i += 1;
        }
        let r: Result<RecoverStats, VolumeError> = Ok(stats);
        assert(self.recovers(*src, *follows, *opts, got, r->Ok_0@));
        r
    }

    /// What is read of later files does not matter.
    proof fn lemma_recovered_frame(
        &self,
        opts: RecoverOptions,
        found: Seq<DeletedView>,
        a: Seq<Option<Seq<u8>>>,
        b: Seq<Option<Seq<u8>>>,
        n: int,
    )
        requires
            forall|i: int| 0 <= i < n ==> #[trigger] a[i] == b[i],
        ensures
            self.recovered(opts, found, a, n) == self.recovered(opts, found, b, n),
        decreases n,
    {
        if n > 0 {
            self.lemma_recovered_frame(opts, found, a, b, n - 1);
            assert(a[n - 1] == b[n - 1]);
        }
    }

    /// What is read along a chain is no more than what is asked for.
    proof fn lemma_chained(
        &self,
        src: Source,
        c: u32,
        len: int,
        passed: Set<u32>,
        out: Seq<u8>,
    )
        requires
            self.wf(),
            passed.finite(),
            out.len() <= len,
        ensures
            self.chained(src, c, len, passed, out) matches Some(d) ==> d.len() <= len,
        decreases 0x1_0000_0000 - passed.len(),
    {
        lemma_u32_set(passed.insert(c));
        if out.len() < len && self.is_cluster(c) && !passed.contains(c) {
            self.lemma_bounds(0);
            if let Some(d) = src.fetch(
                self.cluster_pos(c),
                smaller(len - out.len(), self.cluster_len()),
            ) {
                if let Some(Some(n)) = self.next(src, c) {
                    self.lemma_chained(src, n, len, passed.insert(c), out + d);
                }
            }
        }
    }

    /// What is gathered is no more than what is asked for.
    proof fn lemma_gathers<F: Fn(&Vec<u8>, &Vec<u8>) -> bool>(
        &self,
        src: Source,
        bitmap: Option<Seq<u8>>,
        follows: F,
        c: Option<int>,
        len: int,
        followed: bool,
        tries: int,
        out: Seq<u8>,
        r: Seq<u8>,
    )
        requires
            self.wf(),
            out.len() <= len,
            self.gathers(src, bitmap, follows, c, len, followed, tries, out, Some(r)),
        ensures
            r.len() <= len,
        decreases
                match c {
                    Some(n) => larger(self.max_cluster() - n + 1, 0),
                    None => 0,
                },
    {
        if let Some(n) = c {
            self.lemma_bounds(0);
            self.lemma_next_open(bitmap, n);
            let next = self.next_open(bitmap, n);
            if out.len() < len && 0 <= n <= self.max_cluster() {
                if let Some(d) = src.fetch(
                    self.cluster_pos(n as u32),
                    smaller(len - out.len(), self.cluster_len()),
                ) {
                    if d.len() > 0 {
                        if self.gathers(src, bitmap, follows, next, len, false, 0, out + d, Some(r)) {
                            self.lemma_gathers(src, bitmap, follows, next, len, false, 0, out + d, r);
                        } else if self.gathers(
                            src,
                            bitmap,
                            follows,
                            next,
                            len,
                            true,
                            0,
                            out + d,
                            Some(r),
                        ) {
                            self.lemma_gathers(src, bitmap, follows, next, len, true, 0, out + d, r);
                        } else {
                            self.lemma_gathers(
                                src,
                                bitmap,
                                follows,
                                next,
                                len,
                                true,
                                tries + 1,
                                out,
                                r,
                            );
                        }
                    }
                }
            }
        }
    }

    /// What is recovered of a file is no more than its entry says.
    pub proof fn law_content_bounded<F: Fn(&Vec<u8>, &Vec<u8>) -> bool>(
        &self,
        src: Source,
        bitmap: Option<Seq<u8>>,
        follows: F,
        f: DeletedView,
        r: Seq<u8>,
    )
        requires
            self.wf(),
            self.reads(src, bitmap, follows, f, Some(r)),
        ensures
            r.len() <= f.data_length,
    {
        let len = f.data_length as int;
        self.lemma_bounds(f.first_cluster as int);
        self.lemma_bounds(larger(f.first_cluster - 2, 0));
        if !f.no_fat_chain {
            self.lemma_chained(src, f.first_cluster, len, Set::empty(), Seq::empty());
            if let Some(d) = self.chained(src, f.first_cluster, len, Set::empty(), Seq::empty()) {
                if d.len() < len {
                    self.lemma_gathers(
                        src,
                        bitmap,
                        follows,
                        self.first_open(f.first_cluster),
                        len,
                        is_jpeg_name(f.name),
                        0,
                        Seq::empty(),
                        r,
                    );
                }
            }
        }
    }

    /// Every deleted file that is asked for is accounted for once, as recovered or as skipped, and a run that only
    /// says what can be recovered accounts for as many.
    pub proof fn law_accounted(
        &self,
        opts: RecoverOptions,
        dry: RecoverOptions,
        found: Seq<DeletedView>,
        got: Seq<Option<Seq<u8>>>,
        other: Seq<Option<Seq<u8>>>,
        n: int,
    )
        requires
            dry == (RecoverOptions { dry_run: true, ..opts }),
            0 <= n,
        ensures
            ({
                let a = self.recovered(opts, found, got, n);
                let b = self.recovered(dry, found, other, n);
                &&& a.files.len() + a.skipped.len() <= n
                &&& a.files.len() + a.skipped.len() == b.files.len() + b.skipped.len()
                &&& a.files.len() <= b.files.len()
            }),
        decreases n,
    {
        if n > 0 {
            self.law_accounted(opts, dry, found, got, other, n - 1);
        }
    }
}

/// `yes` is an answer of `follows` to whether a piece can come next after what was read.
pub open spec fn can_follow<F: Fn(&Vec<u8>, &Vec<u8>) -> bool>(
    follows: F,
    out: Seq<u8>,
    piece: Seq<u8>,
    yes: bool,
) -> bool {
    exists|a: &Vec<u8>, b: &Vec<u8>|
        a@ == out && b@ == piece && #[trigger] call_ensures(follows, (a, b), yes)
}

/// What was read, or nothing where it could not be.
pub open spec fn read_view(r: Result<Vec<u8>, ReadError>) -> Option<Seq<u8>> {
    match r {
        Ok(v) => Some(v@),
        Err(_) => None,
    }
}

/// What optional bytes say.
pub open spec fn bytes_view(b: Option<Vec<u8>>) -> Option<Seq<u8>> {
    match b {
        Some(v) => Some(v@),
        None => None,
    }
}

/// An optional number as an integer.
pub open spec fn number_view(n: Option<u32>) -> Option<int> {
    match n {
        Some(v) => Some(v as int),
        None => None,
    }
}

} // verus!
