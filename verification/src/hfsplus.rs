//! Filesystem-aware recovery for HFS+ / HFSX volumes (Mac-formatted media).
//!
//! HFS+ keeps every file and folder in the **catalog file**, a B-tree whose leaf nodes hold one record per
//! object (its name, CNID, and the data fork's first eight extents inline). When a file is deleted, its catalog
//! record is removed from the leaf node and the records after it are shifted down — but the bytes of the
//! removed record usually remain in the node's *free space* until the node is next rewritten, and the data
//! fork's allocation blocks stay put until reused. This is the HFS+ analogue of ext directory-slack recovery.
//!
//! This backend reads the catalog file, walks every leaf node, and scans the free space below the live records
//! for stale **file records** that pass a strict structural check. For each one it reconstructs the file with
//! its original name and **folder path** (rebuilt from the live folder hierarchy via each record's parent
//! CNID), following the eight extents stored inline in the catalog record and, for a file fragmented beyond
//! them, the remaining extents from the **extents-overflow B-tree** (keyed by the file's CNID).
//!
//! ## The journal
//!
//! That free-space scavenging is what a bare HFS+ volume offers. A **journaled** volume (every Mac since 10.3
//! formats one) is different in practice: macOS rewrites a leaf node cleanly when a record is removed, so
//! nothing is left in the node's free space. What does survive is the **journal**: a circular buffer of
//! whole-block copies of every metadata block written recently, including catalog leaf nodes as they were
//! *before* the deletion. This backend therefore also scans the journal for stale catalog leaf nodes and treats
//! any file record in them whose CNID is no longer live as a deleted file, keeping the newest copy of each.
//!
//! ## What this cannot do
//!
//! A file whose tail extents are not recorded in the extents-overflow tree — because that tree was itself
//! rewritten after deletion — cannot be fully reconstructed and is reported as skipped rather than written
//! truncated. Files whose catalog record has already been overwritten in the node's free space are gone — fall
//! back to carving.

pub mod laws;
pub mod lists;
pub mod records;
pub mod undelete;

use crate::bytes::{
    be16, be32, be64, bit_at, capped, has_bit, larger, min_u64, mul_capped, rd_be16, rd_be32, rd_be64,
    smaller,
};
use crate::recover::{
    add_run, free_runs, in_runs, law_free_runs, lemma_same_starts, VolumeError,
};
use crate::source::{ReadError, Source};
use vstd::prelude::*;
use vstd::string::*;

verus! {

/// The HFS+ volume header sits 1024 bytes into the volume.
pub const VOLUME_HEADER_OFFSET: u64 = 1024;

/// "H+".
pub const SIG_HFSPLUS: u16 = 0x482B;

/// "HX".
pub const SIG_HFSX: u16 = 0x4858;

/// Old HFS master-directory-block signature (`"BD"`). When such a volume embeds an HFS+ volume (the "HFS
/// wrapper" used on old Mac media and hybrid CDs), it is transparently followed to the embedded volume.
pub const SIG_HFS: u16 = 0x4244;

/// Seconds between the HFS epoch (1904-01-01) and the Unix epoch (1970-01-01).
pub const HFS_EPOCH_OFFSET: u32 = 2_082_844_800;

/// Cap on the catalog bytes read into memory, to bound work/allocations.
pub const MAX_CATALOG: u64 = 67_108_864;

/// Cap on the allocation bitmap bytes read into memory, to bound allocations.
pub const MAX_BITMAP: u64 = 268_435_456;

/// `kHFSVolumeJournaledBit` in the volume header attributes.
pub const ATTR_JOURNALED: u32 = 0x2000;

/// `kJIJournalInFSMask`: the journal lives inside this volume.
pub const JI_JOURNAL_IN_FS: u32 = 1;

/// Cap on the journal bytes scanned, to bound work on a huge volume.
pub const MAX_JOURNAL: u64 = 536_870_912;

/// A parsed HFS+/HFSX volume.
pub struct Volume {
    /// Byte offset of the volume within the source.
    pub offset: u64,
    pub block_size: u64,
    pub total_blocks: u64,
    /// Allocation-block extents of the catalog file (start, count), inline only.
    pub catalog_extents: Vec<(u32, u32)>,
    pub catalog_size: u64,
    /// Allocation-block extents of the allocation file (the volume bitmap), inline only. Empty when the fork
    /// could not be parsed plausibly.
    pub allocation_extents: Vec<(u32, u32)>,
    /// Allocation-block extents of the extents-overflow B-tree file, inline only. Empty when the fork is
    /// absent or implausible.
    pub extents_overflow_extents: Vec<(u32, u32)>,
    pub extents_overflow_size: u64,
    pub hfsx: bool,
    /// Byte range (offset within the volume, length) of the journal buffer on a journaled volume whose journal
    /// is in the volume itself.
    pub journal: Option<(u64, u64)>,
    /// Volume creation time (`createDate`), Unix seconds; `None` when unset.
    pub created: Option<u64>,
    /// Volume last-modification time (`modifyDate`), Unix seconds; `None` when unset.
    pub written: Option<u64>,
}

/// The Unix time of an HFS+ date (seconds since 1904-01-01), or `None` when the field is unset or predates the
/// Unix epoch.
pub open spec fn unix_date(secs: u32) -> Option<u64> {
    if secs < HFS_EPOCH_OFFSET {
        None
    } else {
        Some((secs - HFS_EPOCH_OFFSET) as u64)
    }
}

/// Convert an HFS+ date (seconds since 1904-01-01) to Unix seconds, or `None` when the field is unset or
/// predates the Unix epoch.
pub fn hfs_time(secs: u32) -> (r: Option<u64>)
    ensures
        r == unix_date(secs),
{
    if secs < HFS_EPOCH_OFFSET {
        None
    } else {
        Some((secs - HFS_EPOCH_OFFSET) as u64)
    }
}

/// The signature of an HFS+ or HFSX volume.
pub open spec fn is_signature(sig: u16) -> bool {
    sig == SIG_HFSPLUS || sig == SIG_HFSX
}

/// Where the volume is that an old HFS wrapper embeds, by the master directory block.
pub open spec fn embedded_at(vol_offset: int, mdb: Seq<u8>) -> int {
    vol_offset + be16(mdb, 0x1C) * 512 + be16(mdb, 0x7E) * be32(mdb, 0x14)
}

/// Where the HFS+ volume for `vol_offset` is: there, or where an old HFS wrapper has it.
pub open spec fn resolved(src: Source, vol_offset: int) -> Option<int> {
    match src.fetch(vol_offset + VOLUME_HEADER_OFFSET, 512) {
        Some(mdb) => if mdb.len() < 512 {
            None
        } else if is_signature(be16(mdb, 0)) {
            Some(vol_offset)
        } else if be16(mdb, 0) == SIG_HFS && be16(mdb, 0x7C) == SIG_HFSPLUS {
            let embedded = embedded_at(vol_offset, mdb);
            match src.fetch(embedded + VOLUME_HEADER_OFFSET, 2) {
                Some(sig) => if sig.len() == 2 && is_signature(be16(sig, 0)) {
                    Some(embedded)
                } else {
                    None
                },
                None => None,
            }
        } else {
            None
        },
        None => None,
    }
}

/// Resolve the actual HFS+ volume-header offset for `vol_offset`: `vol_offset` itself when an HFS+/HFSX
/// signature sits there, or the **embedded** volume's offset when `vol_offset` holds an old HFS `BD` wrapper
/// around an HFS+ volume. `None` when neither.
pub fn hfsplus_offset(src: &Source, vol_offset: u64) -> (r: Option<u64>)
    requires
        src.wf(),
    ensures
        match r {
            Some(off) => resolved(*src, vol_offset as int) == Some(off as int) && off <= src@.len(),
            None => resolved(*src, vol_offset as int) is None,
        },
{
    if vol_offset > src.size() {
        proof {
            src.lemma_past_end(vol_offset + VOLUME_HEADER_OFFSET, 512);
        }
        return None;
    }
    let mdb = match src.read_at(vol_offset + VOLUME_HEADER_OFFSET, 512) {
        Ok(v) => v,
        Err(_) => {
            return None;
        },
    };
    if mdb.len() < 512 {
        return None;
    }
    let sig: u16 = rd_be16(&mdb, 0);
    if sig == SIG_HFSPLUS || sig == SIG_HFSX {
        return Some(vol_offset);
    }
    if sig != SIG_HFS || rd_be16(&mdb, 0x7C) != SIG_HFSPLUS {
        return None;
    }
    let al_blk_siz: u64 = rd_be32(&mdb, 0x14) as u64;
    let al_bl_st: u64 = rd_be16(&mdb, 0x1C) as u64;
    let embed_start: u64 = rd_be16(&mdb, 0x7E) as u64;
    assert(embed_start * al_blk_siz <= 0xFFFF * 0xFFFF_FFFF) by (nonlinear_arith)
        requires
            embed_start <= 0xFFFF,
            al_blk_siz <= 0xFFFF_FFFF,
    ;
    let embedded: u64 = vol_offset + al_bl_st * 512 + embed_start * al_blk_siz;
    match src.read_at(embedded + VOLUME_HEADER_OFFSET, 2) {
        Ok(sig) => {
            if sig.len() < 2 {
                return None;
            }
            let sig: u16 = rd_be16(&sig, 0);
            if sig == SIG_HFSPLUS || sig == SIG_HFSX {
                Some(embedded)
            } else {
                None
            }
        },
        Err(_) => None,
    }
}

/// Does `vol_offset` carry an HFS+/HFSX volume — directly, or embedded in an old HFS wrapper?
pub fn is_hfsplus(src: &Source, vol_offset: u64) -> (r: bool)
    requires
        src.wf(),
    ensures
        r == resolved(*src, vol_offset as int) is Some,
{
    hfsplus_offset(src, vol_offset).is_some()
}

/// An extent lies in the volume.
pub open spec fn in_volume(start: u32, count: u32, total: int) -> bool {
    start < total && start + count <= total
}

/// The extents from the `i`-th of eight at `at` on, up to the first without blocks. `None` where one does not
/// lie in the volume.
pub open spec fn extents_from(h: Seq<u8>, at: int, i: int, total: int) -> Option<Seq<(u32, u32)>>
    decreases 8 - i,
{
    let start = be32(h, at + 8 * i);
    let count = be32(h, at + 8 * i + 4);
    if i >= 8 || count == 0 {
        Some(Seq::empty())
    } else if !in_volume(start, count, total) {
        None
    } else {
        match extents_from(h, at, i + 1, total) {
            None => None,
            Some(rest) => Some(seq![(start, count)] + rest),
        }
    }
}

/// Extents that lie in the volume, eight at most.
pub open spec fn are_extents(v: Seq<(u32, u32)>, total: int) -> bool {
    v.len() <= 8 && forall|i: int|
        0 <= i < v.len() ==> in_volume((#[trigger] v[i]).0, v[i].1, total)
}

/// Read the eight extents at `at`.
pub fn read_extents(h: &[u8], at: usize, total: u64) -> (r: Option<Vec<(u32, u32)>>)
    requires
        at + 64 <= h.len(),
        total <= u32::MAX,
    ensures
        match r {
            Some(v) => extents_from(h@, at as int, 0, total as int) == Some(v@) && are_extents(
                v@,
                total as int,
            ),
            None => extents_from(h@, at as int, 0, total as int) is None,
        },
{
    let mut v: Vec<(u32, u32)> = Vec::new();
    let ghost all = extents_from(h@, at as int, 0, total as int);
    let mut i: usize = 0;
    assert(all == after(v@, all));
    while i < 8
        invariant
            i <= 8,
            i == v@.len(),
            at + 64 <= h.len(),
            total <= u32::MAX,
            are_extents(v@, total as int),
            all == extents_from(h@, at as int, 0, total as int),
            all == after(v@, extents_from(h@, at as int, i as int, total as int)),
        decreases 8 - i,
    {
        let start: u32 = rd_be32(h, at + 8 * i);
        let count: u32 = rd_be32(h, at + 8 * i + 4);
        if count == 0 {
            assert(v@ + Seq::<(u32, u32)>::empty() =~= v@);
            return Some(v);
        }
        if start as u64 >= total || start as u64 + count as u64 > total {
            return None;
        }
        let ghost before = v@;
        v.push((start, count));
        proof {
            let rest = extents_from(h@, at as int, i + 1, total as int);
            if rest is Some {
                assert(before + (seq![(start, count)] + rest->Some_0) =~= v@ + rest->Some_0);
            }
        }
        i += 1;
    }
    assert(v@ + Seq::<(u32, u32)>::empty() =~= v@);
    Some(v)
}

/// What comes before what is left.
spec fn after<T>(done: Seq<T>, rest: Option<Seq<T>>) -> Option<Seq<T>> {
    match rest {
        None => None,
        Some(r) => Some(done + r),
    }
}

/// An allocation block size that HFS+ uses: a power of two from 512 bytes to 64 KiB.
pub open spec fn is_block_size(n: u32) -> bool {
    n == 512 || n == 1024 || n == 2048 || n == 4096 || n == 8192 || n == 16384 || n == 32768 || n
        == 65536
}

/// What is wrong with a volume header.
pub open spec fn header_fault(h: Seq<u8>) -> Option<VolumeError> {
    if h.len() < 512 {
        Some(VolumeError::Truncated)
    } else if !is_signature(be16(h, 0)) {
        Some(VolumeError::NotFound)
    } else if !is_block_size(be32(h, 40)) {
        Some(VolumeError::BlockSize)
    } else if be32(h, 44) == 0 {
        Some(VolumeError::NoBlocks)
    } else {
        match extents_from(h, 288, 0, be32(h, 44) as int) {
            None => Some(VolumeError::CatalogRange),
            Some(v) => if v.len() == 0 {
                Some(VolumeError::NoCatalog)
            } else {
                None
            },
        }
    }
}

/// The extents of a fork, none where one does not lie in the volume.
pub open spec fn fork_extents(h: Seq<u8>, at: int) -> Seq<(u32, u32)> {
    match extents_from(h, at, 0, be32(h, 44) as int) {
        Some(v) => v,
        None => Seq::empty(),
    }
}

/// The journal that a journal info block gives: where it is in a volume of `size` bytes, and how much of it is
/// scanned.
pub open spec fn journal_in(info: Seq<u8>, size: int) -> Option<(u64, u64)> {
    let joff = be64(info, 36);
    let jsize = be64(info, 44);
    if info.len() == 52 && be32(info, 0) & JI_JOURNAL_IN_FS != 0 && jsize > 0 && joff + jsize <= size {
        Some((joff, smaller(jsize as int, MAX_JOURNAL as int) as u64))
    } else {
        None
    }
}

/// The journal of the volume with the header `h` at `offset`: `None` where its info block could not be read.
pub open spec fn journal_of(src: Source, offset: int, h: Seq<u8>) -> Option<Option<(u64, u64)>> {
    let jib = be32(h, 12);
    if be32(h, 4) & ATTR_JOURNALED != 0 && 0 < jib < be32(h, 44) {
        match src.fetch(offset + jib * be32(h, 40), 52) {
            None => None,
            Some(info) => Some(journal_in(info, be32(h, 40) * be32(h, 44))),
        }
    } else {
        Some(None)
    }
}

/// What comes of the volume for `vol_offset`: `None` where a byte that is needed could not be read, what is
/// wrong with it, or where it is, its header, and its journal.
pub open spec fn volume_at(src: Source, vol_offset: int) -> Option<
    Result<(int, Seq<u8>, Option<(u64, u64)>), VolumeError>,
> {
    let offset = match resolved(src, vol_offset) {
        Some(off) => off,
        None => vol_offset,
    };
    match src.fetch(offset + VOLUME_HEADER_OFFSET, 512) {
        None => None,
        Some(h) => match header_fault(h) {
            Some(e) => Some(Err(e)),
            None => match journal_of(src, offset, h) {
                None => None,
                Some(j) => Some(Ok((offset, h, j))),
            },
        },
    }
}

impl Volume {
    /// The sizes are such as a header may give, and the extents lie in the volume.
    pub open spec fn wf(&self) -> bool {
        &&& self.offset <= i64::MAX
        &&& 512 <= self.block_size <= 65536
        &&& 0 < self.total_blocks <= u32::MAX
        &&& are_extents(self.catalog_extents@, self.total_blocks as int)
        &&& are_extents(self.allocation_extents@, self.total_blocks as int)
        &&& are_extents(self.extents_overflow_extents@, self.total_blocks as int)
        &&& self.journal matches Some(j) ==> j.0 <= 0x1_0000_0000_0000 && j.1 <= MAX_JOURNAL
    }

    /// The volume is what its header says.
    pub open spec fn is_of(&self, offset: int, h: Seq<u8>, journal: Option<(u64, u64)>) -> bool {
        &&& self.offset == offset
        &&& self.block_size == be32(h, 40)
        &&& self.total_blocks == be32(h, 44)
        &&& self.catalog_extents@ == fork_extents(h, 288)
        &&& self.catalog_size == be64(h, 272)
        &&& self.allocation_extents@ == fork_extents(h, 128)
        &&& self.extents_overflow_extents@ == fork_extents(h, 208)
        &&& self.extents_overflow_size == be64(h, 192)
        &&& self.hfsx == (be16(h, 0) == SIG_HFSX)
        &&& self.journal == journal
        &&& self.created == unix_date(be32(h, 0x10))
        &&& self.written == unix_date(be32(h, 0x14))
    }

    /// Parse the volume header at `offset` (following an HFS wrapper to the embedded HFS+ volume when
    /// present).
    pub fn parse(src: &Source, offset: u64) -> (r: Result<Volume, VolumeError>)
        requires
            src.wf(),
        ensures
            match r {
                Ok(v) => v.wf() && (volume_at(*src, offset as int) matches Some(Ok(x)) && v.is_of(
                    x.0,
                    x.1,
                    x.2,
                )),
                Err(VolumeError::Read(e)) => volume_at(*src, offset as int) is None && src.explains(
                    e,
                ),
                Err(e) => volume_at(*src, offset as int) matches Some(Err(x)) && x == e,
            },
    {
        let offset: u64 = match hfsplus_offset(src, offset) {
            Some(off) => off,
            None => offset,
        };
        if offset > src.size() {
            proof {
                src.lemma_past_end(offset + VOLUME_HEADER_OFFSET, 512);
            }
            return Err(VolumeError::Truncated);
        }
        let vh = match src.read_at(offset + VOLUME_HEADER_OFFSET, 512) {
            Ok(v) => v,
            Err(e) => {
                return Err(VolumeError::Read(e));
            },
        };
        if vh.len() < 512 {
            return Err(VolumeError::Truncated);
        }
        let sig: u16 = rd_be16(&vh, 0);
        if sig != SIG_HFSPLUS && sig != SIG_HFSX {
            return Err(VolumeError::NotFound);
        }
        let bs: u32 = rd_be32(&vh, 40);
        if !(bs == 512 || bs == 1024 || bs == 2048 || bs == 4096 || bs == 8192 || bs == 16384 || bs
            == 32768 || bs == 65536) {
            return Err(VolumeError::BlockSize);
        }
        let block_size: u64 = bs as u64;
        let total_blocks: u64 = rd_be32(&vh, 44) as u64;
        if total_blocks == 0 {
            return Err(VolumeError::NoBlocks);
        }
        let catalog_extents = match read_extents(&vh, 288, total_blocks) {
            Some(v) => v,
            None => {
                return Err(VolumeError::CatalogRange);
            },
        };
        if catalog_extents.len() == 0 {
            return Err(VolumeError::NoCatalog);
        }
        let allocation_extents = match read_extents(&vh, 128, total_blocks) {
            Some(v) => v,
            None => Vec::new(),
        };
        let extents_overflow_extents = match read_extents(&vh, 208, total_blocks) {
            Some(v) => v,
            None => Vec::new(),
        };
        assert(allocation_extents@ =~= fork_extents(vh@, 128));
        assert(extents_overflow_extents@ =~= fork_extents(vh@, 208));
        let mut journal: Option<(u64, u64)> = None;
        let jib: u64 = rd_be32(&vh, 12) as u64;
        assert(block_size * total_blocks <= 65536 * 0xFFFF_FFFF) by (nonlinear_arith)
            requires
                0 <= block_size <= 65536,
                0 <= total_blocks <= 0xFFFF_FFFF,
        ;
        let vol_bytes: u64 = block_size * total_blocks;
        if rd_be32(&vh, 4) & ATTR_JOURNALED != 0 && jib > 0 && jib < total_blocks {
            assert(jib * block_size <= 65536 * 0xFFFF_FFFF) by (nonlinear_arith)
                requires
                    0 <= block_size <= 65536,
                    0 <= jib <= 0xFFFF_FFFF,
            ;
            let info = match src.read_at(offset + jib * block_size, 52) {
                Ok(v) => v,
                Err(e) => {
                    return Err(VolumeError::Read(e));
                },
            };
            if info.len() == 52 && rd_be32(&info, 0) & JI_JOURNAL_IN_FS != 0 {
                let joff: u64 = rd_be64(&info, 36);
                let jsize: u64 = rd_be64(&info, 44);
                if jsize > 0 && joff < vol_bytes && jsize <= vol_bytes - joff {
                    journal = Some((joff, min_u64(jsize, MAX_JOURNAL)));
                }
            }
        }
        assert(journal_of(*src, offset as int, vh@) == Some(journal));
        let created = hfs_time(rd_be32(&vh, 0x10));
        let written = hfs_time(rd_be32(&vh, 0x14));
        Ok(
            Volume {
                offset,
                block_size,
                total_blocks,
                catalog_extents,
                catalog_size: rd_be64(&vh, 272),
                allocation_extents,
                extents_overflow_extents,
                extents_overflow_size: rd_be64(&vh, 192),
                hfsx: sig == SIG_HFSX,
                journal,
                created,
                written,
            },
        )
    }

    /// Volume creation time (`createDate`) as Unix seconds, or `None` when unset.
    pub fn created_time(&self) -> (r: Option<u64>)
        ensures
            r == self.created,
    {
        self.created
    }

    /// Volume last-modification time (`modifyDate`) as Unix seconds, or `None`.
    pub fn written_time(&self) -> (r: Option<u64>)
        ensures
            r == self.written,
    {
        self.written
    }

    /// Total size of the volume in bytes.
    pub fn size(&self) -> (r: u64)
        ensures
            r == capped(self.total_blocks * self.block_size),
    {
        mul_capped(self.total_blocks, self.block_size)
    }

    /// The allocation block size in bytes.
    pub fn block_size(&self) -> (r: u64)
        ensures
            r == self.block_size,
    {
        self.block_size
    }

    /// `"HFS+"` or `"HFSX"`.
    pub fn fs_label(&self) -> (r: &'static str)
        ensures
            r@ == if self.hfsx {
                "HFSX"@
            } else {
                "HFS+"@
            },
    {
        if self.hfsx {
            "HFSX"
        } else {
            "HFS+"
        }
    }
}

impl Volume {
    /// The number of blocks in the first `n` extents.
    pub open spec fn blocks_in(extents: Seq<(u32, u32)>, n: int) -> int
        decreases n,
    {
        if n <= 0 {
            0
        } else {
            Self::blocks_in(extents, n - 1) + extents[n - 1].1
        }
    }

    /// How much of a fork is read: its size, where it has one, as far as its extents go, and no more than
    /// `cap`.
    pub open spec fn fork_len(&self, extents: Seq<(u32, u32)>, size: int, cap: int) -> int {
        let all = Self::blocks_in(extents, extents.len() as int) * self.block_size;
        smaller(
            if size > 0 {
                smaller(size, all)
            } else {
                all
            },
            cap,
        )
    }

    /// What is read of a fork from block `b` of the `e`-th extent on, behind what was read before, until it is
    /// `want` bytes or the image ends. `None` where a block could not be read.
    pub open spec fn fork_from(
        &self,
        src: Source,
        extents: Seq<(u32, u32)>,
        e: int,
        b: int,
        want: int,
        buf: Seq<u8>,
    ) -> Option<Seq<u8>>
        decreases extents.len() - e, larger(extents[e].1 - b, 0),
    {
        if e >= extents.len() {
            Some(buf)
        } else if b >= extents[e].1 {
            self.fork_from(src, extents, e + 1, 0, want, buf)
        } else if buf.len() >= want {
            Some(buf)
        } else {
            match src.fetch(
                self.offset + (extents[e].0 + b) * self.block_size,
                self.block_size as int,
            ) {
                None => None,
                Some(d) => if d.len() == 0 {
                    Some(buf)
                } else {
                    self.fork_from(src, extents, e, b + 1, want, buf + d)
                },
            }
        }
    }

    /// What is read of a fork.
    pub open spec fn fork(
        &self,
        src: Source,
        extents: Seq<(u32, u32)>,
        size: int,
        cap: int,
    ) -> Option<Seq<u8>> {
        let want = self.fork_len(extents, size, cap);
        match self.fork_from(src, extents, 0, 0, want, Seq::empty()) {
            None => None,
            Some(buf) => Some(buf.take(smaller(buf.len() as int, want))),
        }
    }

    /// Read a fork described by inline `extents` into memory, bounded by `size` (when non-zero) and `cap`.
    pub(crate) fn read_fork(&self, src: &Source, extents: &Vec<(u32, u32)>, size: u64, cap: u64) -> (r: Result<
        Vec<u8>,
        ReadError,
    >)
        requires
            self.wf(),
            src.wf(),
            are_extents(extents@, self.total_blocks as int),
            cap <= MAX_BITMAP,
        ensures
            match r {
                Ok(v) => self.fork(*src, extents@, size as int, cap as int) == Some(v@) && v@.len()
                    <= cap,
                Err(e) => self.fork(*src, extents@, size as int, cap as int) is None && src.explains(
                    e,
                ),
            },
    {
        let mut blocks: u64 = 0;
        let mut i: usize = 0;
        while i < extents.len()
            invariant
                i <= extents@.len() <= 8,
                blocks == Self::blocks_in(extents@, i as int),
                blocks <= i * 0xFFFF_FFFF,
            decreases extents@.len() - i,
        {
            blocks = blocks + extents[i].1 as u64;
            i += 1;
        }
        let bs: u64 = self.block_size;
        assert(0 <= blocks * bs <= 0x8_0000_0000 * 65536) by (nonlinear_arith)
            requires
                0 <= blocks <= 0x8_0000_0000,
                0 <= bs <= 65536,
        ;
        let whole: u64 = blocks * bs;
        let want: u64 = min_u64(
            if size > 0 {
                min_u64(size, whole)
            } else {
                whole
            },
            cap,
        );
        let mut buf: Vec<u8> = Vec::new();
        let ghost all = self.fork_from(*src, extents@, 0, 0, want as int, Seq::empty());
        let mut e: usize = 0;
        let mut b: u32 = 0;
        let mut more = true;
        while more
            invariant
                self.wf(),
                src.wf(),
                bs == self.block_size,
                are_extents(extents@, self.total_blocks as int),
                e <= extents@.len(),
                e < extents@.len() ==> b <= extents@[e as int].1,
                buf@.len() <= want + 65536,
                want <= MAX_BITMAP,
                want == self.fork_len(extents@, size as int, cap as int),
                all == self.fork_from(*src, extents@, 0, 0, want as int, Seq::empty()),
                more ==> all == self.fork_from(
                    *src,
                    extents@,
                    e as int,
                    b as int,
                    want as int,
                    buf@,
                ),
                !more ==> all == Some(buf@),
            decreases
                    extents@.len() - e,
                    larger(extents@[e as int].1 - b, 0),
                    if more {
                        1int
                    } else {
                        0
                    },
        {
            if e >= extents.len() {
                more = false;
            } else if b >= extents[e].1 {
                e = e + 1;
                b = 0;
            } else if buf.len() as u64 >= want {
                more = false;
            } else {
                let block: u64 = extents[e].0 as u64 + b as u64;
                assert(0 <= block * bs <= 0x2_0000_0000 * 65536) by (nonlinear_arith)
                    requires
                        0 <= block <= 0x2_0000_0000,
                        0 <= bs <= 65536,
                ;
                let mut d = src.read_at(self.offset + block * bs, bs as usize)?;
                if d.len() == 0 {
                    more = false;
                } else {
                    buf.append(&mut d);
                    b = b + 1;
                }
            }
        }
        if buf.len() as u64 > want {
            let ghost whole_buf = buf@;
            buf.truncate(want as usize);
            assert(buf@ =~= whole_buf.take(want as int));
        } else {
            assert(buf@.take(buf@.len() as int) =~= buf@);
        }
        Ok(buf)
    }

    /// The volume bitmap: `None` where there is none, or it could not be read.
    pub open spec fn bitmap(&self, src: Source) -> Option<Seq<u8>> {
        if self.allocation_extents@.len() == 0 {
            None
        } else {
            self.fork(src, self.allocation_extents@, 0, MAX_BITMAP as int)
        }
    }

    /// The bitmap says that a block is free: its bit is clear, the highest bit of a byte being that of the
    /// first of eight blocks. A block for which the bitmap has no bit is not.
    pub open spec fn is_free(bitmap: Seq<u8>, b: int) -> bool {
        b / 8 < bitmap.len() && !bit_at(bitmap[b / 8], 7 - b % 8)
    }

    /// The free space of the volume by its bitmap, in runs of blocks.
    pub open spec fn free_space(&self, bitmap: Seq<u8>) -> Seq<(u64, u64)> {
        free_runs(
            |b: int| Self::is_free(bitmap, b),
            |b: int| self.offset + b * self.block_size,
            self.block_size as int,
            0,
            self.total_blocks as int,
        )
    }

    /// Absolute byte ranges of the volume's free (unallocated) space, derived from the allocation file (the
    /// volume bitmap). Each bit maps one allocation block, **most-significant bit first** (bit 7 of byte 0 is
    /// block 0). Returns an empty vec when the bitmap could not be read; bits past the end of the bitmap (or
    /// blocks with no bit) are treated as allocated, never free.
    pub fn free_extents(&self, src: &Source) -> (r: Result<Vec<(u64, u64)>, ReadError>)
        requires
            self.wf(),
            src.wf(),
        ensures
            r matches Ok(v) && v@ == match self.bitmap(*src) {
                Some(m) => self.free_space(m),
                None => Seq::empty(),
            },
    {
        let mut out: Vec<(u64, u64)> = Vec::new();
        if self.allocation_extents.len() == 0 {
            return Ok(out);
        }
        let bitmap = match self.read_fork(src, &self.allocation_extents, 0, MAX_BITMAP) {
            Ok(m) => m,
            Err(_) => {
                return Ok(out);
            },
        };
        let ghost free = |b: int| Self::is_free(bitmap@, b);
        let ghost start = |b: int| self.offset + b * self.block_size;
        let bs: u64 = self.block_size;
        let mut b: u64 = 0;
        while b < self.total_blocks
            invariant
                self.wf(),
                bs == self.block_size,
                b <= self.total_blocks,
                free == (|b: int| Self::is_free(bitmap@, b)),
                start == (|b: int| self.offset + b * self.block_size),
                out@ == free_runs(free, start, bs as int, 0, b as int),
            decreases self.total_blocks - b,
        {
            let allocated = if b / 8 < bitmap.len() as u64 {
                has_bit(bitmap[(b / 8) as usize], (7 - b % 8) as u8)
            } else {
                true
            };
            assert(free(b as int) == !allocated);
            if !allocated {
                assert(0 <= b * bs <= 0xFFFF_FFFF * 65536) by (nonlinear_arith)
                    requires
                        0 <= b <= 0xFFFF_FFFF,
                        0 <= bs <= 65536,
                ;
                let at: u64 = self.offset + b * bs;
                assert(start(b as int) == at);
                add_run(&mut out, at, bs);
            }
            b = b + 1;
        }
        Ok(out)
    }

    /// The free space of a volume lies in it, in order and apart, and a byte of a block lies in it exactly if
    /// the block is free.
    pub proof fn law_free_space(&self, bitmap: Seq<u8>)
        requires
            self.wf(),
        ensures
            ({
                let runs = self.free_space(bitmap);
                let unit = self.block_size as int;
                &&& forall|k: int|
                    0 <= k < runs.len() ==> self.offset <= (#[trigger] runs[k]).0 && runs[k].1 > 0
                        && runs[k].0 + runs[k].1 <= self.offset + self.total_blocks * unit
                &&& forall|j: int, k: int|
                    0 <= j < k < runs.len() ==> (#[trigger] runs[j]).0 + runs[j].1 < (
                    #[trigger] runs[k]).0
                &&& forall|b: int, i: int|
                    0 <= b < self.total_blocks && 0 <= i < unit ==> #[trigger] in_runs(
                        runs,
                        self.offset + b * unit + i,
                    ) == Self::is_free(bitmap, b)
            }),
    {
        let unit = self.block_size as int;
        let hi = self.total_blocks as int;
        let base = self.offset as int;
        let free = |b: int| Self::is_free(bitmap, b);
        assert(0 <= hi * unit <= 0xFFFF_FFFF * 65536) by (nonlinear_arith)
            requires
                0 <= hi <= 0xFFFF_FFFF,
                0 <= unit <= 65536,
        ;
        lemma_same_starts(
            free,
            |b: int| self.offset + b * self.block_size,
            |b: int| base + b * unit,
            unit,
            0,
            hi,
        );
        law_free_runs(free, base, unit, 0, hi);
        assert forall|b: int, i: int| 0 <= b < hi && 0 <= i < unit implies #[trigger] in_runs(
            self.free_space(bitmap),
            base + b * unit + i,
        ) == Self::is_free(bitmap, b) by {
            assert(free(b) == Self::is_free(bitmap, b));
        }
    }
}

/// What is accepted as a volume is recognised.
pub proof fn law_accepted_is_recognised(src: Source, vol_offset: int)
    requires
        volume_at(src, vol_offset) matches Some(Ok(_)),
    ensures
        resolved(src, vol_offset) is Some,
{
}

} // verus!
