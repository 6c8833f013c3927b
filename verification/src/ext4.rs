//! Filesystem-aware recovery for ext2/ext3/ext4 volumes.
//!
//! ext is the trickiest filesystem to undelete. When a file is removed, ext4 clears the inode's link count,
//! stamps a deletion time, and frees it; the directory entry is unlinked by folding its space into the
//! previous entry. The bytes of the removed directory entry — its **name and inode number** — usually remain
//! in the directory block's *slack space*, and the inode (with its **extent tree** or block pointers) often
//! survives until reused.
//!
//! This backend therefore walks the live directory tree, scans the slack inside each directory block for
//! stale entries, and for any whose inode is now deleted but still has a readable block map, recovers the
//! file with its original name and path.
//!
//! ## Journal (jbd2) recovery
//!
//! ext4 usually *zeroes* the inode's extent tree on deletion, leaving the live inode present but unusable.
//! The filesystem journal (inode 8) often still holds an **older copy of that inode-table block** from before
//! the delete, with the extents intact. This backend scans the jbd2 journal, collects the journaled copies of
//! inode-table blocks, and when a deleted file's live inode has no usable block map it recovers the data from
//! the journaled inode.
//!
//! The journal is also where the **names** come from on a modern kernel, which zeroes a directory entry when
//! the file is unlinked. Older copies of the directory blocks in the journal still list the file, so every
//! directory's journaled copies are parsed alongside its live blocks. A directory that was itself deleted (a
//! folder tree removed recursively) is followed the same way, from its journaled inode and journaled blocks.
//!
//! ## What this cannot do
//!
//! If neither the live inode nor any journaled copy has an intact block map (the journal wrapped around, or
//! the inode was reused), the contents cannot be found from metadata alone — fall back to carving.

pub mod blocks;
pub mod directory;
pub mod inode;
pub mod journal;
pub mod laws;
pub mod lists;
pub mod undelete;

use crate::bytes::{
    bit_at, capped, ceil, ceil_div, has_bit, le16, le32, mul_capped, rd_le16, rd_le32, smaller,
};
use crate::recover::{
    add_run, format_uuid, free_runs, in_runs, law_free_runs, lemma_same_starts, name_in, padded_name, text_view, uuid_text,
    VolumeError,
};
use crate::source::{ReadError, Source};
use crate::times::{from_unix, set_time};
use vstd::prelude::*;
use vstd::string::*;

verus! {

pub const SUPERBLOCK_OFFSET: u64 = 1024;

pub const EXT_MAGIC: u16 = 0xEF53;

pub const INCOMPAT_FILETYPE: u32 = 0x0002;

pub const INCOMPAT_64BIT: u32 = 0x0080;

/// `s_feature_compat` bit: an ext3+ journal is present (`HAS_JOURNAL`).
pub const COMPAT_HAS_JOURNAL: u32 = 0x0004;

/// `s_feature_incompat` bits understood by plain ext2: `FILETYPE` | `META_BG`.
pub const EXT2_INCOMPAT_SUPP: u32 = 0x0012;

/// ext3 additionally understands the journal `RECOVER` incompat bit.
pub const EXT3_INCOMPAT_SUPP: u32 = 0x0016;

/// `s_feature_ro_compat` bits that do not by themselves imply ext4: `SPARSE_SUPER` | `LARGE_FILE` |
/// `HUGE_FILE` | `BTREE_DIR` | `GDT_CSUM` | `DIR_NLINK` | `EXTRA_ISIZE` | `METADATA_CSUM`.
pub const EXT2_RO_COMPAT_SUPP: u32 = 0x047F;

pub const DEFAULT_JOURNAL_INODE: u32 = 8;

/// A parsed ext2/3/4 volume.
pub struct Volume {
    /// Byte offset of the volume within the source.
    pub offset: u64,
    pub block_size: u64,
    pub inode_size: u64,
    pub inodes_per_group: u32,
    pub filetype_dirents: bool,
    pub total_blocks: u64,
    /// Inode number of the journal (`s_journal_inum`, usually 8).
    pub journal_inum: u32,
    /// Block number of each group's inode table.
    pub inode_tables: Vec<u64>,
    /// Block number of each group's block bitmap.
    pub block_bitmaps: Vec<u64>,
    /// Blocks per group (`s_blocks_per_group`).
    pub blocks_per_group: u32,
    /// First data block (`s_first_data_block`: 1 for 1 KiB blocks, else 0).
    pub first_data_block: u64,
    /// Volume label (`s_volume_name`), empty when unset.
    pub label: String,
    /// Path the volume was last mounted on (`s_last_mounted`), empty when unset.
    pub last_mounted: String,
    /// Filesystem UUID (`s_uuid`), `None` when unset.
    pub uuid: Option<String>,
    /// Whether the filesystem was cleanly unmounted (`s_state` bit 0).
    pub clean: bool,
    /// The detected ext variant ("ext2", "ext3", or "ext4") from the feature flags.
    pub version: &'static str,
    /// Filesystem creation time (`s_mkfs_time`), Unix seconds; `None` when the field is unset (older ext2
    /// images do not record it).
    pub created: Option<u64>,
    /// Last write time (`s_wtime`), Unix seconds; `None` when unset.
    pub written: Option<u64>,
    /// Total inode count (`s_inodes_count`).
    pub inodes_count: u64,
    /// Free inode count (`s_free_inodes_count`).
    pub free_inodes: u64,
}

/// A variant of ext: it is ext2 when it has no journal and only ext2-level features, ext3 when it has a
/// journal and only ext3-level features, and ext4 otherwise (any ext4-only incompat/ro_compat feature, e.g.
/// extents or 64-bit).
pub open spec fn variant(compat: u32, incompat: u32, ro_compat: u32) -> Seq<char> {
    let has_journal = compat & COMPAT_HAS_JOURNAL != 0;
    let ro_compat_ok = ro_compat & !EXT2_RO_COMPAT_SUPP == 0;
    if !has_journal && incompat & !EXT2_INCOMPAT_SUPP == 0 && ro_compat_ok {
        "ext2"@
    } else if has_journal && incompat & !EXT3_INCOMPAT_SUPP == 0 && ro_compat_ok {
        "ext3"@
    } else {
        "ext4"@
    }
}

/// Classify an ext volume as `"ext2"`, `"ext3"`, or `"ext4"` from its feature flags.
pub fn classify_version(compat: u32, incompat: u32, ro_compat: u32) -> (r: &'static str)
    ensures
        r@ == variant(compat, incompat, ro_compat),
{
    let has_journal = compat & COMPAT_HAS_JOURNAL != 0;
    let ro_compat_ok = ro_compat & !EXT2_RO_COMPAT_SUPP == 0;
    if !has_journal && incompat & !EXT2_INCOMPAT_SUPP == 0 && ro_compat_ok {
        "ext2"
    } else if has_journal && incompat & !EXT3_INCOMPAT_SUPP == 0 && ro_compat_ok {
        "ext3"
    } else {
        "ext4"
    }
}

/// The block size that a superblock gives by its logarithm.
pub open spec fn block_size_in(h: Seq<u8>) -> int {
    let k = le32(h, 0x18);
    if k == 0 {
        1024
    } else if k == 1 {
        2048
    } else if k == 2 {
        4096
    } else if k == 3 {
        8192
    } else if k == 4 {
        16384
    } else if k == 5 {
        32768
    } else {
        65536
    }
}

/// The inode size that a superblock gives.
pub open spec fn inode_size_in(h: Seq<u8>) -> int {
    if le16(h, 0x58) == 0 {
        128
    } else {
        le16(h, 0x58) as int
    }
}

/// Block numbers have 64 bits.
pub open spec fn is_wide(h: Seq<u8>) -> bool {
    le32(h, 0x60) & INCOMPAT_64BIT != 0
}

/// The size of a group descriptor.
pub open spec fn desc_size_in(h: Seq<u8>) -> int {
    if is_wide(h) && le16(h, 0xFE) >= 32 {
        le16(h, 0xFE) as int
    } else {
        32
    }
}

/// A number of which the upper half is elsewhere.
pub open spec fn two_halves(lo: u32, hi: u32) -> int {
    lo + hi * 0x1_0000_0000
}

/// The number of blocks that a superblock gives.
pub open spec fn total_blocks_in(h: Seq<u8>) -> int {
    two_halves(
        le32(h, 4),
        if is_wide(h) {
            le32(h, 0x150)
        } else {
            0
        },
    )
}

/// The number of block groups that a superblock gives.
pub open spec fn group_count_in(h: Seq<u8>) -> int {
    ceil(le32(h, 0) as int, le32(h, 0x28) as int)
}

/// What is wrong with a superblock.
pub open spec fn header_fault(h: Seq<u8>) -> Option<VolumeError> {
    if h.len() < 1024 {
        Some(VolumeError::Truncated)
    } else if le16(h, 0x38) != EXT_MAGIC {
        Some(VolumeError::NotFound)
    } else if le32(h, 0x18) > 6 {
        Some(VolumeError::BlockSize)
    } else if inode_size_in(h) < 128 || inode_size_in(h) > block_size_in(h) {
        Some(VolumeError::InodeSize)
    } else if le32(h, 0x28) == 0 || le32(h, 0x20) == 0 {
        Some(VolumeError::Geometry)
    } else {
        None
    }
}

/// The field of a group descriptor whose upper half is 32 bytes on.
pub open spec fn group_field(d: Seq<u8>, at: int, wide: bool) -> u64 {
    two_halves(
        le32(d, at),
        if wide && d.len() >= 64 {
            le32(d, at + 0x20)
        } else {
            0
        },
    ) as u64
}

/// The inode tables and the bitmaps of the groups from `g` on, as far as the image has descriptors of them.
/// `None` where one could not be read.
pub open spec fn groups_from(
    src: Source,
    table: int,
    size: int,
    wide: bool,
    g: int,
    count: int,
) -> Option<Seq<(u64, u64)>>
    decreases count - g,
{
    if g >= count {
        Some(Seq::empty())
    } else {
        match src.fetch(table + g * size, size) {
            None => None,
            Some(d) => if d.len() < size {
                Some(Seq::empty())
            } else {
                match groups_from(src, table, size, wide, g + 1, count) {
                    None => None,
                    Some(rest) => Some(
                        seq![(group_field(d, 8, wide), group_field(d, 0, wide))] + rest,
                    ),
                }
            },
        }
    }
}

/// The inode tables and the bitmaps of all groups.
pub open spec fn groups_in(src: Source, offset: int, h: Seq<u8>) -> Option<Seq<(u64, u64)>> {
    groups_from(
        src,
        offset + (le32(h, 0x14) + 1) * block_size_in(h),
        desc_size_in(h),
        is_wide(h),
        0,
        group_count_in(h),
    )
}

/// What comes of the volume at `offset`: `None` where a byte that is needed could not be read, what is wrong
/// with it, or its superblock and groups.
pub open spec fn volume_at(src: Source, offset: int) -> Option<
    Result<(Seq<u8>, Seq<(u64, u64)>), VolumeError>,
> {
    match src.fetch(offset + SUPERBLOCK_OFFSET, 1024) {
        None => None,
        Some(h) => match header_fault(h) {
            Some(e) => Some(Err(e)),
            None => match groups_in(src, offset, h) {
                None => None,
                Some(groups) => if groups.len() == 0 {
                    Some(Err(VolumeError::NoGroups))
                } else {
                    Some(Ok((h, groups)))
                },
            },
        },
    }
}

impl Volume {
    /// The sizes are such as a superblock may give.
    pub open spec fn wf(&self) -> bool {
        &&& 1024 <= self.block_size <= 65536
        &&& 128 <= self.inode_size <= self.block_size
        &&& self.inodes_per_group > 0
        &&& self.inode_tables@.len() == self.block_bitmaps@.len()
    }

    /// The volume is what a superblock and its groups say.
    pub open spec fn is_of(&self, offset: int, h: Seq<u8>, groups: Seq<(u64, u64)>) -> bool {
        &&& self.offset == offset
        &&& self.block_size == block_size_in(h)
        &&& self.inode_size == inode_size_in(h)
        &&& self.inodes_per_group == le32(h, 0x28)
        &&& self.filetype_dirents == (le32(h, 0x60) & INCOMPAT_FILETYPE != 0)
        &&& self.total_blocks == total_blocks_in(h)
        &&& self.journal_inum == if le32(h, 0xE0) == 0 {
            DEFAULT_JOURNAL_INODE
        } else {
            le32(h, 0xE0)
        }
        &&& self.inode_tables@ == groups.map_values(|g: (u64, u64)| g.0)
        &&& self.block_bitmaps@ == groups.map_values(|g: (u64, u64)| g.1)
        &&& self.blocks_per_group == le32(h, 0x20)
        &&& self.first_data_block == le32(h, 0x14)
        &&& self.label@ == name_in(h.subrange(0x78, 0x88))
        &&& self.label@.len() == 0 <==> h[0x78] == 0
        &&& self.last_mounted@ == name_in(h.subrange(0x88, 0xC8))
        &&& self.last_mounted@.len() == 0 <==> h[0x88] == 0
        &&& text_view(self.uuid) == uuid_text(h.subrange(0x68, 0x78))
        &&& self.clean == (le16(h, 0x3A) & 0x0001 != 0)
        &&& self.version@ == variant(le32(h, 0x5C), le32(h, 0x60), le32(h, 0x64))
        &&& self.created == set_time(le32(h, 0x108))
        &&& self.written == set_time(le32(h, 0x30))
        &&& self.inodes_count == le32(h, 0)
        &&& self.free_inodes == le32(h, 0x10)
    }
}

/// A number of which the upper half is elsewhere.
pub(crate) fn join_halves(lo: u32, hi: u32) -> (r: u64)
    ensures
        r == two_halves(lo, hi),
{
    lo as u64 + hi as u64 * 0x1_0000_0000
}

/// The field of a group descriptor whose upper half is 32 bytes on.
fn read_group_field(d: &[u8], at: usize, wide: bool) -> (r: u64)
    requires
        at <= 8,
        d.len() >= 32,
    ensures
        r == group_field(d@, at as int, wide),
{
    let hi: u32 = if wide && d.len() >= 64 {
        rd_le32(d, at + 0x20)
    } else {
        0
    };
    join_halves(rd_le32(d, at), hi)
}

/// The inode tables and the bitmaps of the groups.
fn read_groups(
    src: &Source,
    table: u64,
    size: usize,
    wide: bool,
    count: u64,
) -> (r: Result<(Vec<u64>, Vec<u64>), ReadError>)
    requires
        src.wf(),
        32 <= size <= 0xFFFF,
        count <= u32::MAX,
        table + count * size <= u64::MAX,
    ensures
        match r {
            Ok(x) => groups_from(*src, table as int, size as int, wide, 0, count as int) matches Some(
                groups,
            ) && x.0@ == groups.map_values(|g: (u64, u64)| g.0) && x.1@ == groups.map_values(
                |g: (u64, u64)| g.1,
            ),
            Err(e) => groups_from(*src, table as int, size as int, wide, 0, count as int) is None
                && src.explains(e),
        },
{
    let mut tables: Vec<u64> = Vec::new();
    let mut bitmaps: Vec<u64> = Vec::new();
    let ghost mut done: Seq<(u64, u64)> = Seq::empty();
    let ghost all = groups_from(*src, table as int, size as int, wide, 0, count as int);
    let mut g: u64 = 0;
    proof {
        assert(all == prepended(done, all));
        assert(tables@ =~= done.map_values(|g: (u64, u64)| g.0));
        assert(bitmaps@ =~= done.map_values(|g: (u64, u64)| g.1));
    }
    while g < count
        invariant
            src.wf(),
            g <= count,
            32 <= size <= 0xFFFF,
            table + count * size <= u64::MAX,
            all == groups_from(*src, table as int, size as int, wide, 0, count as int),
            all == prepended(
                done,
                groups_from(*src, table as int, size as int, wide, g as int, count as int),
            ),
            tables@ == done.map_values(|g: (u64, u64)| g.0),
            bitmaps@ == done.map_values(|g: (u64, u64)| g.1),
        decreases count - g,
    {
        assert(g * size + size <= count * size) by (nonlinear_arith)
            requires
                g < count,
                size >= 0,
        ;
        let d = src.read_at(table + g * size as u64, size)?;
        if d.len() < size {
            assert(done + Seq::<(u64, u64)>::empty() =~= done);
            return Ok((tables, bitmaps));
        }
        let t: u64 = read_group_field(&d, 8, wide);
        let b: u64 = read_group_field(&d, 0, wide);
        tables.push(t);
        bitmaps.push(b);
        proof {
            let rest = groups_from(*src, table as int, size as int, wide, g + 1, count as int);
            let next = done.push((t, b));
            if rest is Some {
                assert(done + (seq![(t, b)] + rest->Some_0) =~= next + rest->Some_0);
            }
            assert(tables@ =~= next.map_values(|g: (u64, u64)| g.0));
            assert(bitmaps@ =~= next.map_values(|g: (u64, u64)| g.1));
            done = next;
        }
        g = g + 1;
    }
    assert(done + Seq::<(u64, u64)>::empty() =~= done);
    Ok((tables, bitmaps))
}

/// What comes before what is left.
spec fn prepended<T>(done: Seq<T>, rest: Option<Seq<T>>) -> Option<Seq<T>> {
    match rest {
        None => None,
        Some(r) => Some(done + r),
    }
}

/// The ext magic is in its place in a superblock at `offset` + 1024.
pub open spec fn has_magic(src: Source, offset: int) -> bool {
    src.fetch(offset + SUPERBLOCK_OFFSET + 0x38, 2) matches Some(m) && m.len() == 2 && le16(m, 0)
        == EXT_MAGIC
}

/// Does the superblock at `vol_offset + 1024` carry the ext magic?
pub fn is_ext_volume(src: &Source, vol_offset: u64) -> (r: bool)
    requires
        src.wf(),
    ensures
        r == has_magic(*src, vol_offset as int),
{
    if vol_offset > src.size() {
        return false;
    }
    match src.read_at(vol_offset + SUPERBLOCK_OFFSET + 0x38, 2) {
        Ok(m) => m.len() == 2 && rd_le16(&m, 0) == EXT_MAGIC,
        Err(_) => false,
    }
}

/// What is accepted as a volume carries the magic.
pub proof fn law_accepted_has_magic(src: Source, offset: int)
    requires
        0 <= offset,
        volume_at(src, offset) matches Some(Ok(_)),
    ensures
        has_magic(src, offset),
{
    let at = offset + SUPERBLOCK_OFFSET;
    let h = src.fetch(at, 1024)->Some_0;
    assert(!src.faulty(at + 0x38, 2)) by {
        if src.faulty(at + 0x38, 2) {
            let p = choose|p: int|
                at + 0x38 <= p < at + 0x38 + 2 && p < src@.len() && #[trigger] src.unreadable(p);
            assert(at <= p < at + 1024 && p < src@.len() && src.unreadable(p));
        }
    }
    let m = src.fetch(at + 0x38, 2)->Some_0;
    assert(m[0] == h[0x38]);
    assert(m[1] == h[0x39]);
}

/// The block size for its logarithm.
fn block_size_of(k: u32) -> (r: u64)
    requires
        k <= 6,
    ensures
        forall|h: Seq<u8>| le32(h, 0x18) == k ==> r == #[trigger] block_size_in(h),
        1024 <= r <= 65536,
{
    match k {
        0 => 1024,
        1 => 2048,
        2 => 4096,
        3 => 8192,
        4 => 16384,
        5 => 32768,
        _ => 65536,
    }
}

impl Volume {
    /// Parse and validate the ext superblock at `offset`.
    pub fn parse(src: &Source, offset: u64) -> (r: Result<Volume, VolumeError>)
        requires
            src.wf(),
        ensures
            match r {
                Ok(v) => v.wf() && (volume_at(*src, offset as int) matches Some(Ok(x)) && v.is_of(
                    offset as int,
                    x.0,
                    x.1,
                )),
                Err(VolumeError::Read(e)) => volume_at(*src, offset as int) is None && src.explains(
                    e,
                ),
                Err(e) => volume_at(*src, offset as int) matches Some(Err(x)) && x == e,
            },
    {
        if offset > src.size() {
            assert(!src.faulty(offset + SUPERBLOCK_OFFSET, 1024));
            return Err(VolumeError::Truncated);
        }
        let sb = match src.read_at(offset + SUPERBLOCK_OFFSET, 1024) {
            Ok(v) => v,
            Err(e) => {
                return Err(VolumeError::Read(e));
            },
        };
        if sb.len() < 1024 {
            return Err(VolumeError::Truncated);
        }
        if rd_le16(&sb, 0x38) != EXT_MAGIC {
            return Err(VolumeError::NotFound);
        }
        let log_block_size: u32 = rd_le32(&sb, 0x18);
        if log_block_size > 6 {
            return Err(VolumeError::BlockSize);
        }
        let block_size: u64 = block_size_of(log_block_size);
        assert(block_size == block_size_in(sb@));
        let recorded: u16 = rd_le16(&sb, 0x58);
        let inode_size: u64 = if recorded == 0 {
            128
        } else {
            recorded as u64
        };
        if inode_size < 128 || inode_size > block_size {
            return Err(VolumeError::InodeSize);
        }
        let inodes_per_group: u32 = rd_le32(&sb, 0x28);
        let blocks_per_group: u32 = rd_le32(&sb, 0x20);
        if inodes_per_group == 0 || blocks_per_group == 0 {
            return Err(VolumeError::Geometry);
        }
        let inodes_count: u32 = rd_le32(&sb, 0);
        let first_data_block: u64 = rd_le32(&sb, 0x14) as u64;
        let feature_incompat: u32 = rd_le32(&sb, 0x60);
        let wide = feature_incompat & INCOMPAT_64BIT != 0;
        let recorded: u16 = rd_le16(&sb, 0xFE);
        let desc_size: usize = if wide && recorded >= 32 {
            recorded as usize
        } else {
            32
        };
        let hi: u32 = if wide {
            rd_le32(&sb, 0x150)
        } else {
            0
        };
        let total_blocks: u64 = join_halves(rd_le32(&sb, 4), hi);
        let recorded: u32 = rd_le32(&sb, 0xE0);
        let journal_inum: u32 = if recorded == 0 {
            DEFAULT_JOURNAL_INODE
        } else {
            recorded
        };
        let group_count: u64 = ceil_div(inodes_count as u64, inodes_per_group as u64);
        proof {
            lemma_geometry(
                first_data_block as int,
                block_size as int,
                inodes_count as int,
                inodes_per_group as int,
                desc_size as int,
            );
        }
        let gdt_start: u64 = offset + (first_data_block + 1) * block_size;
        let (inode_tables, block_bitmaps) = match read_groups(
            src,
            gdt_start,
            desc_size,
            wide,
            group_count,
        ) {
            Ok(x) => x,
            Err(e) => {
                return Err(VolumeError::Read(e));
            },
        };
        if inode_tables.len() == 0 {
            return Err(VolumeError::NoGroups);
        }
        let label = padded_name(&sb[0x78..0x88]);
        let last_mounted = padded_name(&sb[0x88..0xC8]);
        let uuid = format_uuid(&sb[0x68..0x78]);
        let clean = rd_le16(&sb, 0x3A) & 0x0001 != 0;
        let version = classify_version(rd_le32(&sb, 0x5C), feature_incompat, rd_le32(&sb, 0x64));
        let written = from_unix(rd_le32(&sb, 0x30));
        let created = from_unix(rd_le32(&sb, 0x108));
        let free_inodes: u64 = rd_le32(&sb, 0x10) as u64;
        Ok(
            Volume {
                offset,
                block_size,
                inode_size,
                inodes_per_group,
                filetype_dirents: feature_incompat & INCOMPAT_FILETYPE != 0,
                total_blocks,
                journal_inum,
                inode_tables,
                block_bitmaps,
                blocks_per_group,
                first_data_block,
                label,
                last_mounted,
                uuid,
                clean,
                version,
                created,
                written,
                inodes_count: inodes_count as u64,
                free_inodes,
            },
        )
    }

    /// Inode usage as `(used, total)` — roughly how many files and directories the volume holds out of its
    /// inode table capacity.
    pub fn inode_usage(&self) -> (r: (u64, u64))
        ensures
            r.0 == if self.inodes_count >= self.free_inodes {
                self.inodes_count - self.free_inodes
            } else {
                0
            },
            r.1 == self.inodes_count,
    {
        (self.inodes_count.saturating_sub(self.free_inodes), self.inodes_count)
    }

    /// The detected ext variant: `"ext2"`, `"ext3"`, or `"ext4"`.
    pub fn version(&self) -> (r: &'static str)
        ensures
            r@ == self.version@,
    {
        self.version
    }

    /// The path the volume was last mounted on (`s_last_mounted`), or `None` when the superblock does not
    /// record one.
    pub fn last_mounted(&self) -> (r: Option<&str>)
        ensures
            match r {
                Some(t) => t@ == self.last_mounted@ && t@.len() > 0,
                None => self.last_mounted@.len() == 0,
            },
    {
        if self.last_mounted.as_str().unicode_len() == 0 {
            None
        } else {
            Some(self.last_mounted.as_str())
        }
    }

    /// Filesystem creation time (`s_mkfs_time`) as Unix seconds, or `None` when the superblock does not
    /// record it.
    pub fn created_time(&self) -> (r: Option<u64>)
        ensures
            r == self.created,
    {
        self.created
    }

    /// Last write time (`s_wtime`) as Unix seconds, or `None` when unset.
    pub fn written_time(&self) -> (r: Option<u64>)
        ensures
            r == self.written,
    {
        self.written
    }

    /// The volume label (`s_volume_name`), empty when unset.
    pub fn label(&self) -> (r: &str)
        ensures
            r@ == self.label@,
    {
        self.label.as_str()
    }

    /// The filesystem UUID (`s_uuid`), or `None` when unset.
    pub fn uuid(&self) -> (r: Option<String>)
        ensures
            text_view(r) == text_view(self.uuid),
    {
        match &self.uuid {
            Some(s) => Some(s.clone()),
            None => None,
        }
    }

    /// Whether the filesystem was cleanly unmounted (`s_state` bit 0).
    pub fn is_clean(&self) -> (r: bool)
        ensures
            r == self.clean,
    {
        self.clean
    }

    /// Total size of the volume in bytes.
    pub fn size(&self) -> (r: u64)
        ensures
            r == capped(self.total_blocks * self.block_size),
    {
        mul_capped(self.total_blocks, self.block_size)
    }

    /// The block (allocation unit) size in bytes.
    pub fn block_size(&self) -> (r: u64)
        ensures
            r == self.block_size,
    {
        self.block_size
    }

    /// What a block holds, as far as the image has it; nothing where it could not be read.
    pub open spec fn block(&self, src: Source, b: int) -> Option<Seq<u8>> {
        src.fetch(self.offset + b * self.block_size, self.block_size as int)
    }

    /// Read a block.
    pub fn read_block(&self, src: &Source, block: u64) -> (r: Result<Vec<u8>, ReadError>)
        requires
            self.wf(),
            src.wf(),
        ensures
            match r {
                Ok(v) => self.block(*src, block as int) == Some(v@),
                Err(e) => self.block(*src, block as int) is None && src.explains(e),
            },
    {
        let at: u64 = self.offset.saturating_add(mul_capped(block, self.block_size));
        proof {
            let off = self.offset + block * self.block_size;
            assert(block * self.block_size >= 0) by (nonlinear_arith);
            if off != at {
                assert(at == u64::MAX && off >= u64::MAX);
                assert(!src.faulty(off, self.block_size as int));
                assert(!src.faulty(at as int, self.block_size as int));
            }
        }
        src.read_at(at, self.block_size as usize)
    }
}

impl Volume {
    /// The bitmap of its group says that a block is free. A block for which the bitmap has no bit is not.
    pub open spec fn is_free(&self, src: Source, b: int) -> bool {
        let rel = b - self.first_data_block;
        let g = rel / self.blocks_per_group as int;
        let bit = rel % self.blocks_per_group as int;
        self.block(src, self.block_bitmaps@[g] as int) matches Some(m) && bit / 8 < m.len()
            && !bit_at(m[bit / 8], bit % 8)
    }

    /// The end of the blocks that have a bitmap.
    pub open spec fn mapped_end(&self) -> int {
        smaller(
            self.total_blocks as int,
            self.first_data_block + self.block_bitmaps@.len() * self.blocks_per_group,
        )
    }

    /// Where a block is.
    pub open spec fn block_start(&self, b: int) -> int {
        capped(self.offset + b * self.block_size)
    }

    /// The bitmap of the `g`-th group, which has a block of the volume, could not be read.
    pub open spec fn lacks_bitmap(&self, src: Source, g: int) -> bool {
        &&& 0 <= g < self.block_bitmaps@.len()
        &&& self.first_data_block + g * self.blocks_per_group < self.total_blocks
        &&& self.block(src, self.block_bitmaps@[g] as int) is None
    }

    /// The free space of the volume, in runs of blocks.
    pub open spec fn free_space(&self, src: Source) -> Seq<(u64, u64)> {
        if self.blocks_per_group == 0 {
            Seq::empty()
        } else {
            free_runs(
                |b: int| self.is_free(src, b),
                |b: int| self.block_start(b),
                self.block_size as int,
                self.first_data_block as int,
                self.mapped_end(),
            )
        }
    }

    /// Absolute byte ranges of the volume's **free** blocks, merged where contiguous, from each block group's
    /// block bitmap (a clear bit means the block is free). Carving these recovers deleted data without
    /// re-finding blocks still allocated to live files.
    pub fn free_extents(&self, src: &Source) -> (r: Result<Vec<(u64, u64)>, ReadError>)
        requires
            self.wf(),
            src.wf(),
        ensures
            match r {
                Ok(v) => v@ == self.free_space(*src),
                Err(e) => src.explains(e),
            },
            r is Err <==> self.blocks_per_group > 0 && exists|g: int| self.lacks_bitmap(*src, g),
    {
        let mut out: Vec<(u64, u64)> = Vec::new();
        if self.blocks_per_group == 0 {
            return Ok(out);
        }
        let per: u64 = self.blocks_per_group as u64;
        let n: u64 = self.block_bitmaps.len() as u64;
        let first: u64 = self.first_data_block;
        let ghost free = |b: int| self.is_free(*src, b);
        let ghost start = |b: int| self.block_start(b);
        let mut bitmap: Vec<u8> = Vec::new();
        let mut cur_group: u64 = u64::MAX;
        let mut block: u64 = first;
        assert(n * per >= 0) by (nonlinear_arith);
        while block < self.total_blocks
            invariant
                self.wf(),
                src.wf(),
                per == self.blocks_per_group,
                per > 0,
                n == self.block_bitmaps@.len() <= usize::MAX,
                first == self.first_data_block,
                first <= block,
                block <= self.total_blocks || block == first,
                block - first <= n * per,
                free == (|b: int| self.is_free(*src, b)),
                start == (|b: int| self.block_start(b)),
                cur_group < n ==> self.block(*src, self.block_bitmaps@[cur_group as int] as int)
                    == Some(bitmap@),
                cur_group < n || cur_group == u64::MAX,
                forall|g: int|
                    0 <= g < n && first + g * per < block ==> self.block(
                        *src,
                        #[trigger] self.block_bitmaps@[g] as int,
                    ) is Some,
                out@ == free_runs(free, start, self.block_size as int, first as int, block as int),
            decreases self.total_blocks - block,
        {
            let rel: u64 = block - first;
            let group: u64 = rel / per;
            if group >= n {
                assert(rel >= n * per) by (nonlinear_arith)
                    requires
                        rel / per >= n,
                        per > 0,
                ;
                assert(block == self.mapped_end());
                assert forall|g: int| !self.lacks_bitmap(*src, g) by {
                    if 0 <= g < n {
                        assert(g * per < n * per) by (nonlinear_arith)
                            requires
                                g < n,
                                per > 0,
                        ;
                        assert(self.block(*src, self.block_bitmaps@[g] as int) is Some);
                    }
                }
                return Ok(out);
            }
            assert(rel < n * per) by (nonlinear_arith)
                requires
                    rel / per < n,
                    per > 0,
                    rel >= 0,
            ;
            if group != cur_group {
                assert(group * per <= rel) by (nonlinear_arith)
                    requires
                        group == rel / per,
                        per > 0,
                        rel >= 0,
                ;
                assert(self.block(*src, self.block_bitmaps@[group as int] as int) is None
                    ==> self.lacks_bitmap(*src, group as int));
                bitmap = self.read_block(src, self.block_bitmaps[group as usize])?;
                cur_group = group;
            }
            assert forall|g: int| 0 <= g < n && first + g * per < block + 1 implies self.block(
                *src,
                #[trigger] self.block_bitmaps@[g] as int,
            ) is Some by {
                if first + g * per == block {
                    assert(g == rel / per) by (nonlinear_arith)
                        requires
                            g * per == rel,
                            per > 0,
                    ;
                }
            }
            let bit: u64 = rel % per;
            let allocated = if bit / 8 < bitmap.len() as u64 {
                has_bit(bitmap[(bit / 8) as usize], (bit % 8) as u8)
            } else {
                true
            };
            assert(free(block as int) == !allocated);
            if !allocated {
                let at: u64 = self.offset.saturating_add(mul_capped(block, self.block_size));
                assert(block * self.block_size >= 0) by (nonlinear_arith);
                assert(start(block as int) == at);
                add_run(&mut out, at, self.block_size);
            }
            block = block + 1;
        }
        assert(out@ =~= self.free_space(*src)) by {
            if first > self.total_blocks {
                assert(free_runs(
                    free,
                    start,
                    self.block_size as int,
                    first as int,
                    self.mapped_end(),
                ) =~= Seq::empty());
            }
        }
        Ok(out)
    }

    /// The free space of a volume that can be addressed lies in it, in order and apart, and a byte of a block
    /// that has a bitmap lies in it exactly if the block is free.
    pub proof fn law_free_space(&self, src: Source)
        requires
            self.wf(),
            self.offset + self.total_blocks * self.block_size <= u64::MAX,
        ensures
            ({
                let runs = self.free_space(src);
                let unit = self.block_size as int;
                &&& forall|k: int|
                    0 <= k < runs.len() ==> self.offset <= (#[trigger] runs[k]).0 && runs[k].1 > 0
                        && runs[k].0 + runs[k].1 <= self.offset + self.total_blocks * unit
                &&& forall|j: int, k: int|
                    0 <= j < k < runs.len() ==> (#[trigger] runs[j]).0 + runs[j].1 < (
                    #[trigger] runs[k]).0
                &&& forall|b: int, i: int|
                    self.first_data_block <= b < self.mapped_end() && 0 <= i < unit
                        ==> #[trigger] in_runs(runs, self.offset + b * unit + i) == self.is_free(
                        src,
                        b,
                    )
            }),
    {
        let unit = self.block_size as int;
        let lo = self.first_data_block as int;
        let hi = self.mapped_end();
        let free = |b: int| self.is_free(src, b);
        let base = self.offset as int;
        let total = self.total_blocks as int;
        assert(self.block_bitmaps@.len() * self.blocks_per_group >= 0) by (nonlinear_arith);
        if lo <= hi && self.blocks_per_group > 0 {
            assert(hi * unit <= total * unit) by (nonlinear_arith)
                requires
                    hi <= total,
                    unit > 0,
            ;
            assert(lo * unit >= 0) by (nonlinear_arith)
                requires
                    lo >= 0,
                    unit > 0,
            ;
            assert forall|b: int| 0 <= b < hi implies #[trigger] self.block_start(b) == base + b
                * unit by {
                assert(0 <= b * unit <= total * unit) by (nonlinear_arith)
                    requires
                        0 <= b <= total,
                        unit > 0,
                ;
            }
            lemma_same_starts(
                free,
                |b: int| self.block_start(b),
                |b: int| base + b * unit,
                unit,
                lo,
                hi,
            );
            law_free_runs(free, base, unit, lo, hi);
            assert forall|b: int, i: int| lo <= b < hi && 0 <= i < unit implies #[trigger] in_runs(
                self.free_space(src),
                base + b * unit + i,
            ) == self.is_free(src, b) by {
                assert(free(b) == self.is_free(src, b));
            }
        }
    }
}

/// Where group descriptors are can be addressed.
proof fn lemma_geometry(first: int, block: int, inodes: int, per_group: int, desc: int)
    requires
        0 <= first <= u32::MAX,
        1024 <= block <= 65536,
        0 <= inodes <= u32::MAX,
        0 < per_group,
        32 <= desc <= 0xFFFF,
    ensures
        0 <= (first + 1) * block <= 0x1_0000_0000_0000,
        0 <= ceil(inodes, per_group) <= u32::MAX,
        0 <= ceil(inodes, per_group) * desc <= 0x1_0000_0000_0000,
{
    assert((first + 1) * block <= 0x1_0000_0000 * 65536) by (nonlinear_arith)
        requires
            0 <= first + 1 <= 0x1_0000_0000,
            0 <= block <= 65536,
    ;
    assert((first + 1) * block >= 0) by (nonlinear_arith)
        requires
            0 <= first + 1,
            0 <= block,
    ;
    let c = ceil(inodes, per_group);
    assert(0 <= c <= inodes) by (nonlinear_arith)
        requires
            c == (inodes + per_group - 1) / per_group,
            0 <= inodes,
            0 < per_group,
    ;
    assert(0 <= c * desc <= 0x1_0000_0000 * 65536) by (nonlinear_arith)
        requires
            0 <= c <= 0x1_0000_0000,
            0 <= desc <= 65536,
    ;
}

} // verus!
