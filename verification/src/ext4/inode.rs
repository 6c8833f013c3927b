//! Inodes.

use crate::bytes::{le16, le32, rd_le16, rd_le32};
use crate::ext4::two_halves;
use vstd::prelude::*;

verus! {

pub const FLAG_EXTENTS: u32 = 0x0008_0000;

pub const EXTENT_MAGIC: u16 = 0xF30A;

pub const MODE_FMT: u16 = 0xF000;

pub const MODE_DIR: u16 = 0x4000;

pub const MODE_REG: u16 = 0x8000;

/// Where the block map of an inode is, and how long it is.
pub const BLOCK_MAP_AT: usize = 0x28;

pub const BLOCK_MAP_LEN: usize = 60;

/// The inode is that of a directory.
pub open spec fn is_dir(i: Seq<u8>) -> bool {
    le16(i, 0) & MODE_FMT == MODE_DIR
}

/// The inode is that of a regular file.
pub open spec fn is_reg(i: Seq<u8>) -> bool {
    le16(i, 0) & MODE_FMT == MODE_REG
}

/// The inode is that of something that was deleted: nothing links to it, or it has a deletion time.
pub open spec fn is_deleted(i: Seq<u8>) -> bool {
    le16(i, 0x1A) == 0 || le32(i, 0x14) != 0
}

/// The size of a directory.
pub open spec fn dir_len(i: Seq<u8>) -> int {
    le32(i, 4) as int
}

/// The size of a regular file, of which the upper half is elsewhere.
pub open spec fn reg_len(i: Seq<u8>) -> int {
    two_halves(le32(i, 4), le32(i, 0x6C))
}

/// The blocks of the inode are given by extents.
pub open spec fn uses_extents(i: Seq<u8>) -> bool {
    le32(i, 0x20) & FLAG_EXTENTS != 0
}

/// The block map of an inode.
pub open spec fn block_map(i: Seq<u8>) -> Seq<u8> {
    i.subrange(BLOCK_MAP_AT as int, BLOCK_MAP_AT + BLOCK_MAP_LEN)
}

/// The inode has a usable block map: a tree of extents with entries, or block pointers that are not all
/// zero.
pub open spec fn is_mapped(i: Seq<u8>) -> bool {
    i.len() >= BLOCK_MAP_AT + BLOCK_MAP_LEN && if uses_extents(i) {
        le16(block_map(i), 0) == EXTENT_MAGIC && le16(block_map(i), 2) > 0
    } else {
        exists|k: int| 0 <= k < BLOCK_MAP_LEN && #[trigger] block_map(i)[k] != 0
    }
}

pub fn inode_is_dir(inode: &[u8]) -> (r: bool)
    requires
        inode.len() >= 128,
    ensures
        r == is_dir(inode@),
{
    rd_le16(inode, 0) & MODE_FMT == MODE_DIR
}

pub fn inode_is_reg(inode: &[u8]) -> (r: bool)
    requires
        inode.len() >= 128,
    ensures
        r == is_reg(inode@),
{
    rd_le16(inode, 0) & MODE_FMT == MODE_REG
}

pub fn inode_is_deleted(inode: &[u8]) -> (r: bool)
    requires
        inode.len() >= 128,
    ensures
        r == is_deleted(inode@),
{
    rd_le16(inode, 0x1A) == 0 || rd_le32(inode, 0x14) != 0
}

pub fn inode_atime(inode: &[u8]) -> (r: u32)
    requires
        inode.len() >= 128,
    ensures
        r == le32(inode@, 8),
{
    rd_le32(inode, 8)
}

pub fn inode_mtime(inode: &[u8]) -> (r: u32)
    requires
        inode.len() >= 128,
    ensures
        r == le32(inode@, 0x10),
{
    rd_le32(inode, 0x10)
}

pub fn inode_ctime(inode: &[u8]) -> (r: u32)
    requires
        inode.len() >= 128,
    ensures
        r == le32(inode@, 0xC),
{
    rd_le32(inode, 0xC)
}

pub fn dir_size(inode: &[u8]) -> (r: u64)
    requires
        inode.len() >= 128,
    ensures
        r == dir_len(inode@),
{
    rd_le32(inode, 4) as u64
}

/// Regular-file size combines the low and high 32-bit halves.
pub fn reg_size(inode: &[u8]) -> (r: u64)
    requires
        inode.len() >= 128,
    ensures
        r == reg_len(inode@),
{
    crate::ext4::join_halves(rd_le32(inode, 4), rd_le32(inode, 0x6C))
}

/// Does this inode still have a usable block map (extent tree or block pointers)? Deletion on ext4 zeroes the
/// extent tree, leaving the inode present but unusable — in which case a journaled copy may still be intact.
/// A deleted inode keeps the extent header but with zero entries: that is not a usable map.
pub fn inode_has_blockmap(inode: &[u8]) -> (r: bool)
    ensures
        r == is_mapped(inode@),
{
    if inode.len() < BLOCK_MAP_AT + BLOCK_MAP_LEN {
        return false;
    }
    let map = &inode[BLOCK_MAP_AT..BLOCK_MAP_AT + BLOCK_MAP_LEN];
    assert(map@ =~= block_map(inode@));
    if rd_le32(inode, 0x20) & FLAG_EXTENTS != 0 {
        rd_le16(map, 0) == EXTENT_MAGIC && rd_le16(map, 2) > 0
    } else {
        let mut k: usize = 0;
        while k < BLOCK_MAP_LEN
            invariant
                k <= BLOCK_MAP_LEN == map.len(),
                map@ == block_map(inode@),
                inode.len() >= BLOCK_MAP_AT + BLOCK_MAP_LEN,
                !uses_extents(inode@),
                forall|j: int| 0 <= j < k ==> #[trigger] map@[j] == 0,
            decreases BLOCK_MAP_LEN - k,
        {
            if map[k] != 0 {
                assert(block_map(inode@)[k as int] != 0);
                return true;
            }
            k += 1;
        }
        false
    }
}

} // verus!
