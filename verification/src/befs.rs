//! BeFS (Be File System) **detection** — no metadata undelete.
//!
//! BeFS is the 64-bit journaling filesystem of BeOS, and the native filesystem of Haiku, its modern
//! open-source successor. Its B+tree metadata is unlike the filesystems already handled here, and the
//! on-disk layout is specialised, so this module only *recognises* a BeFS volume — reporting its name and
//! size — and leaves recovery to carving.
//!
//! The superblock sits 512 bytes into the volume (just past the boot block). It can be stored big- or
//! little-endian (BeFS ran on PowerPC and x86); the byte order is resolved from the first magic, and the
//! second magic is then checked in the same order to guard against a false positive.

use crate::bytes::{
    capped, larger, max_u64, mul_capped, mul_wide, ord32, ord64, rd_ord32, rd_ord64,
};
use crate::recover::{name_in, padded_name, RecoverOptions, RecoverStats, Recovery, VolumeError};
use crate::source::Source;
use vstd::prelude::*;
use vstd::string::*;

verus! {

/// The superblock sits 512 bytes into the volume.
pub const SB_OFFSET: u64 = 512;

/// `magic1` (`BFS1`) and `magic2`, used together to identify the superblock.
pub const MAGIC1: u32 = 0x4246_5331;

pub const MAGIC2: u32 = 0xDD12_1031;

/// Byte offsets within the superblock.
pub const NAME_OFFSET: usize = 0x00;

pub const MAGIC1_OFFSET: usize = 0x20;

pub const BLOCK_SIZE_OFFSET: usize = 0x28;

pub const NUM_BLOCKS_OFFSET: usize = 0x30;

pub const USED_BLOCKS_OFFSET: usize = 0x38;

pub const MAGIC2_OFFSET: usize = 0x44;

/// We read this much of the superblock to cover every field above.
pub const HEADER_LEN: usize = 0x48;

/// A recognised BeFS volume (detection only; no metadata undelete).
pub struct Volume {
    /// Byte offset of the volume within the source.
    pub offset: u64,
    pub size: u64,
    /// Allocation block size in bytes.
    pub block_size: u64,
    /// Free (unallocated) bytes (`num_blocks − used_blocks` × block size).
    pub free_bytes: u64,
    /// Volume name, empty when unset.
    pub label: String,
}

/// What a volume says of itself.
#[verifier::ext_equal]
pub struct VolumeView {
    pub offset: int,
    pub size: int,
    pub block_size: int,
    pub free_bytes: int,
    pub label: Seq<char>,
}

impl View for Volume {
    type V = VolumeView;

    open spec fn view(&self) -> VolumeView {
        VolumeView {
            offset: self.offset as int,
            size: self.size as int,
            block_size: self.block_size as int,
            free_bytes: self.free_bytes as int,
            label: self.label@,
        }
    }
}

/// Both magics are in a superblock, in a byte order.
pub open spec fn has_magics(h: Seq<u8>, big: bool) -> bool {
    ord32(h, MAGIC1_OFFSET as int, big) == MAGIC1 && ord32(h, MAGIC2_OFFSET as int, big) == MAGIC2
}

/// The byte order of a superblock; `Some(true)` is big-endian. `None` for what is no superblock.
pub open spec fn order(h: Seq<u8>) -> Option<bool> {
    if has_magics(h, false) {
        Some(false)
    } else if has_magics(h, true) {
        Some(true)
    } else {
        None
    }
}

/// A block size that BeFS uses: a power of two from 1 KiB to 8 KiB.
pub open spec fn is_block_size(n: u32) -> bool {
    n == 1024 || n == 2048 || n == 4096 || n == 8192
}

/// The volume at `offset` of an image of `image` bytes by its superblock, or what is wrong with it. Its size is
/// what it records, or all that is left of the image where that cannot be.
pub open spec fn volume_in(h: Seq<u8>, offset: int, image: int) -> Result<VolumeView, VolumeError> {
    if h.len() < HEADER_LEN {
        Err(VolumeError::Truncated)
    } else {
        match order(h) {
            None => Err(VolumeError::NotFound),
            Some(big) => {
                let block_size = ord32(h, BLOCK_SIZE_OFFSET as int, big);
                let blocks = ord64(h, NUM_BLOCKS_OFFSET as int, big) as int;
                let used = ord64(h, USED_BLOCKS_OFFSET as int, big) as int;
                let rest = larger(image - offset, 0);
                let size = blocks * block_size;
                if !is_block_size(block_size) {
                    Err(VolumeError::Geometry)
                } else {
                    Ok(
                        VolumeView {
                            offset,
                            size: if 0 < size <= larger(rest, block_size as int) {
                                size
                            } else {
                                rest
                            },
                            block_size: block_size as int,
                            free_bytes: capped(larger(blocks - used, 0) * block_size),
                            label: name_in(h.subrange(NAME_OFFSET as int, NAME_OFFSET + 32)),
                        },
                    )
                }
            },
        }
    }
}

/// What comes of the volume at `offset`, whose superblock is 512 bytes on: `None` where that could not be read,
/// what is wrong with it, or the volume.
pub open spec fn volume_at(src: Source, offset: int) -> Option<Result<VolumeView, VolumeError>> {
    if offset + SB_OFFSET > u64::MAX {
        Some(Err(VolumeError::OffsetOverflow))
    } else {
        match src.fetch(offset + SB_OFFSET, HEADER_LEN as int) {
            None => None,
            Some(h) => Some(volume_in(h, offset, src@.len() as int)),
        }
    }
}

/// The byte order of a BeFS superblock at `hdr`, or `None` if `hdr` is not one. `Some(true)` is big-endian,
/// `Some(false)` little-endian.
fn byte_order(hdr: &[u8]) -> (r: Option<bool>)
    requires
        hdr.len() >= HEADER_LEN,
    ensures
        r == order(hdr@),
{
    if rd_ord32(hdr, MAGIC1_OFFSET, false) == MAGIC1 && rd_ord32(hdr, MAGIC2_OFFSET, false)
        == MAGIC2 {
        Some(false)
    } else if rd_ord32(hdr, MAGIC1_OFFSET, true) == MAGIC1 && rd_ord32(hdr, MAGIC2_OFFSET, true)
        == MAGIC2 {
        Some(true)
    } else {
        None
    }
}

/// Does a BeFS superblock sit at `vol_offset`? Both magics must match and the block size must be one BeFS
/// uses.
pub fn is_befs(src: &Source, vol_offset: u64) -> (r: bool)
    requires
        src.wf(),
    ensures
        r == (volume_at(*src, vol_offset as int) matches Some(Ok(_))),
{
    match Volume::parse(src, vol_offset) {
        Ok(_) => true,
        Err(_) => false,
    }
}

impl Volume {
    /// Parse the BeFS superblock at `offset`, failing if there is none.
    pub fn parse(src: &Source, offset: u64) -> (r: Result<Volume, VolumeError>)
        requires
            src.wf(),
        ensures
            match r {
                Ok(v) => volume_at(*src, offset as int) == Some(Ok::<VolumeView, VolumeError>(v@)),
                Err(VolumeError::Read(e)) => volume_at(*src, offset as int) is None && src.explains(
                    e,
                ),
                Err(e) => volume_at(*src, offset as int) == Some(
                    Err::<VolumeView, VolumeError>(e),
                ),
            },
    {
        if offset > u64::MAX - SB_OFFSET {
            return Err(VolumeError::OffsetOverflow);
        }
        let hdr = match src.read_at(offset + SB_OFFSET, HEADER_LEN) {
            Ok(v) => v,
            Err(e) => {
                return Err(VolumeError::Read(e));
            },
        };
        if hdr.len() < HEADER_LEN {
            return Err(VolumeError::Truncated);
        }
        let big = match byte_order(&hdr) {
            Some(big) => big,
            None => {
                return Err(VolumeError::NotFound);
            },
        };
        let block_size: u32 = rd_ord32(&hdr, BLOCK_SIZE_OFFSET, big);
        if !(block_size == 1024 || block_size == 2048 || block_size == 4096 || block_size == 8192) {
            return Err(VolumeError::Geometry);
        }
        let num_blocks: u64 = rd_ord64(&hdr, NUM_BLOCKS_OFFSET, big);
        let used_blocks: u64 = rd_ord64(&hdr, USED_BLOCKS_OFFSET, big);
        let free_bytes: u64 = mul_capped(num_blocks.saturating_sub(used_blocks), block_size as u64);
        let fallback: u64 = src.size().saturating_sub(offset);
        let recorded: u128 = mul_wide(num_blocks, block_size as u64);
        let size: u64 = if recorded > 0 && recorded <= max_u64(fallback, block_size as u64) as u128 {
            recorded as u64
        } else {
            fallback
        };
        let label = padded_name(&hdr[NAME_OFFSET..NAME_OFFSET + 32]);
        Ok(Volume { offset, size, block_size: block_size as u64, free_bytes, label })
    }

    /// Total size of the volume in bytes.
    pub fn size(&self) -> (r: u64)
        ensures
            r == self@.size,
    {
        self.size
    }

    /// Allocation block size in bytes.
    pub fn block_size(&self) -> (r: u64)
        ensures
            r == self@.block_size,
    {
        self.block_size
    }

    /// Free (unallocated) bytes in the volume.
    pub fn free_bytes(&self) -> (r: u64)
        ensures
            r == self@.free_bytes,
    {
        self.free_bytes
    }

    /// Short filesystem label.
    pub fn fs_label(&self) -> (r: &'static str)
        ensures
            r@ == "BeFS"@,
    {
        "BeFS"
    }

    /// The volume name, or an empty string when unset.
    pub fn label(&self) -> (r: &str)
        ensures
            r@ == self@.label,
    {
        self.label.as_str()
    }

    /// BeFS metadata undelete is not supported (see the module docs); always returns an empty result so a
    /// mixed disk's other volumes still recover. Use carving to recover data from a BeFS volume.
    pub fn recover_deleted(&self, _src: &Source, _opts: &RecoverOptions) -> (r: Result<
        RecoverStats,
        VolumeError,
    >)
        ensures
            r matches Ok(s) && s.wf() && s@ == Recovery::none(),
    {
        Ok(RecoverStats::new())
    }
}

} // verus!
