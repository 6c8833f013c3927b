//! cramfs (Compressed ROM File System) **detection** — no metadata undelete.
//!
//! cramfs is a small compressed read-only Linux filesystem, long used for initrds, embedded systems, and
//! router/appliance firmware. Being read-only and compressed it has no deleted files to scavenge, so this
//! module only *recognises* a cramfs volume — reporting its size and label — and leaves extraction to
//! carving.
//!
//! The superblock is at offset 0 and is identified by the magic `0x28CD3D45` plus the ASCII signature
//! `Compressed ROMFS` at offset 0x10 — together an unambiguous match. Images may be big- or little-endian;
//! the byte order is taken from the magic.

use crate::bytes::{is_text, larger, max_u64, ord32, rd_ord32, text_at};
use crate::recover::{name_in, padded_name, RecoverOptions, RecoverStats, Recovery, VolumeError};
use crate::source::Source;
use vstd::prelude::*;
use vstd::string::*;

verus! {

/// `magic` (u32) at superblock offset 0.
pub const MAGIC: u32 = 0x28CD_3D45;

/// Byte offsets within the superblock: the total image size in bytes, the feature flags, a reserved word
/// that is always zero, the signature, and the name.
pub const SIZE_OFFSET: usize = 0x04;

pub const FLAGS_OFFSET: usize = 0x08;

pub const FUTURE_OFFSET: usize = 0x0C;

pub const SIGNATURE_OFFSET: usize = 0x10;

pub const NAME_OFFSET: usize = 0x30;

/// Every flag bit a kernel knows is below this; a set bit above is not cramfs.
pub const FLAG_LIMIT: u32 = 0x1000;

/// We read this much of the superblock to cover every field above.
pub const HEADER_LEN: usize = 0x40;

/// cramfs compresses in fixed 4 KiB blocks.
pub const BLOCK_SIZE: u64 = 4096;

/// A recognised cramfs volume (detection only; no metadata undelete).
pub struct Volume {
    /// Byte offset of the volume within the source.
    pub offset: u64,
    pub size: u64,
    /// Volume name, empty when unset.
    pub label: String,
}

/// What a volume says of itself.
#[verifier::ext_equal]
pub struct VolumeView {
    pub offset: int,
    pub size: int,
    pub label: Seq<char>,
}

impl View for Volume {
    type V = VolumeView;

    open spec fn view(&self) -> VolumeView {
        VolumeView { offset: self.offset as int, size: self.size as int, label: self.label@ }
    }
}

/// The byte order of a superblock; `Some(true)` is big-endian. `None` for what is no superblock: the
/// signature must be there, the reserved word must be zero, and no unknown flag may be set.
pub open spec fn order(h: Seq<u8>) -> Option<bool> {
    let big = ord32(h, 0, false) != MAGIC;
    if !text_at(h, SIGNATURE_OFFSET as int, "Compressed ROMFS"@) || ord32(h, 0, big) != MAGIC || ord32(
        h,
        FUTURE_OFFSET as int,
        big,
    ) != 0 || ord32(h, FLAGS_OFFSET as int, big) >= FLAG_LIMIT {
        None
    } else {
        Some(big)
    }
}

/// The volume at `offset` of an image of `image` bytes by its superblock, or what is wrong with it. Its size is
/// what it records, or all that is left of the image where that cannot be.
pub open spec fn volume_in(h: Seq<u8>, offset: int, image: int) -> Result<VolumeView, VolumeError> {
    if h.len() < HEADER_LEN {
        Err(VolumeError::Truncated)
    } else {
        match order(h) {
            None => Err(VolumeError::NotFound),
            Some(big) => {
                let rest = larger(image - offset, 0);
                let size = ord32(h, SIZE_OFFSET as int, big) as int;
                Ok(
                    VolumeView {
                        offset,
                        size: if 0 < size <= larger(rest, BLOCK_SIZE as int) {
                            size
                        } else {
                            rest
                        },
                        label: name_in(h.subrange(NAME_OFFSET as int, NAME_OFFSET + 16)),
                    },
                )
            },
        }
    }
}

/// What comes of the volume at `offset`: `None` where its superblock could not be read, what is wrong with it,
/// or the volume.
pub open spec fn volume_at(src: Source, offset: int) -> Option<Result<VolumeView, VolumeError>> {
    match src.fetch(offset, HEADER_LEN as int) {
        None => None,
        Some(h) => Some(volume_in(h, offset, src@.len() as int)),
    }
}

/// The byte order of a cramfs superblock at `hdr`, or `None` if it is not one. `Some(true)` is big-endian.
/// The magic and the signature must both match, and the fields between them must be ones `mkcramfs` writes:
/// the reserved word is zero and no unknown flag bit is set, so a magic and signature pasted over random
/// bytes is not taken for a volume.
fn byte_order(hdr: &[u8]) -> (r: Option<bool>)
    requires
        hdr.len() >= HEADER_LEN,
    ensures
        r == order(hdr@),
{
    if !is_text(hdr, SIGNATURE_OFFSET, "Compressed ROMFS") {
        return None;
    }
    let big = rd_ord32(hdr, 0, false) != MAGIC;
    if rd_ord32(hdr, 0, big) != MAGIC {
        return None;
    }
    if rd_ord32(hdr, FUTURE_OFFSET, big) != 0 || rd_ord32(hdr, FLAGS_OFFSET, big) >= FLAG_LIMIT {
        return None;
    }
    Some(big)
}

/// Does a cramfs superblock sit at `vol_offset`?
pub fn is_cramfs(src: &Source, vol_offset: u64) -> (r: bool)
    requires
        src.wf(),
    ensures
        r == (volume_at(*src, vol_offset as int) matches Some(Ok(_))),
{
    match src.read_at(vol_offset, HEADER_LEN) {
        Ok(hdr) => hdr.len() >= HEADER_LEN && byte_order(&hdr).is_some(),
        Err(_) => false,
    }
}

impl Volume {
    /// Parse the cramfs superblock at `offset`, failing if there is none.
    pub fn parse(src: &Source, offset: u64) -> (r: Result<Volume, VolumeError>)
        requires
            src.wf(),
        ensures
            match r {
                Ok(v) => volume_at(*src, offset as int) == Some(Ok::<VolumeView, VolumeError>(v@)),
                Err(VolumeError::Read(e)) => volume_at(*src, offset as int) is None && src.explains(
                    e,
                ),
                Err(e) => volume_at(*src, offset as int) == Some(
                    Err::<VolumeView, VolumeError>(e),
                ),
            },
    {
        let hdr = match src.read_at(offset, HEADER_LEN) {
            Ok(v) => v,
            Err(e) => {
                return Err(VolumeError::Read(e));
            },
        };
        if hdr.len() < HEADER_LEN {
            return Err(VolumeError::Truncated);
        }
        let big = match byte_order(&hdr) {
            Some(big) => big,
            None => {
                return Err(VolumeError::NotFound);
            },
        };
        let recorded: u64 = rd_ord32(&hdr, SIZE_OFFSET, big) as u64;
        let fallback: u64 = src.size().saturating_sub(offset);
        let size: u64 = if recorded > 0 && recorded <= max_u64(fallback, BLOCK_SIZE) {
            recorded
        } else {
            fallback
        };
        let label = padded_name(&hdr[NAME_OFFSET..NAME_OFFSET + 16]);
        Ok(Volume { offset, size, label })
    }

    /// Total size of the volume in bytes.
    pub fn size(&self) -> (r: u64)
        ensures
            r == self@.size,
    {
        self.size
    }

    /// Block size in bytes (cramfs compresses in fixed 4 KiB blocks).
    pub fn block_size(&self) -> (r: u64)
        ensures
            r == 4096,
    {
        BLOCK_SIZE
    }

    /// Short filesystem label.
    pub fn fs_label(&self) -> (r: &'static str)
        ensures
            r@ == "cramfs"@,
    {
        "cramfs"
    }

    /// The volume name, or an empty string when unset.
    pub fn label(&self) -> (r: &str)
        ensures
            r@ == self@.label,
    {
        self.label.as_str()
    }

    /// cramfs is read-only, so there are no deleted files to undelete; always returns an empty result so a
    /// mixed disk's other volumes still recover. Use carving to recover data from a cramfs volume.
    pub fn recover_deleted(&self, _src: &Source, _opts: &RecoverOptions) -> (r: Result<
        RecoverStats,
        VolumeError,
    >)
        ensures
            r matches Ok(s) && s.wf() && s@ == Recovery::none(),
    {
        Ok(RecoverStats::new())
    }
}

} // verus!
