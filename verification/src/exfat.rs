//! Filesystem-aware recovery for exFAT volumes.
//!
//! exFAT is the default filesystem for SD/SDXC cards larger than 32 GB and for most modern cameras.
//!
//! ## How exFAT deletion works
//!
//! Directories are made of 32-byte entries grouped into "entry sets". Each entry's first byte is a type code
//! whose high bit (`0x80`) is the **InUse** flag. Deleting a file simply **clears that bit** on every entry of
//! its set; the name, attributes, first cluster, and data length are all left intact. Unlike FAT, no part of the
//! name is lost.
//!
//! exFAT also avoids the per-file FAT chain whenever a file is stored contiguously: the stream-extension entry
//! carries a `NoFatChain` flag plus the first cluster and exact byte length. That makes contiguous deleted files
//! trivially and reliably recoverable — we just read `DataLength` bytes from the first cluster. Fragmented files
//! fall back to following the FAT (when its chain survived the delete).

pub mod entries;
pub mod laws;
pub mod lists;
pub mod undelete;

use crate::bytes::{
    bit_at, capped, has_bit, is_text, larger, le16, le32, le64, min_u64, mul_capped, pow2_u64,
    rd_le16, rd_le32, rd_le64, smaller, text_at,
};
use crate::recover::{
    add_run, free_runs, in_runs, law_free_runs, lemma_same_starts, lemma_u32_set, VolumeError,
};
use crate::source::{ReadError, Source};
use crate::strings::{utf16_lossy, utf16_text};
use std::collections::HashSet;
use vstd::arithmetic::power2::{lemma_pow2_adds, lemma_pow2_pos, lemma_pow2_strictly_increases, pow2};
use vstd::prelude::*;
use vstd::string::*;

verus! {

broadcast use vstd::std_specs::hash::group_hash_axioms;

/// Cap on the bytes of a directory that are read.
pub const MAX_DIR_BYTES: u64 = 67_108_864;

/// Cap on the bytes of the allocation bitmap that are read.
pub const MAX_BITMAP: u64 = 268_435_456;

/// A parsed exFAT volume.
pub struct Volume {
    /// Byte offset of the volume within the source.
    pub offset: u64,
    pub bytes_per_sector: u64,
    pub sectors_per_cluster: u64,
    pub fat_offset_sectors: u64,
    pub cluster_heap_offset_sectors: u64,
    pub cluster_count: u32,
    pub root_cluster: u32,
    pub volume_length_sectors: u64,
    /// Volume label (from the root directory's `0x83` entry), empty when unset.
    pub label: String,
    /// Volume serial number (`VolumeSerialNumber`), 0 when unset.
    pub serial: u32,
    /// Whether the volume is marked dirty (`VolumeFlags` bit 1).
    pub dirty: bool,
}

/// A sector is that of an exFAT volume boot record.
pub open spec fn is_vbr(s: Seq<u8>) -> bool {
    text_at(s, 3, "EXFAT   "@)
}

/// Does this sector look like an exFAT volume boot record?
pub fn is_exfat_vbr(s: &[u8]) -> (r: bool)
    ensures
        r == is_vbr(s@),
{
    is_text(s, 3, "EXFAT   ")
}

/// What is wrong with a boot sector. A cluster is 32 MiB at most: the shifts of sector and cluster size total 25
/// at most.
pub open spec fn boot_fault(h: Seq<u8>) -> Option<VolumeError> {
    if h.len() < 512 {
        Some(VolumeError::Truncated)
    } else if !is_vbr(h) {
        Some(VolumeError::NotFound)
    } else if !(9 <= h[108] <= 12) {
        Some(VolumeError::SectorSize)
    } else if h[108] + h[109] > 25 {
        Some(VolumeError::ClusterSize)
    } else {
        None
    }
}

impl Volume {
    /// The sizes are such as a boot sector may give.
    pub open spec fn wf(&self) -> bool {
        &&& self.offset <= i64::MAX
        &&& 512 <= self.bytes_per_sector <= 4096
        &&& 1 <= self.sectors_per_cluster
        &&& self.sectors_per_cluster * self.bytes_per_sector <= 0x200_0000
        &&& self.fat_offset_sectors <= u32::MAX
        &&& self.cluster_heap_offset_sectors <= u32::MAX
    }

    /// The geometry is what a boot sector says.
    pub open spec fn is_of(&self, offset: int, h: Seq<u8>) -> bool {
        &&& self.offset == offset
        &&& self.bytes_per_sector == pow2(h[108] as nat)
        &&& self.sectors_per_cluster == pow2(h[109] as nat)
        &&& self.fat_offset_sectors == le32(h, 80)
        &&& self.cluster_heap_offset_sectors == le32(h, 88)
        &&& self.cluster_count == le32(h, 92)
        &&& self.root_cluster == le32(h, 96)
        &&& self.volume_length_sectors == le64(h, 72)
        &&& self.serial == le32(h, 100)
        &&& self.dirty == (le16(h, 106) & 0x0002 != 0)
    }

    /// The size of a cluster.
    pub open spec fn cluster_len(&self) -> int {
        self.sectors_per_cluster * self.bytes_per_sector
    }

    /// The last cluster number that can be. Clusters are numbered 2..=cluster_count+1.
    pub open spec fn max_cluster(&self) -> int {
        smaller(self.cluster_count + 1, u32::MAX as int)
    }

    /// A cluster number that can be.
    pub open spec fn is_cluster(&self, c: u32) -> bool {
        2 <= c <= self.max_cluster()
    }

    /// Where the cluster heap is.
    pub open spec fn heap_pos(&self) -> int {
        self.offset + self.cluster_heap_offset_sectors * self.bytes_per_sector
    }

    /// Where a cluster is.
    pub open spec fn cluster_pos(&self, c: u32) -> int {
        self.heap_pos() + larger(c - 2, 0) * self.cluster_len()
    }

    /// The next cluster in the FAT chain: none at end/free/bad/out-of-range, and `None` where the FAT could not
    /// be read.
    pub open spec fn next(&self, src: Source, c: u32) -> Option<Option<u32>> {
        match src.fetch(
            self.offset + self.fat_offset_sectors * self.bytes_per_sector + c * 4,
            4,
        ) {
            None => None,
            Some(d) => if d.len() < 4 || !self.is_cluster(le32(d, 0)) || le32(d, 0) == 0xFFFF_FFF7 || le32(
                d,
                0,
            ) == 0xFFFF_FFFF {
                Some(None)
            } else {
                Some(Some(le32(d, 0)))
            },
        }
    }

    /// What is read of a directory along its FAT chain from cluster `c` on, behind what was read before: up to
    /// `limit` bytes, and no more than directories may have. A chain that leads back ends there. `None` where a
    /// cluster or the FAT could not be read.
    pub open spec fn chain_from(
        &self,
        src: Source,
        c: u32,
        limit: Option<u64>,
        passed: Set<u32>,
        buf: Seq<u8>,
    ) -> Option<Seq<u8>>
        decreases 0x1_0000_0000 - passed.len(),
        when passed.finite()
    {
        proof {
            lemma_u32_set(passed.insert(c));
        }
        if !self.is_cluster(c) || passed.contains(c) || buf.len() + self.cluster_len()
            > MAX_DIR_BYTES {
            Some(buf)
        } else {
            match src.fetch(self.cluster_pos(c), self.cluster_len()) {
                None => None,
                Some(d) => if limit matches Some(n) && (buf + d).len() >= n {
                    Some((buf + d).take(limit->Some_0 as int))
                } else {
                    match self.next(src, c) {
                        None => None,
                        Some(None) => Some(buf + d),
                        Some(Some(n)) => self.chain_from(src, n, limit, passed.insert(c), buf + d),
                    }
                },
            }
        }
    }

    /// What is read of a directory, contiguously or via the FAT chain.
    pub open spec fn directory(
        &self,
        src: Source,
        first: u32,
        len: Option<u64>,
        contiguous: bool,
    ) -> Option<Seq<u8>> {
        if contiguous {
            src.fetch(
                self.cluster_pos(first),
                smaller(
                    match len {
                        Some(n) => n as int,
                        None => self.cluster_len(),
                    },
                    MAX_DIR_BYTES as int,
                ),
            )
        } else {
            self.chain_from(src, first, len, Set::empty(), Seq::empty())
        }
    }

    /// What is read of the root directory.
    pub open spec fn root(&self, src: Source) -> Option<Seq<u8>> {
        self.directory(src, self.root_cluster, None, false)
    }
}

/// The label in a root directory from the `i`-th entry on: a character count, then up to 11 units.
pub open spec fn label_from(b: Seq<u8>, i: int) -> Seq<char>
    decreases b.len() as int / 32 - i,
{
    let at = 32 * i;
    if i < 0 || i >= b.len() as int / 32 || b[at] == 0 {
        Seq::empty()
    } else if b[at] == 0x83 {
        utf16_text(
            Seq::new(smaller(b[at + 1] as int, 11) as nat, |k: int| le16(b, at + 2 + 2 * k)),
            0,
        )
    } else {
        label_from(b, i + 1)
    }
}

/// Where the (first) allocation bitmap is, by the entries of a root directory from the `i`-th on: its first
/// cluster and its length.
pub open spec fn bitmap_from(b: Seq<u8>, i: int) -> Option<(u32, u64)>
    decreases b.len() as int / 32 - i,
{
    let at = 32 * i;
    if i < 0 || i >= b.len() as int / 32 || b[at] == 0 {
        None
    } else if b[at] == 0x81 && b[at + 1] & 0x01 == 0 {
        Some((le32(b, at + 20), le64(b, at + 24)))
    } else {
        bitmap_from(b, i + 1)
    }
}

/// What comes of the volume at `offset`: `None` where its boot sector could not be read, what is wrong with it,
/// or its boot sector.
pub open spec fn volume_at(src: Source, offset: int) -> Option<Result<Seq<u8>, VolumeError>> {
    match src.fetch(offset, 512) {
        None => None,
        Some(h) => match boot_fault(h) {
            Some(e) => Some(Err(e)),
            None => Some(Ok(h)),
        },
    }
}

/// Powers of two that make a cluster.
proof fn lemma_shifts(a: nat, b: nat)
    requires
        9 <= a <= 12,
        a + b <= 25,
    ensures
        512 <= pow2(a) <= 4096,
        1 <= pow2(b),
        pow2(b) * pow2(a) <= 0x200_0000,
{
    vstd::arithmetic::power2::lemma2_to64();
    lemma_pow2_pos(b);
    lemma_pow2_adds(b, a);
    if 9 < a {
        lemma_pow2_strictly_increases(9, a);
    }
    if a < 12 {
        lemma_pow2_strictly_increases(a, 12);
    }
    if a + b < 25 {
        lemma_pow2_strictly_increases(a + b, 25);
    }
}

impl Volume {
    /// What the volume's numbers are bounded by.
    pub proof fn lemma_bounds(&self, c: int)
        requires
            self.wf(),
            0 <= c <= u32::MAX,
        ensures
            512 <= self.cluster_len() <= 0x200_0000,
            0 <= self.cluster_heap_offset_sectors * self.bytes_per_sector <= 0x1000_0000_0000,
            0 <= self.fat_offset_sectors * self.bytes_per_sector <= 0x1000_0000_0000,
            0 <= c * self.cluster_len() <= 0x200_0000_0000_0000,
    {
        let bps = self.bytes_per_sector as int;
        let spc = self.sectors_per_cluster as int;
        let len = self.cluster_len();
        let heap = self.cluster_heap_offset_sectors as int;
        let fat = self.fat_offset_sectors as int;
        assert(spc * bps >= bps) by (nonlinear_arith)
            requires
                spc >= 1,
                bps >= 0,
        ;
        assert(0 <= heap * bps <= 0xFFFF_FFFF * 4096) by (nonlinear_arith)
            requires
                0 <= heap <= 0xFFFF_FFFF,
                0 <= bps <= 4096,
        ;
        assert(0 <= fat * bps <= 0xFFFF_FFFF * 4096) by (nonlinear_arith)
            requires
                0 <= fat <= 0xFFFF_FFFF,
                0 <= bps <= 4096,
        ;
        assert(0 <= c * len <= 0xFFFF_FFFF * 0x200_0000) by (nonlinear_arith)
            requires
                0 <= c <= 0xFFFF_FFFF,
                0 <= len <= 0x200_0000,
        ;
    }

    /// Parse and validate the exFAT boot sector at `offset`.
    pub fn parse(src: &Source, offset: u64) -> (r: Result<Volume, VolumeError>)
        requires
            src.wf(),
        ensures
            match r {
                Ok(v) => v.wf() && (volume_at(*src, offset as int) matches Some(Ok(h)) && v.is_of(
                    offset as int,
                    h,
                )) && v.label@ == (match v.root(*src) {
                    Some(b) => label_from(b, 0),
                    None => Seq::empty(),
                }),
                Err(VolumeError::Read(e)) => volume_at(*src, offset as int) is None && src.explains(
                    e,
                ),
                Err(e) => volume_at(*src, offset as int) matches Some(Err(x)) && x == e,
            },
    {
        let boot = match src.read_at(offset, 512) {
            Ok(v) => v,
            Err(e) => {
                return Err(VolumeError::Read(e));
            },
        };
        if boot.len() < 512 {
            return Err(VolumeError::Truncated);
        }
        if !is_exfat_vbr(&boot) {
            return Err(VolumeError::NotFound);
        }
        let a: u8 = boot[108];
        let b: u8 = boot[109];
        if !(9 <= a && a <= 12) {
            return Err(VolumeError::SectorSize);
        }
        if a as u32 + b as u32 > 25 {
            return Err(VolumeError::ClusterSize);
        }
        proof {
            lemma_shifts(a as nat, b as nat);
        }
        let mut vol = Volume {
            offset,
            bytes_per_sector: pow2_u64(a as u32),
            sectors_per_cluster: pow2_u64(b as u32),
            fat_offset_sectors: rd_le32(&boot, 80) as u64,
            cluster_heap_offset_sectors: rd_le32(&boot, 88) as u64,
            cluster_count: rd_le32(&boot, 92),
            root_cluster: rd_le32(&boot, 96),
            volume_length_sectors: rd_le64(&boot, 72),
            label: String::new(),
            serial: rd_le32(&boot, 100),
            dirty: rd_le16(&boot, 106) & 0x0002 != 0,
        };
        let label = vol.read_label(src);
        let ghost before = vol;
        vol.label = label;
        proof {
            vol.lemma_same_root(before, *src);
        }
        Ok(vol)
    }

    /// Reading does not depend on the label.
    proof fn lemma_same_chain(
        &self,
        other: Volume,
        src: Source,
        c: u32,
        limit: Option<u64>,
        passed: Set<u32>,
        buf: Seq<u8>,
    )
        requires
            *self == (Volume { label: self.label, ..other }),
            passed.finite(),
        ensures
            self.chain_from(src, c, limit, passed, buf) == other.chain_from(
                src,
                c,
                limit,
                passed,
                buf,
            ),
        decreases 0x1_0000_0000 - passed.len(),
    {
        lemma_u32_set(passed.insert(c));
        if self.is_cluster(c) && !passed.contains(c) && buf.len() + self.cluster_len()
            <= MAX_DIR_BYTES {
            if let Some(d) = src.fetch(self.cluster_pos(c), self.cluster_len()) {
                if let Some(Some(n)) = self.next(src, c) {
                    self.lemma_same_chain(other, src, n, limit, passed.insert(c), buf + d);
                }
            }
        }
    }

    proof fn lemma_same_root(&self, other: Volume, src: Source)
        requires
            *self == (Volume { label: self.label, ..other }),
        ensures
            self.root(src) == other.root(src),
    {
        self.lemma_same_chain(other, src, self.root_cluster, None, Set::empty(), Seq::empty());
    }

    pub(crate) fn cluster_bytes(&self) -> (r: u64)
        requires
            self.wf(),
        ensures
            r == self.cluster_len(),
            512 <= r <= 0x200_0000,
    {
        proof {
            self.lemma_bounds(0);
        }
        self.sectors_per_cluster * self.bytes_per_sector
    }

    pub(crate) fn max_valid_cluster(&self) -> (r: u32)
        ensures
            r == self.max_cluster(),
    {
        self.cluster_count.saturating_add(1)
    }

    /// Absolute byte offset of a data cluster.
    pub(crate) fn cluster_offset(&self, cluster: u32) -> (r: u64)
        requires
            self.wf(),
        ensures
            r == self.cluster_pos(cluster),
    {
        let n: u64 = cluster.saturating_sub(2) as u64;
        proof {
            self.lemma_bounds(n as int);
        }
        self.offset + self.cluster_heap_offset_sectors * self.bytes_per_sector + n
            * self.cluster_bytes()
    }

    /// Next cluster in the FAT chain, or `None` at end/free/bad/out-of-range.
    pub(crate) fn next_cluster(&self, src: &Source, cluster: u32) -> (r: Result<Option<u32>, ReadError>)
        requires
            self.wf(),
            src.wf(),
        ensures
            match r {
                Ok(n) => self.next(*src, cluster) == Some(n),
                Err(e) => self.next(*src, cluster) is None && src.explains(e),
            },
            r matches Ok(Some(n)) ==> self.is_cluster(n),
    {
        proof {
            self.lemma_bounds(0);
        }
        let off: u64 = self.offset + self.fat_offset_sectors * self.bytes_per_sector + cluster as u64
            * 4;
        let d = src.read_at(off, 4)?;
        if d.len() < 4 {
            return Ok(None);
        }
        let v: u32 = rd_le32(&d, 0);
        if v < 2 || v > self.max_valid_cluster() || v == 0xFFFF_FFF7 || v == 0xFFFF_FFFF {
            Ok(None)
        } else {
            Ok(Some(v))
        }
    }

    /// Read a directory's raw bytes, contiguously or via the FAT chain.
    pub(crate) fn read_directory(&self, src: &Source, first_cluster: u32, len: Option<u64>, contiguous: bool) -> (r:
        Result<Vec<u8>, ReadError>)
        requires
            self.wf(),
            src.wf(),
        ensures
            match r {
                Ok(v) => self.directory(*src, first_cluster, len, contiguous) == Some(v@) && v@.len()
                    <= MAX_DIR_BYTES,
                Err(e) => self.directory(*src, first_cluster, len, contiguous) is None
                    && src.explains(e),
            },
    {
        let cb: u64 = self.cluster_bytes();
        if contiguous {
            let total: u64 = match len {
                Some(n) => n,
                None => cb,
            };
            return src.read_at(
                self.cluster_offset(first_cluster),
                min_u64(total, MAX_DIR_BYTES) as usize,
            );
        }
        let mut buf: Vec<u8> = Vec::new();
        let mut cluster: u32 = first_cluster;
        let mut guard: HashSet<u32> = HashSet::new();
        let ghost all = self.directory(*src, first_cluster, len, contiguous);
        loop
            invariant
                self.wf(),
                src.wf(),
                cb == self.cluster_len(),
                512 <= cb <= 0x200_0000,
                guard@.finite(),
                buf@.len() <= MAX_DIR_BYTES,
                all == self.directory(*src, first_cluster, len, contiguous),
                all == self.chain_from(*src, cluster, len, guard@, buf@),
            decreases 0x1_0000_0000 - guard@.len(),
        {
            proof {
                lemma_u32_set(guard@.insert(cluster));
            }
            if cluster < 2 || cluster > self.max_valid_cluster() || !guard.insert(cluster) {
                return Ok(buf);
            }
            if buf.len() as u64 + cb > MAX_DIR_BYTES {
                return Ok(buf);
            }
            let mut chunk = src.read_at(self.cluster_offset(cluster), cb as usize)?;
            buf.append(&mut chunk);
            if let Some(limit) = len {
                if buf.len() as u64 >= limit {
                    let ghost whole = buf@;
                    buf.truncate(limit as usize);
                    assert(buf@ =~= whole.take(limit as int));
                    return Ok(buf);
                }
            }
            match self.next_cluster(src, cluster)? {
                Some(next) => {
                    cluster = next;
                },
                None => {
                    return Ok(buf);
                },
            }
        }
    }

    /// Read the volume label from the root directory's Volume Label entry (`0x83`: a character count then up to
    /// 11 UTF-16LE units). Empty on any read error or when no label is set.
    fn read_label(&self, src: &Source) -> (r: String)
        requires
            self.wf(),
            src.wf(),
        ensures
            r@ == (match self.root(*src) {
                Some(b) => label_from(b, 0),
                None => Seq::empty(),
            }),
    {
        let root = match self.read_directory(src, self.root_cluster, None, false) {
            Ok(b) => b,
            Err(_) => {
                return String::new();
            },
        };
        let total: usize = root.len() / 32;
        let mut i: usize = 0;
        while i < total
            invariant
                i <= total == root@.len() as int / 32,
                root@.len() <= MAX_DIR_BYTES,
                self.root(*src) == Some(root@),
                label_from(root@, 0) == label_from(root@, i as int),
            decreases total - i,
        {
            let at: usize = 32 * i;
            if root[at] == 0 {
                return String::new();
            }
            if root[at] == 0x83 {
                let count: usize = if root[at + 1] < 11 {
                    root[at + 1] as usize
                } else {
                    11
                };
                let mut units: Vec<u16> = Vec::new();
                let mut k: usize = 0;
                while k < count
                    invariant
                        k <= count <= 11,
                        at + 32 <= root@.len() <= MAX_DIR_BYTES,
                        units@ == Seq::new(k as nat, |j: int| le16(root@, at + 2 + 2 * j)),
                    decreases count - k,
                {
                    units.push(rd_le16(&root, at + 2 + 2 * k));
                    k += 1;
                    assert(units@ =~= Seq::new(k as nat, |j: int| le16(root@, at + 2 + 2 * j)));
                }
                return utf16_lossy(&units);
            }
            i += 1;
        }
        String::new()
    }
}

/// The character of a digit in base 16, in upper case.
pub open spec fn upper_digit(d: int) -> char {
    "0123456789ABCDEF"@[d]
}

/// Four digits of a number in base 16.
pub open spec fn four_digits(v: int) -> Seq<char> {
    seq![
        upper_digit(v / 0x1000 % 16),
        upper_digit(v / 0x100 % 16),
        upper_digit(v / 0x10 % 16),
        upper_digit(v % 16),
    ]
}

/// A serial number as it is written.
pub open spec fn serial_text(serial: u32) -> Seq<char> {
    four_digits(serial as int / 0x1_0000) + "-"@ + four_digits(serial as int % 0x1_0000)
}

fn upper_str(d: u32) -> (r: &'static str)
    requires
        d < 16,
    ensures
        r@ == seq![upper_digit(d as int)],
{
    proof {
        reveal_strlit("0123456789ABCDEF");
        reveal_strlit("0");
        reveal_strlit("1");
        reveal_strlit("2");
        reveal_strlit("3");
        reveal_strlit("4");
        reveal_strlit("5");
        reveal_strlit("6");
        reveal_strlit("7");
        reveal_strlit("8");
        reveal_strlit("9");
        reveal_strlit("A");
        reveal_strlit("B");
        reveal_strlit("C");
        reveal_strlit("D");
        reveal_strlit("E");
        reveal_strlit("F");
    }
    let r = match d {
        0 => "0",
        1 => "1",
        2 => "2",
        3 => "3",
        4 => "4",
        5 => "5",
        6 => "6",
        7 => "7",
        8 => "8",
        9 => "9",
        10 => "A",
        11 => "B",
        12 => "C",
        13 => "D",
        14 => "E",
        _ => "F",
    };
    assert(r@ =~= seq![upper_digit(d as int)]);
    r
}

fn push_four(s: &mut String, v: u32)
    ensures
        final(s)@ == old(s)@ + four_digits(v as int),
{
    s.append(upper_str(v / 0x1000 % 16));
    s.append(upper_str(v / 0x100 % 16));
    s.append(upper_str(v / 0x10 % 16));
    s.append(upper_str(v % 16));
    assert(s@ =~= old(s)@ + four_digits(v as int));
}

impl Volume {
    /// Total size of the volume in bytes.
    pub fn size(&self) -> (r: u64)
        ensures
            r == capped(self.volume_length_sectors * self.bytes_per_sector),
    {
        mul_capped(self.volume_length_sectors, self.bytes_per_sector)
    }

    /// The cluster (allocation unit) size in bytes.
    pub fn cluster_size(&self) -> (r: u64)
        ensures
            r == capped(self.cluster_len()),
    {
        mul_capped(self.sectors_per_cluster, self.bytes_per_sector)
    }

    /// The volume label, empty when unset.
    pub fn label(&self) -> (r: &str)
        ensures
            r@ == self.label@,
    {
        self.label.as_str()
    }

    /// The volume serial number as `XXXX-XXXX` (the form Windows `vol` and `blkid` show), or `None` when unset.
    pub fn uuid(&self) -> (r: Option<String>)
        ensures
            match r {
                Some(t) => self.serial != 0 && t@ == serial_text(self.serial),
                None => self.serial == 0,
            },
    {
        if self.serial == 0 {
            return None;
        }
        let mut s = String::new();
        push_four(&mut s, self.serial / 0x1_0000);
        s.append("-");
        push_four(&mut s, self.serial % 0x1_0000);
        assert(s@ =~= serial_text(self.serial));
        Some(s)
    }

    /// Whether the volume was cleanly unmounted (the `VolumeDirty` flag is clear).
    pub fn is_clean(&self) -> (r: bool)
        ensures
            r == !self.dirty,
    {
        !self.dirty
    }

    /// The allocation bitmap, one bit per cluster from cluster 2, set when allocated; none where the root
    /// directory has no entry for it. `None` where it, or the root directory, could not be read.
    pub open spec fn bitmap(&self, src: Source) -> Option<Option<Seq<u8>>> {
        match self.root(src) {
            None => None,
            Some(root) => match bitmap_from(root, 0) {
                Some((first, len)) => if self.is_cluster(first) {
                    match src.fetch(
                        self.cluster_pos(first),
                        smaller(len as int, MAX_BITMAP as int),
                    ) {
                        None => None,
                        Some(m) => Some(Some(m)),
                    }
                } else {
                    Some(None)
                },
                None => Some(None),
            },
        }
    }

    /// The bitmap marks a cluster allocated. Past the bitmap's end counts as allocated.
    pub open spec fn is_allocated(bitmap: Seq<u8>, cluster: int) -> bool {
        let i = larger(cluster - 2, 0);
        i / 8 >= bitmap.len() || bit_at(bitmap[i / 8], i % 8)
    }

    /// The free space of the volume by its bitmap, in runs of clusters.
    pub open spec fn free_space(&self, bitmap: Seq<u8>) -> Seq<(u64, u64)> {
        free_runs(
            |i: int| !Self::is_allocated(bitmap, i + 2),
            |i: int| self.heap_pos() + i * self.cluster_len(),
            self.cluster_len(),
            0,
            self.cluster_count as int,
        )
    }

    /// Where the allocation bitmap is.
    fn find_bitmap(root: &Vec<u8>) -> (r: Option<(u32, u64)>)
        requires
            root@.len() <= MAX_DIR_BYTES,
        ensures
            r == bitmap_from(root@, 0),
    {
        let total: usize = root.len() / 32;
        let mut i: usize = 0;
        while i < total
            invariant
                i <= total == root@.len() as int / 32,
                root@.len() <= MAX_DIR_BYTES,
                bitmap_from(root@, 0) == bitmap_from(root@, i as int),
            decreases total - i,
        {
            let at: usize = 32 * i;
            if root[at] == 0 {
                return None;
            }
            if root[at] == 0x81 && root[at + 1] & 0x01 == 0 {
                return Some((rd_le32(root, at + 20), rd_le64(root, at + 24)));
            }
            i += 1;
        }
        None
    }

    /// The allocation bitmap: one bit per cluster from cluster 2, set when allocated. `None` when the root
    /// directory has no bitmap entry.
    pub(crate) fn read_bitmap(&self, src: &Source) -> (r: Result<Option<Vec<u8>>, ReadError>)
        requires
            self.wf(),
            src.wf(),
        ensures
            match r {
                Ok(Some(m)) => self.bitmap(*src) == Some(Some(m@)),
                Ok(None) => self.bitmap(*src) == Some(None::<Seq<u8>>),
                Err(e) => self.bitmap(*src) is None && src.explains(e),
            },
    {
        let root = self.read_directory(src, self.root_cluster, None, false)?;
        let (first, len) = match Self::find_bitmap(&root) {
            Some(x) => x,
            None => {
                return Ok(None);
            },
        };
        if first < 2 || first > self.max_valid_cluster() {
            return Ok(None);
        }
        let bitmap = src.read_at(self.cluster_offset(first), min_u64(len, MAX_BITMAP) as usize)?;
        Ok(Some(bitmap))
    }

    /// Whether the bitmap marks `cluster` allocated. Past the bitmap's end counts as allocated, so a short read
    /// never invites a blind read.
    pub fn cluster_allocated(bitmap: &[u8], cluster: u32) -> (r: bool)
        ensures
            r == Self::is_allocated(bitmap@, cluster as int),
    {
        let i: u32 = cluster.saturating_sub(2);
        if (i / 8) as usize >= bitmap.len() {
            return true;
        }
        has_bit(bitmap[(i / 8) as usize], (i % 8) as u8)
    }

    /// Absolute byte ranges of the volume's **free** clusters, merged where contiguous, from the exFAT
    /// Allocation Bitmap (a `0x81` entry in the root directory points to it). A clear bit means the cluster is
    /// free, so carving those ranges recovers deleted data without re-finding live files.
    pub fn free_extents(&self, src: &Source) -> (r: Result<Vec<(u64, u64)>, ReadError>)
        requires
            self.wf(),
            src.wf(),
        ensures
            match r {
                Ok(v) => match self.bitmap(*src) {
                    Some(Some(m)) => v@ == self.free_space(m),
                    Some(None) => v@.len() == 0,
                    None => false,
                },
                Err(e) => self.bitmap(*src) is None && src.explains(e),
            },
    {
        let mut out: Vec<(u64, u64)> = Vec::new();
        let bitmap = match self.read_bitmap(src)? {
            Some(m) => m,
            None => {
                return Ok(out);
            },
        };
        let cb: u64 = self.cluster_bytes();
        proof {
            self.lemma_bounds(0);
        }
        let heap: u64 = self.offset + self.cluster_heap_offset_sectors * self.bytes_per_sector;
        let ghost free = |i: int| !Self::is_allocated(bitmap@, i + 2);
        let ghost start = |i: int| self.heap_pos() + i * self.cluster_len();
        let mut i: u32 = 0;
        while i < self.cluster_count
            invariant
                self.wf(),
                cb == self.cluster_len(),
                heap == self.heap_pos(),
                i <= self.cluster_count,
                free == (|i: int| !Self::is_allocated(bitmap@, i + 2)),
                start == (|i: int| self.heap_pos() + i * self.cluster_len()),
                out@ == free_runs(free, start, cb as int, 0, i as int),
            decreases self.cluster_count - i,
        {
            let allocated = if (i / 8) as usize >= bitmap.len() {
                true
            } else {
                has_bit(bitmap[(i / 8) as usize], (i % 8) as u8)
            };
            assert(free(i as int) == !allocated);
            if !allocated {
                proof {
                    self.lemma_bounds(i as int);
                }
                let at: u64 = heap + i as u64 * cb;
                assert(start(i as int) == at);
                add_run(&mut out, at, cb);
            }
            i = i + 1;
        }
        Ok(out)
    }

    /// The free space of a volume lies in its cluster heap, in order and apart, and a byte of a cluster lies in
    /// it exactly if the cluster is free.
    pub proof fn law_free_space(&self, bitmap: Seq<u8>)
        requires
            self.wf(),
        ensures
            ({
                let runs = self.free_space(bitmap);
                let unit = self.cluster_len();
                &&& forall|k: int|
                    0 <= k < runs.len() ==> self.heap_pos() <= (#[trigger] runs[k]).0 && runs[k].1 > 0
                        && runs[k].0 + runs[k].1 <= self.heap_pos() + self.cluster_count * unit
                &&& forall|j: int, k: int|
                    0 <= j < k < runs.len() ==> (#[trigger] runs[j]).0 + runs[j].1 < (
                    #[trigger] runs[k]).0
                &&& forall|i: int, p: int|
                    0 <= i < self.cluster_count && 0 <= p < unit ==> #[trigger] in_runs(
                        runs,
                        self.heap_pos() + i * unit + p,
                    ) == !Self::is_allocated(bitmap, i + 2)
            }),
    {
        let unit = self.cluster_len();
        let base = self.heap_pos();
        let hi = self.cluster_count as int;
        let free = |i: int| !Self::is_allocated(bitmap, i + 2);
        self.lemma_bounds(hi);
        lemma_same_starts(
            free,
            |i: int| self.heap_pos() + i * self.cluster_len(),
            |i: int| base + i * unit,
            unit,
            0,
            hi,
        );
        law_free_runs(free, base, unit, 0, hi);
        assert forall|i: int, p: int| 0 <= i < hi && 0 <= p < unit implies #[trigger] in_runs(
            self.free_space(bitmap),
            base + i * unit + p,
        ) == !Self::is_allocated(bitmap, i + 2) by {
            assert(free(i) == !Self::is_allocated(bitmap, i + 2));
        }
    }
}

} // verus!
