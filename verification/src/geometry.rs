//! What the headers of volumes say, and how messages are filled up before they are hashed.

use crate::basics::law_bits;
use crate::bytes::{be32, be64, le16, le32};
use crate::ext4;
use crate::exfat;
use crate::hash::{be_bytes, filled};
use crate::hfsplus;
use crate::source::{window, Source};
use vstd::arithmetic::power2::{lemma2_to64, pow2};
use vstd::prelude::*;

verus! {

/// The four bytes at `i`, the least significant first.
pub open spec fn four(b: Seq<u8>, i: int) -> int {
    b[i] + 0x100 * b[i + 1] + 0x1_0000 * b[i + 2] + 0x100_0000 * b[i + 3]
}

/// The two bytes at `i`, the least significant first.
pub open spec fn two(b: Seq<u8>, i: int) -> int {
    b[i] + 0x100 * b[i + 1]
}

/// The four bytes at `i`, the most significant first.
pub open spec fn four_down(b: Seq<u8>, i: int) -> int {
    0x100_0000 * b[i] + 0x1_0000 * b[i + 1] + 0x100 * b[i + 2] + b[i + 3]
}

/// What the superblock of ext says is where it has to be: how many inodes there are at 0, how many blocks at 4 (and the upper
/// half at 336), the first block at 20, the size of blocks at 24, as the power of two of 1024 bytes, how many blocks a
/// group has at 32 and how many inodes at 40, and so on.
pub proof fn law_ext_superblock(v: ext4::Volume, offset: int, h: Seq<u8>, groups: Seq<(u64, u64)>)
    requires
        h.len() == 1024,
        v.is_of(offset, h, groups),
        ext4::header_fault(h) is None,
    ensures
        v.offset == offset,
        h[0x38] == 0x53 && h[0x39] == 0xEF,
        four(h, 24) <= 6,
        v.block_size == 1024 * pow2(four(h, 24) as nat),
        v.inodes_count == four(h, 0),
        v.free_inodes == four(h, 16),
        v.first_data_block == four(h, 20),
        v.blocks_per_group == four(h, 32),
        v.inodes_per_group == four(h, 40),
        v.total_blocks == four(h, 4) + if h[96] >= 128 {
            0x1_0000_0000 * four(h, 336)
        } else {
            0
        },
        two(h, 88) != 0 ==> v.inode_size == two(h, 88),
        two(h, 88) == 0 ==> v.inode_size == 128,
        128 <= v.inode_size <= v.block_size,
        four(h, 224) != 0 ==> v.journal_inum == four(h, 224),
        four(h, 224) == 0 ==> v.journal_inum == 8,
        v.filetype_dirents == (h[96] / 2 % 2 == 1),
        v.clean == (h[58] % 2 == 1),
{
    lemma2_to64();
    let k = le32(h, 24);
    assert(k == 0 || k == 1 || k == 2 || k == 3 || k == 4 || k == 5 || k == 6);
    assert(pow2(0) == 1 && pow2(1) == 2 && pow2(2) == 4 && pow2(3) == 8 && pow2(4) == 16 && pow2(5) == 32 && pow2(6)
        == 64);
    lemma_flags(h, 96);
    let s = le16(h, 58);
    let a = h[58];
    let b = h[59];
    assert((s & 1u16 != 0) == (a % 2 == 1)) by (bit_vector)
        requires
            s == a as u16 + 0x100 * (b as u16),
    ;
}

proof fn lemma_flags(h: Seq<u8>, i: int)
    ensures
        (le32(h, i) & 0x80u32 != 0) == (h[i] >= 128),
        (le32(h, i) & 0x02u32 != 0) == (h[i] / 2 % 2 == 1),
{
    let x = le32(h, i);
    let a = h[i];
    let b = h[i + 1];
    let c = h[i + 2];
    let d = h[i + 3];
    assert((x & 0x80u32 != 0) == (a >= 128) && (x & 0x02u32 != 0) == (a / 2 % 2 == 1)) by (bit_vector)
        requires
            x == a as u32 + 0x100 * (b as u32) + 0x1_0000 * (c as u32) + 0x100_0000 * (d as u32),
    ;
}

/// A volume of ext with extents (0x40) or block numbers of 64 bits (0x80) is one of ext4; without either, and without any
/// feature but the types of entries, it is one of ext3 if it has a journal, and otherwise one of ext2.
pub proof fn law_variant(compat: u32, incompat: u32, ro: u32)
    ensures
        incompat / 64 % 4 != 0 ==> ext4::variant(compat, incompat, ro) == "ext4"@,
        compat / 4 % 2 == 1 && (incompat == 0 || incompat == 2 || incompat == 6) && ro <= 3 ==> ext4::variant(
            compat,
            incompat,
            ro,
        ) == "ext3"@,
        compat / 4 % 2 == 0 && (incompat == 0 || incompat == 2) && ro <= 3 ==> ext4::variant(compat, incompat, ro)
            == "ext2"@,
{
    assert((compat & 4u32 != 0) == (compat / 4 % 2 == 1)) by (bit_vector);
    assert(incompat / 64 % 4 != 0 ==> incompat & !0x12u32 != 0 && incompat & !0x16u32 != 0) by (bit_vector);
    assert(0u32 & !0x12u32 == 0 && 2u32 & !0x12u32 == 0 && 0u32 & !0x16u32 == 0 && 2u32 & !0x16u32 == 0 && 6u32
        & !0x16u32 == 0) by (bit_vector);
    assert(ro <= 3 ==> ro & !0x47Fu32 == 0) by (bit_vector);
}

/// The `g`-th descriptor of a table of them, the field at `i`: its upper half is 32 bytes on, if block numbers have 64 bits and
/// descriptors room for it.
pub open spec fn described(b: Seq<u8>, table: int, size: int, wide: bool, g: int, i: int) -> int {
    four(b, table + g * size + i) + if wide && size >= 64 {
        0x1_0000_0000 * four(b, table + g * size + i + 32)
    } else {
        0
    }
}

proof fn lemma_groups(src: Source, table: int, size: int, wide: bool, g: int, count: int)
    requires
        src.intact(),
        0 <= table,
        32 <= size,
        0 <= g <= count,
        table + count * size <= src@.len(),
    ensures
        ext4::groups_from(src, table, size, wide, g, count) matches Some(v) && {
            &&& v.len() == count - g
            &&& forall|k: int|
                0 <= k < v.len() ==> (#[trigger] v[k]).0 == described(src@, table, size, wide, g + k, 8) && v[k].1
                    == described(src@, table, size, wide, g + k, 0)
        },
    decreases count - g,
{
    if g < count {
        lemma_groups(src, table, size, wide, g + 1, count);
        assert(g * size >= 0 && g * size + size <= count * size) by (nonlinear_arith)
            requires
                0 <= g < count,
                size > 0,
        ;
        let at = table + g * size;
        let d = src@.subrange(at, at + size);
        assert(window(src@, at, size) =~= d);
        assert(src.fetch(at, size) == Some(d)) by {
            assert(!src.faulty(at, size));
        }
        let rest = ext4::groups_from(src, table, size, wide, g + 1, count)->Some_0;
        let v = ext4::groups_from(src, table, size, wide, g, count)->Some_0;
        let first = (ext4::group_field(d, 8, wide), ext4::group_field(d, 0, wide));
        assert(v == seq![first] + rest);
        assert(le32(d, 8) == four(src@, at + 8) && le32(d, 0) == four(src@, at));
        if size >= 64 {
            assert(le32(d, 40) == four(src@, at + 40) && le32(d, 32) == four(src@, at + 32));
        }
        assert forall|k: int| 0 <= k < v.len() implies (#[trigger] v[k]).0 == described(
            src@,
            table,
            size,
            wide,
            g + k,
            8,
        ) && v[k].1 == described(src@, table, size, wide, g + k, 0) by {
            if k > 0 {
                assert(v[k] == rest[k - 1]);
                assert(g + 1 + (k - 1) == g + k);
            } else {
                assert(v[k] == first);
            }
        }
    }
}

/// There are as many groups as the inodes need, and the descriptor of each, in the table that begins with the block behind the
/// superblock's, says where its bitmap is, at 0, and its inodes, at 8.
pub proof fn law_ext_groups(src: Source, offset: int, h: Seq<u8>, count: int, size: int)
    requires
        src.intact(),
        0 <= offset,
        h.len() == 1024,
        src.fetch(offset + 1024, 1024) == Some(h),
        ext4::header_fault(h) is None,
        count > 0,
        (count - 1) * four(h, 40) < four(h, 0) <= count * four(h, 40),
        size == if h[96] >= 128 && two(h, 254) >= 32 {
            two(h, 254)
        } else {
            32
        },
        offset + (four(h, 20) + 1) * (1024 * pow2(four(h, 24) as nat)) + count * size <= src@.len(),
    ensures
        ext4::volume_at(src, offset) matches Some(Ok((x, groups))) && {
            let table = offset + (four(h, 20) + 1) * (1024 * pow2(four(h, 24) as nat));
            &&& x == h
            &&& groups.len() == count
            &&& forall|g: int|
                0 <= g < count ==> (#[trigger] groups[g]).0 == described(src@, table, size, h[96] >= 128, g, 8)
                    && groups[g].1 == described(src@, table, size, h[96] >= 128, g, 0)
        },
{
    lemma2_to64();
    let k = le32(h, 24);
    assert(k == 0 || k == 1 || k == 2 || k == 3 || k == 4 || k == 5 || k == 6);
    assert(pow2(0) == 1 && pow2(1) == 2 && pow2(2) == 4 && pow2(3) == 8 && pow2(4) == 16 && pow2(5) == 32 && pow2(6)
        == 64);
    assert(ext4::block_size_in(h) == 1024 * pow2(four(h, 24) as nat));
    lemma_flags(h, 96);
    let n = four(h, 0);
    let p = four(h, 40);
    assert(p > 0);
    assert((n + p - 1) / p == count) by (nonlinear_arith)
        requires
            p > 0,
            (count - 1) * p < n <= count * p,
    ;
    assert(ext4::group_count_in(h) == count);
    let bs = ext4::block_size_in(h);
    assert((four(h, 20) + 1) * bs >= 0) by (nonlinear_arith)
        requires
            four(h, 20) >= 0,
            bs >= 0,
    ;
    let table = offset + (four(h, 20) + 1) * bs;
    lemma_groups(src, table, size, h[96] >= 128, 0, count);
    let groups = ext4::groups_from(src, table, size, h[96] >= 128, 0, count)->Some_0;
    assert forall|g: int| 0 <= g < count implies (#[trigger] groups[g]).0 == described(
        src@,
        table,
        size,
        h[96] >= 128,
        g,
        8,
    ) && groups[g].1 == described(src@, table, size, h[96] >= 128, g, 0) by {
        assert(0 + g == g);
    }
}

/// A block is free exactly where its bit in the bitmap of its group is clear, the least significant bit of each byte being that
/// of the first of eight blocks; the blocks of the first group begin with the first data block.
pub proof fn law_ext_bitmap(v: ext4::Volume, src: Source, g: int, j: int, m: Seq<u8>)
    requires
        0 <= g,
        0 <= j < m.len(),
        8 * j + 8 <= v.blocks_per_group,
        v.block(src, v.block_bitmaps@[g] as int) == Some(m),
    ensures
        ({
            let b = v.first_data_block + g * v.blocks_per_group + 8 * j;
            &&& v.is_free(src, b) == (m[j] % 2 == 0)
            &&& v.is_free(src, b + 1) == (m[j] / 2 % 2 == 0)
            &&& v.is_free(src, b + 2) == (m[j] / 4 % 2 == 0)
            &&& v.is_free(src, b + 3) == (m[j] / 8 % 2 == 0)
            &&& v.is_free(src, b + 4) == (m[j] / 16 % 2 == 0)
            &&& v.is_free(src, b + 5) == (m[j] / 32 % 2 == 0)
            &&& v.is_free(src, b + 6) == (m[j] / 64 % 2 == 0)
            &&& v.is_free(src, b + 7) == (m[j] / 128 % 2 == 0)
        }),
{
    law_bits(m[j]);
    let p = v.blocks_per_group as int;
    let b = v.first_data_block + g * p + 8 * j;
    assert forall|t: int| 0 <= t < 8 implies #[trigger] v.is_free(src, b + t) == !crate::bytes::bit_at(m[j], t) by {
        let rel = b + t - v.first_data_block;
        assert(rel / p == g && rel % p == 8 * j + t) by (nonlinear_arith)
            requires
                rel == g * p + (8 * j + t),
                0 <= 8 * j + t < p,
        ;
        assert((8 * j + t) / 8 == j && (8 * j + t) % 8 == t);
    }
    assert(v.is_free(src, b + 0) == (m[j] % 2 == 0));
    assert(v.is_free(src, b + 1) == (m[j] / 2 % 2 == 0));
    assert(v.is_free(src, b + 2) == (m[j] / 4 % 2 == 0));
    assert(v.is_free(src, b + 3) == (m[j] / 8 % 2 == 0));
    assert(v.is_free(src, b + 4) == (m[j] / 16 % 2 == 0));
    assert(v.is_free(src, b + 5) == (m[j] / 32 % 2 == 0));
    assert(v.is_free(src, b + 6) == (m[j] / 64 % 2 == 0));
    assert(v.is_free(src, b + 7) == (m[j] / 128 % 2 == 0));
}

/// What the boot sector of exFAT says is where it has to be: the length of the volume in sectors at 72, the table at 80, the
/// clusters at 88, how many there are at 92, the root directory at 96, and the sizes of sectors and clusters, as powers
/// of two, at 108 and 109.
pub proof fn law_exfat_boot(v: exfat::Volume, offset: int, h: Seq<u8>)
    requires
        h.len() == 512,
        v.is_of(offset, h),
        exfat::boot_fault(h) is None,
    ensures
        v.offset == offset,
        v.volume_length_sectors == four(h, 72) + 0x1_0000_0000 * four(h, 76),
        v.fat_offset_sectors == four(h, 80),
        v.cluster_heap_offset_sectors == four(h, 88),
        v.cluster_count == four(h, 92),
        v.root_cluster == four(h, 96),
        v.serial == four(h, 100),
        v.dirty == (h[106] / 2 % 2 == 1),
        h[108] == 9 ==> v.bytes_per_sector == 512,
        h[108] == 10 ==> v.bytes_per_sector == 1024,
        h[108] == 11 ==> v.bytes_per_sector == 2048,
        h[108] == 12 ==> v.bytes_per_sector == 4096,
        9 <= h[108] <= 12,
        h[109] == 0 ==> v.sectors_per_cluster == 1,
        h[109] == 3 ==> v.sectors_per_cluster == 8,
        v.sectors_per_cluster == pow2(h[109] as nat),
{
    lemma2_to64();
    let s = le16(h, 106);
    let a = h[106];
    let b = h[107];
    assert((s & 2u16 != 0) == (a / 2 % 2 == 1)) by (bit_vector)
        requires
            s == a as u16 + 0x100 * (b as u16),
    ;
}

/// What the volume header of HFS+ says is where it has to be: the size of blocks at 40 and how many there are at 44; the fork
/// of the bitmap at 112, with its extents at 128; that of the file with further extents at 192, with its extents at 208;
/// and that of the catalog at 272, with its extents at 288.
pub proof fn law_hfs_header(v: hfsplus::Volume, offset: int, h: Seq<u8>, journal: Option<(u64, u64)>)
    requires
        h.len() == 512,
        v.is_of(offset, h, journal),
        hfsplus::header_fault(h) is None,
    ensures
        v.offset == offset,
        h[0] == 0x48 && (h[1] == 0x2B || h[1] == 0x58),
        v.hfsx == (h[1] == 0x58),
        v.block_size == four_down(h, 40),
        v.total_blocks == four_down(h, 44),
        v.total_blocks > 0,
        v.catalog_size == 0x1_0000_0000 * four_down(h, 272) + four_down(h, 276),
        v.extents_overflow_size == 0x1_0000_0000 * four_down(h, 192) + four_down(h, 196),
        hfsplus::extents_from(h, 288, 0, four_down(h, 44)) == Some(v.catalog_extents@),
        v.catalog_extents@.len() > 0,
        hfsplus::extents_from(h, 128, 0, four_down(h, 44)) matches Some(x) ==> v.allocation_extents@ == x,
        hfsplus::extents_from(h, 208, 0, four_down(h, 44)) matches Some(x) ==> v.extents_overflow_extents@ == x,
        v.created == hfsplus::unix_date(four_down(h, 16) as u32),
        v.written == hfsplus::unix_date(four_down(h, 20) as u32),
        v.journal == journal,
{
}

/// The volume that an old wrapper embeds is as many blocks of the wrapper, of the size that is given at 20, behind its first
/// block, the sector of which is given at 28, as is given at 126.
pub proof fn law_hfs_wrapper(offset: int, mdb: Seq<u8>)
    ensures
        hfsplus::embedded_at(offset, mdb) == offset + 512 * (0x100 * mdb[28] + mdb[29]) + (0x100 * mdb[126] + mdb[127])
            * four_down(mdb, 20),
{
}

/// The journal of a volume is where its info block says, at 36, and as long as it says, at 44, if its lowest flag says that it
/// is in the volume, and it is; no more than 512 MiB of it count.
pub proof fn law_hfs_journal(info: Seq<u8>, size: int, at: int, len: int)
    requires
        info.len() == 52,
        at == 0x1_0000_0000 * four_down(info, 36) + four_down(info, 40),
        len == 0x1_0000_0000 * four_down(info, 44) + four_down(info, 48),
    ensures
        info[3] % 2 == 1 && 0 < len <= 0x2000_0000 && at + len <= size ==> hfsplus::journal_in(info, size) == Some(
            (at as u64, len as u64),
        ),
        info[3] % 2 == 1 && len > 0x2000_0000 && at + len <= size ==> hfsplus::journal_in(info, size) == Some(
            (at as u64, 0x2000_0000u64),
        ),
        info[3] % 2 == 0 || len == 0 || at + len > size ==> hfsplus::journal_in(info, size) is None,
{
    let x = be32(info, 0);
    let a = info[0];
    let b = info[1];
    let c = info[2];
    let d = info[3];
    assert((x & 1u32 != 0) == (d % 2 == 1)) by (bit_vector)
        requires
            x == 0x100_0000 * (a as u32) + 0x1_0000 * (b as u32) + 0x100 * (c as u32) + d as u32,
    ;
    assert(be64(info, 36) == at && be64(info, 44) == len);
}

proof fn lemma_eight(x: u64)
    ensures
        ({
            let e = be_bytes(x);
            e.len() == 8 && 0x1_0000_0000 * four_down(e, 0) + four_down(e, 4) == x
        }),
{
    let e = be_bytes(x);
    let hi = (x / 0x1_0000_0000) as u32;
    let lo = (x % 0x1_0000_0000) as u32;
    assert(x / 0x100_0000_0000_0000 == (x / 0x1_0000_0000) / 0x100_0000 && x / 0x1_0000_0000_0000 % 0x100 == (x
        / 0x1_0000_0000) / 0x1_0000 % 0x100 && x / 0x100_0000_0000 % 0x100 == (x / 0x1_0000_0000) / 0x100 % 0x100
        && x / 0x100_0000 % 0x100 == (x % 0x1_0000_0000) / 0x100_0000 && x / 0x1_0000 % 0x100 == (x
        % 0x1_0000_0000) / 0x1_0000 % 0x100 && x / 0x100 % 0x100 == (x % 0x1_0000_0000) / 0x100 % 0x100 && x
        % 0x100 == (x % 0x1_0000_0000) % 0x100) by (bit_vector);
    lemma_word(hi);
    lemma_word(lo);
    assert(e[0] == hi / 0x100_0000 && e[1] == hi / 0x1_0000 % 0x100 && e[2] == hi / 0x100 % 0x100 && e[3] == hi % 0x100);
    assert(e[4] == lo / 0x100_0000 && e[5] == lo / 0x1_0000 % 0x100 && e[6] == lo / 0x100 % 0x100 && e[7] == lo % 0x100);
}

proof fn lemma_word(w: u32)
    ensures
        0x100_0000 * (w / 0x100_0000) + 0x1_0000 * (w / 0x1_0000 % 0x100) + 0x100 * (w / 0x100 % 0x100) + w % 0x100 == w,
        w / 0x100_0000 < 0x100,
{
}

/// A message is filled up to whole blocks of 64 bytes, and no further than needed: it comes first, then a mark, zeros, and how
/// many bits it has, in eight bytes.
pub proof fn law_filled(m: Seq<u8>)
    requires
        m.len() < 0x2000_0000_0000_0000,
    ensures
        ({
            let t = filled(m);
            let n = t.len() as int;
            &&& n % 64 == 0
            &&& m.len() + 9 <= n < m.len() + 9 + 64
            &&& forall|i: int| 0 <= i < m.len() ==> #[trigger] t[i] == m[i]
            &&& t[m.len() as int] == 0x80
            &&& forall|i: int| m.len() < i < n - 8 ==> #[trigger] t[i] == 0
            &&& 0x1_0000_0000 * four_down(t, n - 8) + four_down(t, n - 4) == 8 * m.len()
        }),
{
    let t = filled(m);
    let l = m.len() as int;
    let z = (119 - l % 64) % 64;
    let x = ((m.len() % 0x2000_0000_0000_0000) * 8) as u64;
    let e = be_bytes(x);
    lemma_eight(x);
    let zeros = Seq::new(z as nat, |i: int| 0u8);
    let front = m.push(0x80) + zeros;
    assert(t == front + e);
    assert(front.len() == l + 1 + z);
    let n = t.len() as int;
    assert(n == l + z + 9);
    assert((l + z + 9) % 64 == 0);
    assert(x == 8 * l);
    assert forall|i: int| 0 <= i < 8 implies t[n - 8 + i] == #[trigger] e[i] by {
        assert(t[front.len() + i] == e[i]);
    }
    assert(e[0] == t[n - 8] && e[1] == t[n - 7] && e[2] == t[n - 6] && e[3] == t[n - 5]);
    assert(e[4] == t[n - 4] && e[5] == t[n - 3] && e[6] == t[n - 2] && e[7] == t[n - 1]);
    assert(four_down(t, n - 8) == four_down(e, 0));
    assert(four_down(t, n - 4) == four_down(e, 4));
}

} // verus!
