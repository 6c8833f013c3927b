//! Files and volumes whose headers say how long they are.

use crate::bytes::{be32, be64, larger, le16, le32, le64, text_at};
use crate::carver::data::{e57_len, nifti_voxels, shp_len};
use crate::carver::documents::{evtx_len, regf_len};
use crate::carver::games::{
    bsp_len, bsp_lumps, godot_entries, godot_pck_len, md2_len, nes_len, pak_len, psxexe_len, vpk_len, wad_len,
};
use crate::carver::textures::farbfeld_len;
use crate::carver::video::{is_y4m, y4m_frame};
use crate::carver::volumes::{apfs_len, erofs_len, exfat_len, f2fs_len, ntfs_len, xfs_len};
use crate::carver::whole::stepwise;
use vstd::arithmetic::power2::{is_pow2, lemma2_to64, pow2};
use vstd::prelude::*;

verus! {

/// The sizes that sectors and blocks mostly have are powers of two.
pub proof fn lemma_sizes()
    ensures
        is_pow2(512) && is_pow2(1024) && is_pow2(2048) && is_pow2(4096),
{
    reveal_with_fuel(is_pow2, 14);
}

/// An NTFS volume has as many sectors as it says at 40, of the size that it says at 11.
pub proof fn law_ntfs(f: Seq<u8>, avail: int)
    requires
        48 <= f.len(),
        f[3] == 0x4E && f[4] == 0x54 && f[5] == 0x46 && f[6] == 0x53 && f[7] == 0x20 && f[8] == 0x20
            && f[9] == 0x20 && f[10] == 0x20,
        le16(f, 11) == 512 || le16(f, 11) == 1024 || le16(f, 11) == 2048 || le16(f, 11) == 4096,
        le64(f, 40) > 0,
    ensures
        ({
            let n = le64(f, 40) * le16(f, 11);
            &&& n <= avail ==> ntfs_len(f, avail) == Some(n as int)
            &&& n > avail ==> ntfs_len(f, avail) is None
        }),
{
    let h = f.subrange(0, 48);
    reveal_strlit("NTFS    ");
    assert(text_at(h, 3, "NTFS    "@));
    assert(le16(h, 11) == le16(f, 11) && le64(h, 40) == le64(f, 40));
    lemma_sizes();
}

/// An exFAT volume has as many sectors as it says at 72; their size is a power of two.
pub proof fn law_exfat(f: Seq<u8>, avail: int)
    requires
        128 <= f.len(),
        f[3] == 0x45 && f[4] == 0x58 && f[5] == 0x46 && f[6] == 0x41 && f[7] == 0x54 && f[8] == 0x20
            && f[9] == 0x20 && f[10] == 0x20,
        9 <= f[108] <= 12,
        f[108] + f[109] <= 25,
        le64(f, 72) > 0,
    ensures
        ({
            let n = le64(f, 72) * pow2(f[108] as nat);
            &&& n <= avail ==> exfat_len(f, avail) == Some(n as int)
            &&& n > avail ==> exfat_len(f, avail) is None
        }),
{
    let h = f.subrange(0, 128);
    reveal_strlit("EXFAT   ");
    assert(text_at(h, 3, "EXFAT   "@));
    assert(le64(h, 72) == le64(f, 72));
    lemma2_to64();
}

/// An APFS container has as many blocks as it says at 40, of the size that it says at 36.
pub proof fn law_apfs(f: Seq<u8>, avail: int)
    requires
        48 <= f.len(),
        f[32] == 0x4E && f[33] == 0x58 && f[34] == 0x53 && f[35] == 0x42,
        le32(f, 36) == 4096,
        le64(f, 40) > 0,
    ensures
        ({
            let n = le64(f, 40) * 4096;
            &&& n <= avail ==> apfs_len(f, avail) == Some(n as int)
            &&& n > avail ==> apfs_len(f, avail) is None
        }),
{
    let h = f.subrange(0, 48);
    reveal_strlit("NXSB");
    assert(text_at(h, 32, "NXSB"@));
    assert(le32(h, 36) == le32(f, 36) && le64(h, 40) == le64(f, 40));
    lemma_sizes();
}

/// An XFS volume has as many blocks as it says at 8, of the size that it says at 4.
pub proof fn law_xfs(f: Seq<u8>, avail: int)
    requires
        16 <= f.len(),
        f[0] == 0x58 && f[1] == 0x46 && f[2] == 0x53 && f[3] == 0x42,
        be32(f, 4) == 512 || be32(f, 4) == 1024 || be32(f, 4) == 2048 || be32(f, 4) == 4096,
        be64(f, 8) > 0,
    ensures
        ({
            let n = be64(f, 8) * be32(f, 4);
            &&& n <= avail ==> xfs_len(f, avail) == Some(n as int)
            &&& n > avail ==> xfs_len(f, avail) is None
        }),
{
    let h = f.subrange(0, 16);
    reveal_strlit("XFSB");
    assert(text_at(h, 0, "XFSB"@));
    assert(be32(h, 4) == be32(f, 4) && be64(h, 8) == be64(f, 8));
    lemma_sizes();
}

/// An EROFS volume has as many blocks as it says at 36 of its superblock; their size is a power of two.
pub proof fn law_erofs(f: Seq<u8>, avail: int)
    requires
        1088 <= f.len(),
        le32(f, 1024) == 0xE0F5_E1E2,
        9 <= f[1036] <= 16,
        le32(f, 1060) > 0,
    ensures
        ({
            let n = le32(f, 1060) * pow2(f[1036] as nat);
            &&& n <= avail ==> erofs_len(f, avail) == Some(n as int)
            &&& n > avail ==> erofs_len(f, avail) is None
        }),
{
    let h = f.subrange(0, 1088);
    assert(le32(h, 1024) == le32(f, 1024) && le32(h, 1060) == le32(f, 1060));
    lemma2_to64();
}

/// An F2FS volume has as many blocks as it says at 36 of its superblock; their size is a power of two.
pub proof fn law_f2fs(f: Seq<u8>, avail: int)
    requires
        1072 <= f.len(),
        le32(f, 1024) == 0xF2F5_2010,
        9 <= le32(f, 1040) <= 16,
        le64(f, 1060) > 0,
    ensures
        ({
            let n = le64(f, 1060) * pow2(le32(f, 1040) as nat);
            &&& n <= avail ==> f2fs_len(f, avail) == Some(n as int)
            &&& n > avail ==> f2fs_len(f, avail) is None
        }),
{
    let h = f.subrange(0, 1072);
    assert(le32(h, 1024) == le32(f, 1024) && le32(h, 1040) == le32(f, 1040) && le64(h, 1060) == le64(f, 1060));
    lemma2_to64();
}

/// An event log has a header of 4096 bytes and as many chunks of 65536 as it says.
pub proof fn law_evtx(f: Seq<u8>, avail: int)
    requires
        48 <= f.len(),
        f[0] == 0x45 && f[1] == 0x6C && f[2] == 0x66 && f[3] == 0x46 && f[4] == 0x69 && f[5] == 0x6C
            && f[6] == 0x65 && f[7] == 0x00,
        le32(f, 32) == 128,
        le16(f, 40) == 4096,
        le16(f, 42) > 0,
    ensures
        ({
            let n = 4096 + 65536 * le16(f, 42);
            &&& n <= avail ==> evtx_len(f, avail) == Some(n as int)
            &&& n > avail ==> evtx_len(f, avail) is None
        }),
{
    let h = f.subrange(0, 48);
    reveal_strlit("ElfFile\0");
    assert(text_at(h, 0, "ElfFile\0"@));
    assert(le16(h, 40) == le16(f, 40) && le16(h, 42) == le16(f, 42) && le32(h, 32) == le32(f, 32));
}

/// A registry hive has a header of 4096 bytes and as many more as it says at 40.
pub proof fn law_regf(f: Seq<u8>, avail: int)
    requires
        48 <= f.len(),
        f[0] == 0x72 && f[1] == 0x65 && f[2] == 0x67 && f[3] == 0x66,
        le32(f, 20) == 1,
        le32(f, 28) == 0,
        le32(f, 40) > 0,
        le32(f, 40) % 4096 == 0,
    ensures
        ({
            let n = 4096 + le32(f, 40);
            &&& n <= avail ==> regf_len(f, avail) == Some(n as int)
            &&& n > avail ==> regf_len(f, avail) is None
        }),
{
    let h = f.subrange(0, 48);
    reveal_strlit("regf");
    assert(text_at(h, 0, "regf"@));
    assert(le32(h, 20) == le32(f, 20) && le32(h, 28) == le32(f, 28) && le32(h, 40) == le32(f, 40));
}

/// A farbfeld picture has a header of 16 bytes and eight bytes for each pixel.
pub proof fn law_farbfeld(f: Seq<u8>, avail: int)
    requires
        16 <= f.len(),
        f[0] == 0x66 && f[1] == 0x61 && f[2] == 0x72 && f[3] == 0x62 && f[4] == 0x66 && f[5] == 0x65
            && f[6] == 0x6C && f[7] == 0x64,
        be32(f, 8) > 0,
        be32(f, 12) > 0,
    ensures
        ({
            let n = 16 + 8 * (be32(f, 8) * be32(f, 12));
            &&& n <= avail ==> farbfeld_len(f, avail) == Some(n as int)
            &&& n > avail ==> farbfeld_len(f, avail) is None
        }),
{
    let h = f.subrange(0, 16);
    reveal_strlit("farbfeld");
    assert(text_at(h, 0, "farbfeld"@));
    assert(be32(h, 12) == be32(f, 12) && be32(h, 8) == be32(f, 8));
}

/// An MD2 model says where it ends, at 64.
pub proof fn law_md2(f: Seq<u8>, avail: int)
    requires
        68 <= f.len(),
        f[0] == 0x49 && f[1] == 0x44 && f[2] == 0x50 && f[3] == 0x32,
        le32(f, 4) == 8,
        le32(f, 64) >= 68,
    ensures
        ({
            let n = le32(f, 64);
            &&& n <= avail ==> md2_len(f, avail) == Some(n as int)
            &&& n > avail ==> md2_len(f, avail) is None
        }),
{
    let h = f.subrange(0, 68);
    reveal_strlit("IDP2");
    assert(text_at(h, 0, "IDP2"@));
    assert(le32(h, 4) == le32(f, 4) && le32(h, 64) == le32(f, 64));
}

/// A PAK archive ends with its directory, which begins where it says at 4 and is as long as it says at 8.
pub proof fn law_pak(f: Seq<u8>, avail: int)
    requires
        12 <= f.len(),
        f[0] == 0x50 && f[1] == 0x41 && f[2] == 0x43 && f[3] == 0x4B,
        le32(f, 4) >= 12,
        le32(f, 8) > 0,
        le32(f, 8) % 64 == 0,
    ensures
        ({
            let n = le32(f, 4) + le32(f, 8);
            &&& n <= avail ==> pak_len(f, avail) == Some(n as int)
            &&& n > avail ==> pak_len(f, avail) is None
        }),
{
    let h = f.subrange(0, 12);
    reveal_strlit("PACK");
    assert(text_at(h, 0, "PACK"@));
    assert(le32(h, 4) == le32(f, 4) && le32(h, 8) == le32(f, 8));
}

/// A NES cartridge has a header of 16 bytes, a trainer of 512 if its flag is set, and as many banks of 16384 and of
/// 8192 bytes as it says.
pub proof fn law_nes(f: Seq<u8>, avail: int)
    requires
        16 <= f.len(),
        f[0] == 0x4E && f[1] == 0x45 && f[2] == 0x53 && f[3] == 0x1A,
        f[7] / 4 % 4 != 2,
        f[4] > 0,
    ensures
        ({
            let n = 16 + (if f[6] / 4 % 2 == 1 { 512int } else { 0int }) + 16384 * f[4] + 8192 * f[5];
            &&& n <= avail ==> nes_len(f, avail) == Some(n as int)
            &&& n > avail ==> nes_len(f, avail) is None
        }),
{
    let h = f.subrange(0, 16);
    reveal_strlit("NES\x1a");
    assert(text_at(h, 0, "NES\x1a"@));
}

/// A WAD archive ends with its directory, which begins where it says at 8 and has sixteen bytes for each lump.
pub proof fn law_wad(f: Seq<u8>, avail: int)
    requires
        12 <= f.len(),
        f[0] == 0x49 && f[1] == 0x57 && f[2] == 0x41 && f[3] == 0x44,
        le32(f, 4) < 0x8000_0000,
        12 <= le32(f, 8) < 0x8000_0000,
    ensures
        ({
            let n = le32(f, 8) + 16 * le32(f, 4);
            &&& n <= avail ==> wad_len(f, avail) == Some(n as int)
            &&& n > avail ==> wad_len(f, avail) is None
        }),
{
    let h = f.subrange(0, 12);
    reveal_strlit("IWAD");
    assert(text_at(h, 0, "IWAD"@));
    assert(le32(h, 4) == le32(f, 4) && le32(h, 8) == le32(f, 8));
}

/// A PlayStation executable has a header of 2048 bytes and as many more as it says at 28.
pub proof fn law_psxexe(f: Seq<u8>, avail: int)
    requires
        32 <= f.len(),
        f[0] == 0x50 && f[1] == 0x53 && f[2] == 0x2D && f[3] == 0x58 && f[4] == 0x20 && f[5] == 0x45
            && f[6] == 0x58 && f[7] == 0x45,
        le32(f, 28) > 0,
        le32(f, 28) % 2048 == 0,
    ensures
        ({
            let n = 2048 + le32(f, 28);
            &&& n <= avail ==> psxexe_len(f, avail) == Some(n as int)
            &&& n > avail ==> psxexe_len(f, avail) is None
        }),
{
    let h = f.subrange(0, 32);
    reveal_strlit("PS-X EXE");
    assert(text_at(h, 0, "PS-X EXE"@));
    assert(le32(h, 28) == le32(f, 28));
}

/// A VPK archive has a header of 28 bytes and the five parts whose lengths it gives.
pub proof fn law_vpk(f: Seq<u8>, avail: int)
    requires
        28 <= f.len(),
        le32(f, 0) == 0x55AA_1234,
        le32(f, 4) == 2,
        le32(f, 8) > 0,
    ensures
        ({
            let n = 28 + le32(f, 8) + le32(f, 12) + le32(f, 16) + le32(f, 20) + le32(f, 24);
            &&& n <= avail ==> vpk_len(f, avail) == Some(n as int)
            &&& n > avail ==> vpk_len(f, avail) is None
        }),
{
    let h = f.subrange(0, 28);
    assert(le32(h, 0) == le32(f, 0) && le32(h, 12) == le32(f, 12) && le32(h, 16) == le32(f, 16)
        && le32(h, 20) == le32(f, 20) && le32(h, 24) == le32(f, 24) && le32(h, 4) == le32(f, 4)
        && le32(h, 8) == le32(f, 8));
}

/// A shapefile has twice as many bytes as it says at 24.
pub proof fn law_shp(f: Seq<u8>, avail: int)
    requires
        32 <= f.len(),
        be32(f, 0) == 9994,
        le32(f, 28) == 1000,
        be32(f, 24) >= 50,
    ensures
        ({
            let n = 2 * be32(f, 24);
            &&& n <= avail ==> shp_len(f, avail) == Some(n as int)
            &&& n > avail ==> shp_len(f, avail) is None
        }),
{
    let h = f.subrange(0, 32);
    assert(be32(h, 0) == be32(f, 0) && be32(h, 24) == be32(f, 24) && le32(h, 28) == le32(f, 28));
}

/// An E57 file is as long as it says at 16.
pub proof fn law_e57(f: Seq<u8>, avail: int)
    requires
        24 <= f.len(),
        f[0] == 0x41 && f[1] == 0x53 && f[2] == 0x54 && f[3] == 0x4D && f[4] == 0x2D && f[5] == 0x45
            && f[6] == 0x35 && f[7] == 0x37,
        le64(f, 16) >= 48,
    ensures
        ({
            let n = le64(f, 16);
            &&& n <= avail ==> e57_len(f, avail) == Some(n as int)
            &&& n > avail ==> e57_len(f, avail) is None
        }),
{
    let h = f.subrange(0, 24);
    reveal_strlit("ASTM-E57");
    assert(text_at(h, 0, "ASTM-E57"@));
    assert(le64(h, 16) == le64(f, 16));
}

/// Where the `i`-th lump of a BSP map ends; one without bytes ends nowhere.
pub open spec fn bsp_past(f: Seq<u8>, i: int) -> int {
    if le32(f, 12 + 16 * i) == 0 {
        0
    } else {
        le32(f, 8 + 16 * i) + le32(f, 12 + 16 * i)
    }
}

proof fn lemma_bsp(f: Seq<u8>, h: Seq<u8>, i: int, end: int)
    requires
        1032 <= f.len(),
        h == f.subrange(0, 1032),
        0 <= i <= 64,
        0 <= end,
    ensures
        bsp_lumps(h, i, end) matches Some(r) ==> {
            &&& r >= end
            &&& forall|k: int| i <= k < 64 ==> r >= #[trigger] bsp_past(f, k)
            &&& r == end || exists|k: int| i <= k < 64 && r == #[trigger] bsp_past(f, k)
        },
    decreases 64 - i,
{
    if i < 64 {
        assert(le32(h, 8 + i * 16) == le32(f, 8 + 16 * i) && le32(h, 12 + i * 16) == le32(f, 12 + 16 * i));
        lemma_bsp(f, h, i + 1, larger(end, bsp_past(f, i)));
    }
}

/// A BSP map reaches to the end of its header and of each of its 64 lumps, and ends with one of these.
pub proof fn law_bsp(f: Seq<u8>, avail: int, r: int)
    requires
        1032 <= f.len(),
        bsp_len(f, avail) == Some(r),
    ensures
        r >= 1036,
        forall|k: int| 0 <= k < 64 ==> r >= #[trigger] bsp_past(f, k),
        r == 1036 || exists|k: int| 0 <= k < 64 && r == #[trigger] bsp_past(f, k),
{
    lemma_bsp(f, f.subrange(0, 1032), 0, 1036);
}

/// From `a` to `b` there is an entry of a Godot package: a path behind its length, and where a file is, how long it
/// is, and
/// `extra` bytes.
pub open spec fn godot_step(f: Seq<u8>, extra: int, a: int, b: int) -> bool {
    &&& 0 <= a
    &&& le32(f, a) <= 4096
    &&& b == a + 4 + le32(f, a) + 16 + extra
}

/// Where the file of the entry at `a` ends.
pub open spec fn godot_past(f: Seq<u8>, base: int, a: int) -> int {
    base + le64(f, a + 4 + le32(f, a)) + le64(f, a + 4 + le32(f, a) + 8)
}

proof fn lemma_godot(f: Seq<u8>, avail: int, base: int, extra: int, marks: Seq<int>, i: int, end: int)
    requires
        stepwise(marks, |a: int, b: int| godot_step(f, extra, a, b)),
        0 <= i < marks.len(),
        0 <= extra,
        0 <= base,
        marks.last() <= avail <= f.len(),
        avail < u64::MAX,
    ensures
        marks[i] <= marks.last(),
        godot_entries(f, avail, base, extra, marks[i], (marks.len() - 1 - i) as nat, end) matches Some((p, r))
            && {
            &&& p == marks.last()
            &&& r >= end
            &&& forall|k: int|
                i <= k < marks.len() - 1 ==> r >= godot_past(f, base, #[trigger] marks[k]) || r > avail
            &&& r == end || r > avail || exists|k: int|
                i <= k < marks.len() - 1 && r == godot_past(f, base, #[trigger] marks[k])
        },
    decreases marks.len() - i,
{
    let step = |a: int, b: int| godot_step(f, extra, a, b);
    if i + 1 < marks.len() {
        assert(step(marks[i], marks[i + 1]));
        let a = marks[i];
        let past = crate::bytes::capped(godot_past(f, base, a));
        lemma_godot(f, avail, base, extra, marks, i + 1, larger(end, past));
        assert(le32(f.subrange(a, a + 4), 0) == le32(f, a));
        let at = a + 4 + le32(f, a);
        let e = f.subrange(at, at + 16);
        assert(le64(e, 0) == le64(f, at) && le64(e, 8) == le64(f, at + 8));
    }
}

/// A Godot package of the second version reaches to the end of its entries, which begin at `marks`, and of each of
/// the files
/// that they place, and ends with one of these.
pub proof fn law_godot_pck(f: Seq<u8>, avail: int, marks: Seq<int>, r: int)
    requires
        100 <= f.len(),
        le32(f, 4) == 2,
        marks.len() == le32(f, 96) + 1,
        marks[0] == 100,
        stepwise(marks, |a: int, b: int| godot_step(f, 20, a, b)),
        marks.last() <= avail <= f.len(),
        avail < u64::MAX,
        godot_pck_len(f, avail) == Some(r),
    ensures
        r >= marks.last(),
        forall|k: int|
            0 <= k < marks.len() - 1 ==> r >= godot_past(f, le64(f, 24) as int, #[trigger] marks[k]),
        r == marks.last() || exists|k: int|
            0 <= k < marks.len() - 1 && r == godot_past(f, le64(f, 24) as int, #[trigger] marks[k]),
{
    let h = f.subrange(0, 0x64);
    assert(le32(h, 4) == le32(f, 4) && le32(h, 0x60) == le32(f, 96) && le64(h, 0x18) == le64(f, 24));
    lemma_godot(f, avail, le64(f, 24) as int, 20, marks, 0, 0);
}

/// With one dimension more an image has as many times the voxels as its extent there, which is given in two bytes
/// from 42 on.
pub proof fn law_nifti_voxels(h: Seq<u8>, n: nat, v: int)
    requires
        nifti_voxels(h, n) == Some(v),
        1 <= le16(h, 42 + 2 * (n as int)) <= 32767,
        v * le16(h, 42 + 2 * (n as int)) <= u64::MAX,
    ensures
        nifti_voxels(h, 0) == Some(1int),
        nifti_voxels(h, n + 1) == Some(v * le16(h, 42 + 2 * (n as int))),
{
    assert((40 + 2 * (n + 1)) as int == 42 + 2 * n);
}

/// A frame of a Y4M stream has all its samples of light, and two of colour for each sample, for each pair of them
/// in a row,
/// or for each square of two by two; or none.
pub proof fn law_y4m_frame(w: int, h: int, space: Seq<u8>)
    requires
        0 < w,
        0 < h,
        w % 2 == 0,
        h % 2 == 0,
    ensures
        space == seq![0x6Du8, 0x6F, 0x6E, 0x6F] ==> y4m_frame(w, h, space) == Some(w * h),
        space == seq![0x34u8, 0x34, 0x34] ==> y4m_frame(w, h, space) == Some(3 * (w * h)),
        space == seq![0x34u8, 0x32, 0x32] ==> y4m_frame(w, h, space) == Some(2 * (w * h)),
        space == seq![0x34u8, 0x32, 0x30] ==> (y4m_frame(w, h, space) matches Some(n) && 2 * n
            == 3 * (w * h)),
{
    reveal_strlit("mono");
    reveal_strlit("420");
    reveal_strlit("420jpeg");
    reveal_strlit("420paldv");
    reveal_strlit("420mpeg2");
    reveal_strlit("422");
    reveal_strlit("444");
    let x = w / 2;
    let y = h / 2;
    assert(w == 2 * x && h == 2 * y);
    assert(crate::bytes::ceil(w, 2) == x && crate::bytes::ceil(h, 2) == y);
    assert(4 * (x * y) == w * h && 2 * (x * h) == w * h) by (nonlinear_arith)
        requires
            w == 2 * x,
            h == 2 * y,
    ;
    if space == seq![0x34u8, 0x34, 0x34] {
        assert(space[2] == 0x34);
        if is_y4m(space, "420"@) {
            assert(space[0int + 1] == "420"@[1] as u32);
        }
        if is_y4m(space, "422"@) {
            assert(space[0int + 1] == "422"@[1] as u32);
        }
        assert(text_at(space, 0, "444"@));
        assert(w * h * 3 == 3 * (w * h));
    }
    if space == seq![0x34u8, 0x32, 0x32] {
        if is_y4m(space, "420"@) {
            assert(space[0int + 2] == "420"@[2] as u32);
        }
        assert(text_at(space, 0, "422"@));
        assert(x * h * 2 == 2 * (x * h));
    }
    if space == seq![0x34u8, 0x32, 0x30] {
        assert(text_at(space, 0, "420"@));
        assert(x * y * 2 == 2 * (x * y));
    }
    if space == seq![0x6Du8, 0x6F, 0x6E, 0x6F] {
        assert(text_at(space, 0, "mono"@));
    }
}
} // verus!
