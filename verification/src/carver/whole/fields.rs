//! Further files and volumes whose headers say how long they are.

use crate::bytes::{be32, be64, le16, le32, le64, text_at};
use crate::carver::archives::zim_len;
use crate::carver::audio::{ape_len, au_len, dsdiff_len, dsf_len, rf64_len};
use crate::carver::data::journal_len;
use crate::carver::documents::pst_len;
use crate::carver::executables::dex_len;
use crate::carver::firmware::uimage_len;
use crate::carver::games::genesis_len;
use crate::carver::images::{djvu_len, icc_len, sun_raster_len};
use crate::carver::video::{flic_len, swf_len};
use crate::carver::volumes::{btrfs_len, hfsplus_len, jfs_len, refs_len, romfs_len, squashfs_len};
use crate::carver::whole::headers::lemma_sizes;
use vstd::arithmetic::power2::lemma2_to64;
use vstd::prelude::*;

verus! {

/// A DSDIFF recording has twelve bytes more than it says at 4.
pub proof fn law_dsdiff(f: Seq<u8>, avail: int)
    requires
        16 <= f.len(),
        f[0] == 0x46 && f[1] == 0x52 && f[2] == 0x4D && f[3] == 0x38,
        f[12] == 0x44 && f[13] == 0x53 && f[14] == 0x44 && f[15] == 0x20,
        be64(f, 4) >= 4,
    ensures
        ({
            let n = 12 + be64(f, 4);
            &&& n <= avail ==> dsdiff_len(f, avail) == Some(n as int)
            &&& n > avail ==> dsdiff_len(f, avail) is None
        }),
{
    let h = f.subrange(0, 16);
    reveal_strlit("FRM8");
    assert(text_at(h, 0, "FRM8"@));
    reveal_strlit("DSD ");
    assert(text_at(h, 12, "DSD "@));
    assert(be64(h, 4) == be64(f, 4));
}

/// A DSF recording is as long as it says at 12.
pub proof fn law_dsf(f: Seq<u8>, avail: int)
    requires
        32 <= f.len(),
        f[0] == 0x44 && f[1] == 0x53 && f[2] == 0x44 && f[3] == 0x20,
        f[28] == 0x66 && f[29] == 0x6D && f[30] == 0x74 && f[31] == 0x20,
        le64(f, 4) == 28,
        le64(f, 12) >= 92,
    ensures
        ({
            let n = le64(f, 12);
            &&& n <= avail ==> dsf_len(f, avail) == Some(n as int)
            &&& n > avail ==> dsf_len(f, avail) is None
        }),
{
    let h = f.subrange(0, 32);
    reveal_strlit("DSD ");
    assert(text_at(h, 0, "DSD "@));
    reveal_strlit("fmt ");
    assert(text_at(h, 28, "fmt "@));
    assert(le64(h, 12) == le64(f, 12) && le64(h, 4) == le64(f, 4));
}

/// A Monkey's Audio file has the six parts whose lengths its descriptor gives.
pub proof fn law_ape(f: Seq<u8>, avail: int)
    requires
        36 <= f.len(),
        f[0] == 0x4D && f[1] == 0x41 && f[2] == 0x43 && f[3] == 0x20,
        le16(f, 4) >= 3980,
        52 <= le32(f, 8) <= 4096,
        le32(f, 12) >= 24,
        le64(f, 24) > 0,
    ensures
        ({
            let n = le32(f, 8) + le32(f, 12) + le32(f, 16) + le32(f, 20) + le64(f, 24) + le32(f, 32);
            &&& n <= avail ==> ape_len(f, avail) == Some(n as int)
            &&& n > avail ==> ape_len(f, avail) is None
        }),
{
    let h = f.subrange(0, 36);
    reveal_strlit("MAC ");
    assert(text_at(h, 0, "MAC "@));
    assert(le16(h, 4) == le16(f, 4) && le32(h, 12) == le32(f, 12) && le32(h, 16) == le32(f, 16)
        && le32(h, 20) == le32(f, 20) && le32(h, 32) == le32(f, 32) && le32(h, 8) == le32(f, 8)
        && le64(h, 24) == le64(f, 24));
}

/// An AU recording has the header whose length it gives at 4, and as many bytes of sound as it says at 8.
pub proof fn law_au(f: Seq<u8>, avail: int)
    requires
        16 <= f.len(),
        f[0] == 0x2E && f[1] == 0x73 && f[2] == 0x6E && f[3] == 0x64,
        24 <= be32(f, 4) <= 0x10_0000,
        1 <= be32(f, 12) <= 27,
        be32(f, 8) < 0xFFFF_FFFF,
    ensures
        ({
            let n = be32(f, 4) + be32(f, 8);
            &&& n <= avail ==> au_len(f, avail) == Some(n as int)
            &&& n > avail ==> au_len(f, avail) is None
        }),
{
    let h = f.subrange(0, 16);
    reveal_strlit(".snd");
    assert(text_at(h, 0, ".snd"@));
    assert(be32(h, 12) == be32(f, 12) && be32(h, 4) == be32(f, 4) && be32(h, 8) == be32(f, 8));
}

/// An RF64 recording has eight bytes more than it says at 20.
pub proof fn law_rf64(f: Seq<u8>, avail: int)
    requires
        28 <= f.len(),
        f[0] == 0x52 && f[1] == 0x46 && f[2] == 0x36 && f[3] == 0x34,
        f[8] == 0x57 && f[9] == 0x41 && f[10] == 0x56 && f[11] == 0x45,
        f[12] == 0x64 && f[13] == 0x73 && f[14] == 0x36 && f[15] == 0x34,
        le64(f, 20) >= 20,
    ensures
        ({
            let n = 8 + le64(f, 20);
            &&& n <= avail ==> rf64_len(f, avail) == Some(n as int)
            &&& n > avail ==> rf64_len(f, avail) is None
        }),
{
    let h = f.subrange(0, 28);
    reveal_strlit("RF64");
    assert(text_at(h, 0, "RF64"@));
    reveal_strlit("WAVE");
    assert(text_at(h, 8, "WAVE"@));
    reveal_strlit("ds64");
    assert(text_at(h, 12, "ds64"@));
    assert(le64(h, 20) == le64(f, 20));
}

/// A DjVu document has twelve bytes more than it says at 8.
pub proof fn law_djvu(f: Seq<u8>, avail: int)
    requires
        16 <= f.len(),
        f[0] == 0x41 && f[1] == 0x54 && f[2] == 0x26 && f[3] == 0x54 && f[4] == 0x46 && f[5] == 0x4F
            && f[6] == 0x52 && f[7] == 0x4D,
        f[12] == 0x44 && f[13] == 0x4A && f[14] == 0x56 && f[15] == 0x55,
        be32(f, 8) >= 4,
    ensures
        ({
            let n = 12 + be32(f, 8);
            &&& n <= avail ==> djvu_len(f, avail) == Some(n as int)
            &&& n > avail ==> djvu_len(f, avail) is None
        }),
{
    let h = f.subrange(0, 16);
    reveal_strlit("AT&TFORM");
    assert(text_at(h, 0, "AT&TFORM"@));
    reveal_strlit("DJVU");
    assert(text_at(h, 12, "DJVU"@));
    assert(be32(h, 8) == be32(f, 8));
}

/// A colour profile is as long as it says at its beginning.
pub proof fn law_icc(f: Seq<u8>, avail: int)
    requires
        4 <= f.len(),
        be32(f, 0) >= 128,
        be32(f, 0) % 4 == 0,
    ensures
        ({
            let n = be32(f, 0);
            &&& n <= avail ==> icc_len(f, avail) == Some(n as int)
            &&& n > avail ==> icc_len(f, avail) is None
        }),
{
    let h = f.subrange(0, 4);
    assert(be32(h, 0) == be32(f, 0));
}

/// A Sun raster picture has a header of 32 bytes, a table of colours and a picture of the lengths that it gives.
pub proof fn law_sun_raster(f: Seq<u8>, avail: int)
    requires
        32 <= f.len(),
        be32(f, 0) == 0x59A6_6A95,
        be32(f, 4) > 0,
        be32(f, 8) > 0,
        be32(f, 12) == 8 || be32(f, 12) == 24,
        be32(f, 16) > 0,
        be32(f, 20) <= 5,
        be32(f, 24) <= 2,
    ensures
        ({
            let n = 32 + be32(f, 28) + be32(f, 16);
            &&& n <= avail ==> sun_raster_len(f, avail) == Some(n as int)
            &&& n > avail ==> sun_raster_len(f, avail) is None
        }),
{
    let h = f.subrange(0, 32);
    assert(be32(h, 0) == be32(f, 0) && be32(h, 12) == be32(f, 12) && be32(h, 16) == be32(f, 16)
        && be32(h, 20) == be32(f, 20) && be32(h, 24) == be32(f, 24) && be32(h, 28) == be32(f, 28)
        && be32(h, 4) == be32(f, 4) && be32(h, 8) == be32(f, 8));
}

/// A DEX file is as long as it says at 32.
pub proof fn law_dex(f: Seq<u8>, avail: int)
    requires
        44 <= f.len(),
        f[0] == 0x64 && f[1] == 0x65 && f[2] == 0x78 && f[3] == 0x0A,
        le32(f, 36) == 0x70,
        le32(f, 40) == 0x1234_5678,
        le32(f, 32) >= 0x70,
    ensures
        ({
            let n = le32(f, 32);
            &&& n <= avail ==> dex_len(f, avail) == Some(n as int)
            &&& n > avail ==> dex_len(f, avail) is None
        }),
{
    let h = f.subrange(0, 44);
    reveal_strlit("dex\n");
    assert(text_at(h, 0, "dex\n"@));
    assert(le32(h, 32) == le32(f, 32) && le32(h, 36) == le32(f, 36) && le32(h, 40) == le32(f, 40));
}

/// A ZIM archive ends with sixteen bytes of checksum, which begin where it says at 72.
pub proof fn law_zim(f: Seq<u8>, avail: int)
    requires
        80 <= f.len(),
        f[0] == 0x5A && f[1] == 0x49 && f[2] == 0x4D && f[3] == 0x04,
        le64(f, 72) >= 80,
    ensures
        ({
            let n = 16 + le64(f, 72);
            &&& n <= avail ==> zim_len(f, avail) == Some(n as int)
            &&& n > avail ==> zim_len(f, avail) is None
        }),
{
    let h = f.subrange(0, 80);
    reveal_strlit("ZIM\x04");
    assert(text_at(h, 0, "ZIM\x04"@));
    assert(le64(h, 72) == le64(f, 72));
}

/// A mail store is as long as it says at 184.
pub proof fn law_pst(f: Seq<u8>, avail: int)
    requires
        192 <= f.len(),
        f[0] == 0x21 && f[1] == 0x42 && f[2] == 0x44 && f[3] == 0x4E,
        f[8] == 0x53 && f[9] == 0x4D,
        le16(f, 10) >= 23,
        le64(f, 184) >= 192,
    ensures
        ({
            let n = le64(f, 184);
            &&& n <= avail ==> pst_len(f, avail) == Some(n as int)
            &&& n > avail ==> pst_len(f, avail) is None
        }),
{
    let h = f.subrange(0, 192);
    reveal_strlit("!BDN");
    assert(text_at(h, 0, "!BDN"@));
    reveal_strlit("SM");
    assert(text_at(h, 8, "SM"@));
    assert(le16(h, 10) == le16(f, 10) && le64(h, 184) == le64(f, 184));
}

/// A U-Boot image has a header of 64 bytes and as many more as it says at 12.
pub proof fn law_uimage(f: Seq<u8>, avail: int)
    requires
        64 <= f.len(),
        be32(f, 0) == 0x2705_1956,
        be32(f, 12) > 0,
    ensures
        ({
            let n = 64 + be32(f, 12);
            &&& n <= avail ==> uimage_len(f, avail) == Some(n as int)
            &&& n > avail ==> uimage_len(f, avail) is None
        }),
{
    let h = f.subrange(0, 64);
    assert(be32(h, 0) == be32(f, 0) && be32(h, 12) == be32(f, 12));
}

/// A Genesis cartridge says which byte is its last, at 420.
pub proof fn law_genesis(f: Seq<u8>, avail: int)
    requires
        424 <= f.len(),
        f[256] == 0x53 && f[257] == 0x45 && f[258] == 0x47 && f[259] == 0x41,
        be32(f, 416) == 0,
        be32(f, 420) >= 511,
    ensures
        ({
            let n = be32(f, 420) + 1;
            &&& n <= avail ==> genesis_len(f, avail) == Some(n as int)
            &&& n > avail ==> genesis_len(f, avail) is None
        }),
{
    let h = f.subrange(0, 424);
    reveal_strlit("SEGA");
    assert(text_at(h, 256, "SEGA"@));
    assert(be32(h, 416) == be32(f, 416) && be32(h, 420) == be32(f, 420));
}

/// A Flash file is as long as it says at 4.
pub proof fn law_swf(f: Seq<u8>, avail: int)
    requires
        8 <= f.len(),
        f[0] == 0x46 && f[1] == 0x57 && f[2] == 0x53,
        f[3] > 0,
        le32(f, 4) >= 8,
    ensures
        ({
            let n = le32(f, 4);
            &&& n <= avail ==> swf_len(f, avail) == Some(n as int)
            &&& n > avail ==> swf_len(f, avail) is None
        }),
{
    let h = f.subrange(0, 8);
    reveal_strlit("FWS");
    assert(text_at(h, 0, "FWS"@));
    assert(le32(h, 4) == le32(f, 4));
}

/// A FLIC animation is as long as it says at its beginning.
pub proof fn law_flic(f: Seq<u8>, avail: int)
    requires
        16 <= f.len(),
        le16(f, 4) == 0xAF11 || le16(f, 4) == 0xAF12,
        le16(f, 6) > 0,
        1 <= le16(f, 8) <= 10000,
        1 <= le16(f, 10) <= 10000,
        le16(f, 12) == 8 || le16(f, 12) == 0,
        le32(f, 0) >= 128,
    ensures
        ({
            let n = le32(f, 0);
            &&& n <= avail ==> flic_len(f, avail) == Some(n as int)
            &&& n > avail ==> flic_len(f, avail) is None
        }),
{
    let h = f.subrange(0, 16);
    assert(le16(h, 10) == le16(f, 10) && le16(h, 12) == le16(f, 12) && le16(h, 4) == le16(f, 4)
        && le16(h, 6) == le16(f, 6) && le16(h, 8) == le16(f, 8) && le32(h, 0) == le32(f, 0));
}

/// A systemd journal has a header and an arena of the lengths that it gives.
pub proof fn law_journal(f: Seq<u8>, avail: int)
    requires
        104 <= f.len(),
        f[0] == 0x4C && f[1] == 0x50 && f[2] == 0x4B && f[3] == 0x53 && f[4] == 0x48 && f[5] == 0x48
            && f[6] == 0x52 && f[7] == 0x48,
        208 <= le64(f, 88) <= 65536,
        le64(f, 96) > 0,
    ensures
        ({
            let n = le64(f, 88) + le64(f, 96);
            &&& n <= avail ==> journal_len(f, avail) == Some(n as int)
            &&& n > avail ==> journal_len(f, avail) is None
        }),
{
    let h = f.subrange(0, 104);
    reveal_strlit("LPKSHHRH");
    assert(text_at(h, 0, "LPKSHHRH"@));
    assert(le64(h, 88) == le64(f, 88) && le64(h, 96) == le64(f, 96));
}

/// A ReFS volume has as many sectors as it says at 24, of the size that it says at 32.
pub proof fn law_refs(f: Seq<u8>, avail: int)
    requires
        40 <= f.len(),
        f[3] == 0x52 && f[4] == 0x65 && f[5] == 0x46 && f[6] == 0x53,
        f[16] == 0x46 && f[17] == 0x53 && f[18] == 0x52 && f[19] == 0x53,
        le32(f, 32) == 512 || le32(f, 32) == 4096,
        le64(f, 24) > 0,
    ensures
        ({
            let n = le64(f, 24) * le32(f, 32);
            &&& n <= avail ==> refs_len(f, avail) == Some(n as int)
            &&& n > avail ==> refs_len(f, avail) is None
        }),
{
    let h = f.subrange(0, 40);
    reveal_strlit("ReFS");
    assert(text_at(h, 3, "ReFS"@));
    reveal_strlit("FSRS");
    assert(text_at(h, 16, "FSRS"@));
    assert(le32(h, 32) == le32(f, 32) && le64(h, 24) == le64(f, 24));
    lemma_sizes();
}

/// A romfs volume is as long as it says at 8.
pub proof fn law_romfs(f: Seq<u8>, avail: int)
    requires
        12 <= f.len(),
        f[0] == 0x2D && f[1] == 0x72 && f[2] == 0x6F && f[3] == 0x6D && f[4] == 0x31 && f[5] == 0x66
            && f[6] == 0x73 && f[7] == 0x2D,
        be32(f, 8) >= 16,
    ensures
        ({
            let n = be32(f, 8);
            &&& n <= avail ==> romfs_len(f, avail) == Some(n as int)
            &&& n > avail ==> romfs_len(f, avail) is None
        }),
{
    let h = f.subrange(0, 12);
    reveal_strlit("-rom1fs-");
    assert(text_at(h, 0, "-rom1fs-"@));
    assert(be32(h, 8) == be32(f, 8));
}

/// A JFS volume has as many blocks as it says at 8 of its superblock, of the size that it says at 24.
pub proof fn law_jfs(f: Seq<u8>, avail: int)
    requires
        32800 <= f.len(),
        f[32768] == 0x4A && f[32769] == 0x46 && f[32770] == 0x53 && f[32771] == 0x31,
        le64(f, 32776) >= 8,
        le32(f, 32792) == 4096,
    ensures
        ({
            let n = le64(f, 32776) * 4096;
            &&& n <= avail ==> jfs_len(f, avail) == Some(n as int)
            &&& n > avail ==> jfs_len(f, avail) is None
        }),
{
    let h = f.subrange(32768, 32800);
    reveal_strlit("JFS1");
    assert(text_at(h, 0, "JFS1"@));
    assert(le32(h, 24) == le32(f, 32792) && le64(h, 8) == le64(f, 32776));
    lemma_sizes();
}

/// An HFS+ volume has as many blocks as it says at 44 of its header, of the size that it says at 40.
pub proof fn law_hfsplus(f: Seq<u8>, avail: int)
    requires
        1072 <= f.len(),
        f[1024] == 0x48 && (f[1025] == 0x2B || f[1025] == 0x58),
        be32(f, 1064) == 4096,
        be32(f, 1068) > 0,
    ensures
        ({
            let n = be32(f, 1068) * 4096;
            &&& n <= avail ==> hfsplus_len(f, avail) == Some(n as int)
            &&& n > avail ==> hfsplus_len(f, avail) is None
        }),
{
    let h = f.subrange(1024, 1072);
    assert(be32(h, 40) == be32(f, 1064) && be32(h, 44) == be32(f, 1068));
    lemma_sizes();
}

/// A SquashFS volume is as long as it says at 40.
pub proof fn law_squashfs(f: Seq<u8>, avail: int)
    requires
        48 <= f.len(),
        le16(f, 28) == 4,
        le16(f, 22) == 17,
        le32(f, 12) == 131072,
        le64(f, 40) >= 96,
    ensures
        ({
            let n = le64(f, 40);
            &&& n <= avail ==> squashfs_len(f, avail) == Some(n as int)
            &&& n > avail ==> squashfs_len(f, avail) is None
        }),
{
    let h = f.subrange(0, 48);
    assert(le16(h, 22) == le16(f, 22) && le16(h, 28) == le16(f, 28) && le32(h, 12) == le32(f, 12)
        && le64(h, 40) == le64(f, 40));
    lemma2_to64();
}

/// A Btrfs volume on one device is as long as it says at 112 of its superblock.
pub proof fn law_btrfs(f: Seq<u8>, avail: int)
    requires
        65792 <= f.len(),
        f[65600] == 0x5F && f[65601] == 0x42 && f[65602] == 0x48 && f[65603] == 0x52 && f[65604] == 0x66
            && f[65605] == 0x53 && f[65606] == 0x5F && f[65607] == 0x4D,
        le64(f, 65648) > 0,
        le64(f, 65672) == 1,
        le32(f, 65680) == 4096,
        le32(f, 65684) == 4096,
    ensures
        ({
            let n = le64(f, 65648);
            &&& n <= avail ==> btrfs_len(f, avail) == Some(n as int)
            &&& n > avail ==> btrfs_len(f, avail) is None
        }),
{
    let h = f.subrange(65536, 65792);
    reveal_strlit("_BHRfS_M");
    assert(text_at(h, 64, "_BHRfS_M"@));
    assert(le32(h, 144) == le32(f, 65680) && le32(h, 148) == le32(f, 65684) && le64(h, 112) == le64(f, 65648)
        && le64(h, 136) == le64(f, 65672));
    lemma_sizes();
}

} // verus!
