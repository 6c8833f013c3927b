//! The length of a file by its signature.

use crate::carver::archives::{
    applesingle_fails, applesingle_len, applesingle_length, ar_fails, ar_len, ar_length,
    cpio_fails, cpio_len, cpio_length, lz4_fails, lz4_len, lz4_length, rar_fails, rar_len,
    rar_length, rpm_len, rpm_length, tar_fails, tar_len, tar_length, wim_len, wim_length, zim_len,
    zim_length, zip_fails, zip_len, zip_length, zstd_fails, zstd_len, zstd_length,
};
use crate::carver::audio::{
    aac_fails, aac_len, aac_length, amr_fails, amr_len, amr_length, ape_len, ape_length, au_len,
    au_length, dsdiff_len, dsdiff_length, dsf_len, dsf_length, midi_fails, midi_len, midi_length,
    mp3_fails, mp3_len, mp3_length, mp3_raw_len, mp3_raw_length, mp3_run_fails, qoa_fails,
    qoa_len, qoa_length, rf64_len, rf64_length, voc_fails, voc_len, voc_length, wavpack_fails,
    wavpack_len, wavpack_length,
};
use crate::carver::data::{
    avro_fails, avro_len, avro_length, blend_fails, blend_len, blend_length, e57_len, e57_length,
    gguf_fails, gguf_len, gguf_length, glb_fails, glb_len, glb_length, grib2_fails, grib2_len,
    grib2_length, hdf5_len, hdf5_length, journal_len, journal_length, las_len, las_length,
    mcap_fails, mcap_len, mcap_length, nifti_len, nifti_length, npy_fails, npy_len, npy_length,
    pcap_fails, pcap_len, pcap_length, pcapng_fails, pcapng_len, pcapng_length, shp_len,
    shp_length, usdc_fails, usdc_len, usdc_length, MAX_GRIB_MESSAGES, MAX_MCAP_RECORDS,
};
use crate::carver::documents::{
    cfbf_fails, cfbf_len, cfbf_length, eps_len, eps_length, evtx_len, evtx_length, pdb_len,
    pdb_length, pst_len, pst_length, regf_len, regf_length, rtf_fails, rtf_len, rtf_length,
};
use crate::carver::executables::{
    dex_len, dex_length, elf_len, elf_length, macho_fails, macho_len, macho_length, pe_fails,
    pe_len, pe_length, wasm_fails, wasm_len, wasm_length,
};
use crate::carver::firmware::{
    android_sparse_fails, android_sparse_len, android_sparse_length, bootimg_len, bootimg_length,
    uimage_len, uimage_length, vendorboot_len, vendorboot_length,
};
use crate::carver::fonts::{
    pcf_fails, pcf_len, pcf_length, sfnt_fails, sfnt_len, sfnt_length, ttc_fails, ttc_len,
    ttc_length,
};
use crate::carver::games::{
    bsp_len, bsp_length, gameboy_len, gameboy_length, genesis_len, genesis_length,
    godot_pck_fails, godot_pck_len, godot_pck_length, md2_len, md2_length, nes_len, nes_length,
    pak_len, pak_length, psxexe_len, psxexe_length, unityfs_len, unityfs_length, vpk_len,
    vpk_length, wad_len, wad_length,
};
use crate::carver::generic::{
    chunk_len, chunk_length, find_footer, fixed_length, footer_fails, footer_len, header32_len,
    header32_length, sevenzip_len, sevenzip_length, sizefield_len, sizefield_length, some_len,
    sqlite_len, sqlite_length,
};
use crate::carver::images::{
    djvu_len, djvu_length, gif_fails, gif_len, gif_length, icc_len, icc_length, icocur_fails,
    icocur_len, icocur_length, jpeg_fails, jpeg_len, jpeg_length, psd_fails, psd_len, psd_length,
    raf_len, raf_length, sun_raster_len, sun_raster_length, wmf_len, wmf_length,
};
use crate::carver::textures::{
    astc_len, astc_length, blp_len, blp_length, dds_len, dds_length, exr_fails, exr_len,
    exr_length, farbfeld_len, farbfeld_length, ktx1_fails, ktx1_len, ktx1_length, ktx2_fails,
    ktx2_len, ktx2_length, pvr_len, pvr_length, qoi_fails, qoi_len, qoi_length,
};
use crate::carver::tiff::{
    tiff_fails, tiff_len, tiff_length,
};
use crate::carver::video::{
    asf_fails, asf_len, asf_length, ebml_file_fails, ebml_len, ebml_length, flic_len, flic_length,
    flv_fails, flv_len, flv_length, ivf_fails, ivf_len, ivf_length, mp4_fails, mp4_len,
    mp4_length, mpegps_fails, mpegps_len, mpegps_length, mpegts_fails, mpegts_len, mpegts_length,
    ogg_fails, ogg_len, ogg_length, swf_len, swf_length, y4m_fails, y4m_len, y4m_length,
};
use crate::carver::volumes::{
    apfs_len, apfs_length, befs_len, befs_length, btrfs_len, btrfs_length, cramfs_len,
    cramfs_length, erofs_len, erofs_length, exfat_len, exfat_length, f2fs_len, f2fs_length,
    hfsplus_len, hfsplus_length, iso9660_len, iso9660_length, jfs_len, jfs_length, ntfs_len,
    ntfs_length, refs_len, refs_length, reiserfs_fails, reiserfs_len, reiserfs_length, romfs_len,
    romfs_length, squashfs_len, squashfs_length, swap_fails, swap_len, swap_length, ufs_len,
    ufs_length, xfs_len, xfs_length,
};
use crate::bytes::smaller;
use crate::signatures::{Extent, Signature};
use crate::source::{Length, ReadError, Source, REACH};
use vstd::prelude::*;

verus! {

/// The length of a file at the beginning of `f`, with `avail` bytes of room, that is sized as `e` says.
pub open spec fn extent_len(e: Extent, f: Seq<u8>, avail: int) -> Option<int> {
    match e {
        Extent::Footer { marker, trailing } => footer_len(f, avail, marker@, trailing as nat),
        Extent::HeaderSizeLe32 { offset } => header32_len(f, avail, offset as int, false),
        Extent::HeaderSizeBe32 { offset } => header32_len(f, avail, offset as int, true),
        Extent::Fixed { size } => some_len(size as int, avail),
        Extent::SizeField { offset, width, big_endian, mul, add } => sizefield_len(
            f,
            avail,
            offset as int,
            width,
            big_endian,
            mul as int,
            add as int,
        ),
        Extent::RiffSize => chunk_len(f, avail, false),
        Extent::FormSize => chunk_len(f, avail, true),
        Extent::Sqlite => sqlite_len(f, avail),
        Extent::SevenZip => sevenzip_len(f, avail),
        Extent::Mp4Atoms => mp4_len(f, avail),
        Extent::Elf => elf_len(f, avail),
        Extent::Pe => pe_len(f, avail),
        Extent::Tiff => tiff_len(f, avail),
        Extent::Ebml => ebml_len(f, avail),
        Extent::Ogg => ogg_len(f, avail),
        Extent::Asf => asf_len(f, avail),
        Extent::Wasm => wasm_len(f, avail),
        Extent::IcoCur => icocur_len(f, avail),
        Extent::Sfnt => sfnt_len(f, avail),
        Extent::Midi => midi_len(f, avail),
        Extent::Flv => flv_len(f, avail),
        Extent::Pcap => pcap_len(f, avail),
        Extent::Pcapng => pcapng_len(f, avail),
        Extent::Ttc => ttc_len(f, avail),
        Extent::Rar => rar_len(f, avail),
        Extent::Zstd => zstd_len(f, avail),
        Extent::Lz4 => lz4_len(f, avail),
        Extent::Psd => psd_len(f, avail),
        Extent::Wmf => wmf_len(f, avail),
        Extent::Djvu => djvu_len(f, avail),
        Extent::Evtx => evtx_len(f, avail),
        Extent::Rtf => rtf_len(f, avail),
        Extent::Mp3 => mp3_len(f, avail),
        Extent::MachO => macho_len(f, avail),
        Extent::Regf => regf_len(f, avail),
        Extent::Aac => aac_len(f, avail),
        Extent::Dex => dex_len(f, avail),
        Extent::Icc => icc_len(f, avail),
        Extent::Ar => ar_len(f, avail),
        Extent::Shp => shp_len(f, avail),
        Extent::Blend => blend_len(f, avail),
        Extent::Nes => nes_len(f, avail),
        Extent::Gameboy => gameboy_len(f, avail),
        Extent::Wad => wad_len(f, avail),
        Extent::Au => au_len(f, avail),
        Extent::Genesis => genesis_len(f, avail),
        Extent::Voc => voc_len(f, avail),
        Extent::Amr => amr_len(f, avail),
        Extent::PsxExe => psxexe_len(f, avail),
        Extent::AndroidSparse => android_sparse_len(f, avail),
        Extent::Mp3Raw => mp3_raw_len(f, avail),
        Extent::Jpeg => jpeg_len(f, avail),
        Extent::Zip => zip_len(f, avail),
        Extent::Gif => gif_len(f, avail),
        Extent::Wim => wim_len(f, avail),
        Extent::Swf => swf_len(f, avail),
        Extent::Cfbf => cfbf_len(f, avail),
        Extent::Pst => pst_len(f, avail),
        Extent::Tar => tar_len(f, avail),
        Extent::Cpio => cpio_len(f, avail),
        Extent::Squashfs => squashfs_len(f, avail),
        Extent::Iso9660 => iso9660_len(f, avail),
        Extent::Flic => flic_len(f, avail),
        Extent::WavPack => wavpack_len(f, avail),
        Extent::Ape => ape_len(f, avail),
        Extent::AppleSingle => applesingle_len(f, avail),
        Extent::SunRaster => sun_raster_len(f, avail),
        Extent::Dsf => dsf_len(f, avail),
        Extent::Dsdiff => dsdiff_len(f, avail),
        Extent::Pcf => pcf_len(f, avail),
        Extent::UImage => uimage_len(f, avail),
        Extent::QuakePak => pak_len(f, avail),
        Extent::Md2 => md2_len(f, avail),
        Extent::Ivf => ivf_len(f, avail),
        Extent::Zim => zim_len(f, avail),
        Extent::Gguf => gguf_len(f, avail),
        Extent::BootImg => bootimg_len(f, avail),
        Extent::Ktx2 => ktx2_len(f, avail),
        Extent::Qoa => qoa_len(f, avail),
        Extent::VendorBoot => vendorboot_len(f, avail),
        Extent::Npy => npy_len(f, avail),
        Extent::Journal => journal_len(f, avail),
        Extent::UnityFs => unityfs_len(f, avail),
        Extent::Raf => raf_len(f, avail),
        Extent::Vpk => vpk_len(f, avail),
        Extent::Las => las_len(f, avail),
        Extent::GodotPck => godot_pck_len(f, avail),
        Extent::E57 => e57_len(f, avail),
        Extent::Rf64 => rf64_len(f, avail),
        Extent::Nifti => nifti_len(f, avail),
        Extent::Usdc => usdc_len(f, avail),
        Extent::Avro => avro_len(f, avail),
        Extent::Hdf5 => hdf5_len(f, avail),
        Extent::Dds => dds_len(f, avail),
        Extent::Astc => astc_len(f, avail),
        Extent::Glb => glb_len(f, avail),
        Extent::Erofs => erofs_len(f, avail),
        Extent::Ktx1 => ktx1_len(f, avail),
        Extent::Exr => exr_len(f, avail),
        Extent::Mcap => mcap_len(f, avail),
        Extent::Bsp => bsp_len(f, avail),
        Extent::Qoi => qoi_len(f, avail),
        Extent::Rpm => rpm_len(f, avail),
        Extent::Farbfeld => farbfeld_len(f, avail),
        Extent::Y4m => y4m_len(f, avail),
        Extent::Pvr => pvr_len(f, avail),
        Extent::Blp => blp_len(f, avail),
        Extent::Grib2 => grib2_len(f, avail),
        Extent::F2fs => f2fs_len(f, avail),
        Extent::Btrfs => btrfs_len(f, avail),
        Extent::Xfs => xfs_len(f, avail),
        Extent::Exfat => exfat_len(f, avail),
        Extent::Apfs => apfs_len(f, avail),
        Extent::Refs => refs_len(f, avail),
        Extent::Ntfs => ntfs_len(f, avail),
        Extent::Swap => swap_len(f, avail),
        Extent::Romfs => romfs_len(f, avail),
        Extent::Cramfs => cramfs_len(f, avail),
        Extent::Jfs => jfs_len(f, avail),
        Extent::Ufs => ufs_len(f, avail),
        Extent::Befs => befs_len(f, avail),
        Extent::HfsPlus => hfsplus_len(f, avail),
        Extent::Reiserfs => reiserfs_len(f, avail),
        Extent::Mpegts => mpegts_len(f, avail),
        Extent::Mpegps => mpegps_len(f, avail),
        Extent::Pdb => pdb_len(f, avail),
        Extent::Eps => eps_len(f, avail),
    }
}

/// One of the bytes that are looked at to size a file at `start`, with `avail` bytes of room, as `e` says could not be
/// read.
pub open spec fn extent_fails(e: Extent, src: Source, start: int, avail: int) -> bool {
    match e {
        Extent::Footer { marker, trailing } => footer_fails(
            src,
            start,
            avail,
            marker@,
            trailing as nat,
        ),
        Extent::HeaderSizeLe32 { offset } => src.faulty(start, offset + 4),
        Extent::HeaderSizeBe32 { offset } => src.faulty(start, offset + 4),
        Extent::Fixed { .. } => false,
        Extent::SizeField { offset, width, .. } => offset + width / 8 <= usize::MAX && src.faulty(
            start,
            offset + width / 8,
        ),
        Extent::RiffSize => src.faulty(start, 8),
        Extent::FormSize => src.faulty(start, 8),
        Extent::Sqlite => src.faulty(start, 32),
        Extent::SevenZip => src.faulty(start, 32),
        Extent::Mp4Atoms => mp4_fails(src, start, avail, 0),
        Extent::Elf => src.faulty(start, 64),
        Extent::Pe => pe_fails(src, start, avail),
        Extent::Tiff => tiff_fails(src, start as u64, avail as u64),
        Extent::Ebml => ebml_file_fails(src, start, avail),
        Extent::Ogg => ogg_fails(src, start, avail, 0, 0),
        Extent::Asf => asf_fails(src, start, avail, 0, 0),
        Extent::Wasm => wasm_fails(src, start, avail),
        Extent::IcoCur => icocur_fails(src, start, avail),
        Extent::Sfnt => sfnt_fails(src, start, avail, 0),
        Extent::Midi => midi_fails(src, start, avail),
        Extent::Flv => flv_fails(src, start, avail),
        Extent::Pcap => pcap_fails(src, start, avail),
        Extent::Pcapng => pcapng_fails(src, start, avail),
        Extent::Ttc => ttc_fails(src, start, avail),
        Extent::Rar => rar_fails(src, start, avail),
        Extent::Zstd => zstd_fails(src, start, avail),
        Extent::Lz4 => lz4_fails(src, start, avail),
        Extent::Psd => psd_fails(src, start, avail),
        Extent::Wmf => src.faulty(start, 32),
        Extent::Djvu => src.faulty(start, 16),
        Extent::Evtx => src.faulty(start, 48),
        Extent::Rtf => rtf_fails(src, start, avail, 0, 0, false),
        Extent::Mp3 => mp3_fails(src, start, avail),
        Extent::MachO => macho_fails(src, start, avail),
        Extent::Regf => src.faulty(start, 48),
        Extent::Aac => aac_fails(src, start, avail, 0, 0, 0),
        Extent::Dex => src.faulty(start, 44),
        Extent::Icc => src.faulty(start, 4),
        Extent::Ar => ar_fails(src, start, avail),
        Extent::Shp => src.faulty(start, 32),
        Extent::Blend => blend_fails(src, start, avail),
        Extent::Nes => src.faulty(start, 16),
        Extent::Gameboy => src.faulty(start, 336),
        Extent::Wad => src.faulty(start, 12),
        Extent::Au => src.faulty(start, 16),
        Extent::Genesis => src.faulty(start, 424),
        Extent::Voc => voc_fails(src, start, avail),
        Extent::Amr => amr_fails(src, start, avail, 6),
        Extent::PsxExe => src.faulty(start, 32),
        Extent::AndroidSparse => android_sparse_fails(src, start, avail),
        Extent::Mp3Raw => mp3_run_fails(src, start, avail, 0),
        Extent::Jpeg => jpeg_fails(src, start, avail),
        Extent::Zip => zip_fails(src, start, avail),
        Extent::Gif => gif_fails(src, start, avail),
        Extent::Wim => src.faulty(start, 148),
        Extent::Swf => src.faulty(start, 8),
        Extent::Cfbf => cfbf_fails(src, start, avail),
        Extent::Pst => src.faulty(start, 192),
        Extent::Tar => tar_fails(src, start, avail, 0, 0),
        Extent::Cpio => cpio_fails(src, start, avail, 0, 0),
        Extent::Squashfs => src.faulty(start, 48),
        Extent::Iso9660 => src.faulty(start + 0x8000, 132),
        Extent::Flic => src.faulty(start, 16),
        Extent::WavPack => wavpack_fails(src, start, avail, 0, 0),
        Extent::Ape => src.faulty(start, 36),
        Extent::AppleSingle => applesingle_fails(src, start, avail),
        Extent::SunRaster => src.faulty(start, 32),
        Extent::Dsf => src.faulty(start, 32),
        Extent::Dsdiff => src.faulty(start, 16),
        Extent::Pcf => pcf_fails(src, start, avail),
        Extent::UImage => src.faulty(start, 64),
        Extent::QuakePak => src.faulty(start, 12),
        Extent::Md2 => src.faulty(start, 68),
        Extent::Ivf => ivf_fails(src, start, avail),
        Extent::Zim => src.faulty(start, 80),
        Extent::Gguf => gguf_fails(src, start, avail),
        Extent::BootImg => src.faulty(start, 0x680),
        Extent::Ktx2 => ktx2_fails(src, start, avail),
        Extent::Qoa => qoa_fails(src, start, avail),
        Extent::VendorBoot => src.faulty(start, 0x850),
        Extent::Npy => npy_fails(src, start),
        Extent::Journal => src.faulty(start, 104),
        Extent::UnityFs => src.faulty(start, 256),
        Extent::Raf => src.faulty(start, 108),
        Extent::Vpk => src.faulty(start, 28),
        Extent::Las => src.faulty(start, 0x110),
        Extent::GodotPck => godot_pck_fails(src, start, avail),
        Extent::E57 => src.faulty(start, 24),
        Extent::Rf64 => src.faulty(start, 28),
        Extent::Nifti => src.faulty(start, 352),
        Extent::Usdc => usdc_fails(src, start, avail),
        Extent::Avro => avro_fails(src, start, avail),
        Extent::Hdf5 => src.faulty(start, 56),
        Extent::Dds => src.faulty(start, 128),
        Extent::Astc => src.faulty(start, 16),
        Extent::Glb => glb_fails(src, start, avail),
        Extent::Erofs => src.faulty(start, 1088),
        Extent::Ktx1 => ktx1_fails(src, start, avail),
        Extent::Exr => exr_fails(src, start),
        Extent::Mcap => mcap_fails(src, start, avail, 8, MAX_MCAP_RECORDS as nat),
        Extent::Bsp => src.faulty(start, 1032),
        Extent::Qoi => qoi_fails(src, start, avail),
        Extent::Rpm => src.faulty(start, 0x2_0000),
        Extent::Farbfeld => src.faulty(start, 16),
        Extent::Y4m => y4m_fails(src, start, avail),
        Extent::Pvr => src.faulty(start, 52),
        Extent::Blp => src.faulty(start, 148),
        Extent::Grib2 => grib2_fails(src, start, avail, 0, MAX_GRIB_MESSAGES as nat),
        Extent::F2fs => src.faulty(start, 1072),
        Extent::Btrfs => src.faulty(start + 0x1_0000, 256),
        Extent::Xfs => src.faulty(start, 16),
        Extent::Exfat => src.faulty(start, 128),
        Extent::Apfs => src.faulty(start, 48),
        Extent::Refs => src.faulty(start, 40),
        Extent::Ntfs => src.faulty(start, 48),
        Extent::Swap => swap_fails(src, start),
        Extent::Romfs => src.faulty(start, 12),
        Extent::Cramfs => src.faulty(start, 32),
        Extent::Jfs => src.faulty(start + 0x8000, 32),
        Extent::Ufs => src.faulty(start + 0x2000, 0x560),
        Extent::Befs => src.faulty(start + 0x200, 72),
        Extent::HfsPlus => src.faulty(start + 0x400, 48),
        Extent::Reiserfs => reiserfs_fails(src, start, avail),
        Extent::Mpegts => mpegts_fails(src, start, avail, 0),
        Extent::Mpegps => mpegps_fails(src, start, avail, 0),
        Extent::Pdb => src.faulty(start, 44),
        Extent::Eps => src.faulty(start, 28),
    }
}

/// The room that a file of a signature has at `start` in a scan that ends at `end`.
pub open spec fn room(sig: Signature, start: int, end: int) -> int {
    smaller(sig.max_size as int, end - start)
}

/// A file that is sized as `e` says may have a header that sends a read anywhere behind its start.
pub open spec fn is_far_reaching(e: Extent) -> bool {
    e is HeaderSizeLe32 || e is HeaderSizeBe32 || e is SizeField || e is Cfbf || e is Exr || e is Ktx1
        || e is Mcap || e is Psd
}

/// `e` is an error that a scan for `sigs` up to `end` may stop with: a read ran into an unreadable byte, not
/// far behind the end unless a header sent it there.
pub open spec fn stops_scan(source: Source, sigs: Seq<Signature>, end: int, e: ReadError) -> bool {
    &&& source.explains(e)
    &&& e.offset < end + REACH || exists|k: int|
        0 <= k < sigs.len() && is_far_reaching((#[trigger] sigs[k]).extent)
}

/// No scan of an image all of which could be read fails.
pub proof fn law_intact_image(source: Source, sigs: Seq<Signature>, end: int, e: ReadError)
    requires
        source.intact(),
    ensures
        !stops_scan(source, sigs, end, e),
{
}

/// Compute the length of the file of type `sig` that starts at `file_start`, or `None` if it cannot be
/// reconstructed. The file lies in the scan, and is no longer than files of the type may be.
pub fn file_length(source: &Source, sig: &Signature, file_start: u64, scan_end: u64) -> (r: Length)
    requires
        source.spans(file_start, scan_end),
        sig.extent.wf(),
    ensures
        source.sizes_afar(
            file_start,
            r,
            extent_len(
                sig.extent,
                source.tail(file_start as int),
                room(*sig, file_start as int, scan_end as int),
            ),
            room(*sig, file_start as int, scan_end as int),
        ),
        r matches Err(e) ==> is_far_reaching(sig.extent) || source.blames(
            file_start,
            room(*sig, file_start as int, scan_end as int),
            e,
        ),
        r is Err <==> extent_fails(
            sig.extent,
            *source,
            file_start as int,
            room(*sig, file_start as int, scan_end as int),
        ),
{
    let limit: u64 = if sig.max_size < scan_end - file_start {
        file_start + sig.max_size
    } else {
        scan_end
    };
    match sig.extent {
        Extent::Footer { marker, trailing } => find_footer(
            source,
            file_start,
            marker,
            trailing,
            limit,
        ),
        Extent::HeaderSizeLe32 { offset } => header32_length(
            source,
            file_start,
            limit,
            offset,
            false,
        ),
        Extent::HeaderSizeBe32 { offset } => header32_length(
            source,
            file_start,
            limit,
            offset,
            true,
        ),
        Extent::Fixed { size } => fixed_length(source, file_start, limit, size),
        Extent::SizeField { offset, width, big_endian, mul, add } => sizefield_length(
            source,
            file_start,
            limit,
            offset,
            width,
            big_endian,
            mul,
            add,
        ),
        Extent::RiffSize => chunk_length(source, file_start, limit, false),
        Extent::FormSize => chunk_length(source, file_start, limit, true),
        Extent::Sqlite => sqlite_length(source, file_start, limit),
        Extent::SevenZip => sevenzip_length(source, file_start, limit),
        Extent::Mp4Atoms => mp4_length(source, file_start, limit),
        Extent::Elf => elf_length(source, file_start, limit),
        Extent::Pe => pe_length(source, file_start, limit),
        Extent::Tiff => tiff_length(source, file_start, limit),
        Extent::Ebml => ebml_length(source, file_start, limit),
        Extent::Ogg => ogg_length(source, file_start, limit),
        Extent::Asf => asf_length(source, file_start, limit),
        Extent::Wasm => wasm_length(source, file_start, limit),
        Extent::IcoCur => icocur_length(source, file_start, limit),
        Extent::Sfnt => sfnt_length(source, file_start, limit),
        Extent::Midi => midi_length(source, file_start, limit),
        Extent::Flv => flv_length(source, file_start, limit),
        Extent::Pcap => pcap_length(source, file_start, limit),
        Extent::Pcapng => pcapng_length(source, file_start, limit),
        Extent::Ttc => ttc_length(source, file_start, limit),
        Extent::Rar => rar_length(source, file_start, limit),
        Extent::Zstd => zstd_length(source, file_start, limit),
        Extent::Lz4 => lz4_length(source, file_start, limit),
        Extent::Psd => psd_length(source, file_start, limit),
        Extent::Wmf => wmf_length(source, file_start, limit),
        Extent::Djvu => djvu_length(source, file_start, limit),
        Extent::Evtx => evtx_length(source, file_start, limit),
        Extent::Rtf => rtf_length(source, file_start, limit),
        Extent::Mp3 => mp3_length(source, file_start, limit),
        Extent::MachO => macho_length(source, file_start, limit),
        Extent::Regf => regf_length(source, file_start, limit),
        Extent::Aac => aac_length(source, file_start, limit),
        Extent::Dex => dex_length(source, file_start, limit),
        Extent::Icc => icc_length(source, file_start, limit),
        Extent::Ar => ar_length(source, file_start, limit),
        Extent::Shp => shp_length(source, file_start, limit),
        Extent::Blend => blend_length(source, file_start, limit),
        Extent::Nes => nes_length(source, file_start, limit),
        Extent::Gameboy => gameboy_length(source, file_start, limit),
        Extent::Wad => wad_length(source, file_start, limit),
        Extent::Au => au_length(source, file_start, limit),
        Extent::Genesis => genesis_length(source, file_start, limit),
        Extent::Voc => voc_length(source, file_start, limit),
        Extent::Amr => amr_length(source, file_start, limit),
        Extent::PsxExe => psxexe_length(source, file_start, limit),
        Extent::AndroidSparse => android_sparse_length(source, file_start, limit),
        Extent::Mp3Raw => mp3_raw_length(source, file_start, limit),
        Extent::Jpeg => jpeg_length(source, file_start, limit),
        Extent::Zip => zip_length(source, file_start, limit),
        Extent::Gif => gif_length(source, file_start, limit),
        Extent::Wim => wim_length(source, file_start, limit),
        Extent::Swf => swf_length(source, file_start, limit),
        Extent::Cfbf => cfbf_length(source, file_start, limit),
        Extent::Pst => pst_length(source, file_start, limit),
        Extent::Tar => tar_length(source, file_start, limit),
        Extent::Cpio => cpio_length(source, file_start, limit),
        Extent::Squashfs => squashfs_length(source, file_start, limit),
        Extent::Iso9660 => iso9660_length(source, file_start, limit),
        Extent::Flic => flic_length(source, file_start, limit),
        Extent::WavPack => wavpack_length(source, file_start, limit),
        Extent::Ape => ape_length(source, file_start, limit),
        Extent::AppleSingle => applesingle_length(source, file_start, limit),
        Extent::SunRaster => sun_raster_length(source, file_start, limit),
        Extent::Dsf => dsf_length(source, file_start, limit),
        Extent::Dsdiff => dsdiff_length(source, file_start, limit),
        Extent::Pcf => pcf_length(source, file_start, limit),
        Extent::UImage => uimage_length(source, file_start, limit),
        Extent::QuakePak => pak_length(source, file_start, limit),
        Extent::Md2 => md2_length(source, file_start, limit),
        Extent::Ivf => ivf_length(source, file_start, limit),
        Extent::Zim => zim_length(source, file_start, limit),
        Extent::Gguf => gguf_length(source, file_start, limit),
        Extent::BootImg => bootimg_length(source, file_start, limit),
        Extent::Ktx2 => ktx2_length(source, file_start, limit),
        Extent::Qoa => qoa_length(source, file_start, limit),
        Extent::VendorBoot => vendorboot_length(source, file_start, limit),
        Extent::Npy => npy_length(source, file_start, limit),
        Extent::Journal => journal_length(source, file_start, limit),
        Extent::UnityFs => unityfs_length(source, file_start, limit),
        Extent::Raf => raf_length(source, file_start, limit),
        Extent::Vpk => vpk_length(source, file_start, limit),
        Extent::Las => las_length(source, file_start, limit),
        Extent::GodotPck => godot_pck_length(source, file_start, limit),
        Extent::E57 => e57_length(source, file_start, limit),
        Extent::Rf64 => rf64_length(source, file_start, limit),
        Extent::Nifti => nifti_length(source, file_start, limit),
        Extent::Usdc => usdc_length(source, file_start, limit),
        Extent::Avro => avro_length(source, file_start, limit),
        Extent::Hdf5 => hdf5_length(source, file_start, limit),
        Extent::Dds => dds_length(source, file_start, limit),
        Extent::Astc => astc_length(source, file_start, limit),
        Extent::Glb => glb_length(source, file_start, limit),
        Extent::Erofs => erofs_length(source, file_start, limit),
        Extent::Ktx1 => ktx1_length(source, file_start, limit),
        Extent::Exr => exr_length(source, file_start, limit),
        Extent::Mcap => mcap_length(source, file_start, limit),
        Extent::Bsp => bsp_length(source, file_start, limit),
        Extent::Qoi => qoi_length(source, file_start, limit),
        Extent::Rpm => rpm_length(source, file_start, limit),
        Extent::Farbfeld => farbfeld_length(source, file_start, limit),
        Extent::Y4m => y4m_length(source, file_start, limit),
        Extent::Pvr => pvr_length(source, file_start, limit),
        Extent::Blp => blp_length(source, file_start, limit),
        Extent::Grib2 => grib2_length(source, file_start, limit),
        Extent::F2fs => f2fs_length(source, file_start, limit),
        Extent::Btrfs => btrfs_length(source, file_start, limit),
        Extent::Xfs => xfs_length(source, file_start, limit),
        Extent::Exfat => exfat_length(source, file_start, limit),
        Extent::Apfs => apfs_length(source, file_start, limit),
        Extent::Refs => refs_length(source, file_start, limit),
        Extent::Ntfs => ntfs_length(source, file_start, limit),
        Extent::Swap => swap_length(source, file_start, limit),
        Extent::Romfs => romfs_length(source, file_start, limit),
        Extent::Cramfs => cramfs_length(source, file_start, limit),
        Extent::Jfs => jfs_length(source, file_start, limit),
        Extent::Ufs => ufs_length(source, file_start, limit),
        Extent::Befs => befs_length(source, file_start, limit),
        Extent::HfsPlus => hfsplus_length(source, file_start, limit),
        Extent::Reiserfs => reiserfs_length(source, file_start, limit),
        Extent::Mpegts => mpegts_length(source, file_start, limit),
        Extent::Mpegps => mpegps_length(source, file_start, limit),
        Extent::Pdb => pdb_length(source, file_start, limit),
        Extent::Eps => eps_length(source, file_start, limit),
    }
}

} // verus!
