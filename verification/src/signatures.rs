//! What the beginnings of files look like.

use vstd::prelude::*;

verus! {

/// How the length of a file of some type is found.
#[derive(Clone, Copy)]
pub enum Extent<'a> {
    /// The file ends with `marker`, and a line ending of up to `trailing` bytes.
    Footer { marker: &'a [u8], trailing: u64 },
    /// The length is a little-endian integer of 32 bits at `offset`.
    HeaderSizeLe32 { offset: usize },
    /// The length is a big-endian integer of 32 bits at `offset`.
    HeaderSizeBe32 { offset: usize },
    /// Every file is exactly `size` bytes long.
    Fixed { size: u64 },
    /// The length is the integer of `width` bits at `offset`, times `mul`, plus `add`.
    SizeField { offset: usize, width: u8, big_endian: bool, mul: u64, add: u64 },
    /// A RIFF chunk is the whole file.
    RiffSize,
    /// An IFF form is the whole file.
    FormSize,
    Sqlite,
    SevenZip,
    Mp4Atoms,
    Elf,
    Pe,
    Tiff,
    Ebml,
    Ogg,
    Asf,
    Wasm,
    IcoCur,
    Sfnt,
    Midi,
    Flv,
    Pcap,
    Pcapng,
    Ttc,
    Rar,
    Zstd,
    Lz4,
    Psd,
    Wmf,
    Djvu,
    Evtx,
    Rtf,
    Mp3,
    MachO,
    Regf,
    Aac,
    Dex,
    Icc,
    Ar,
    Shp,
    Blend,
    Nes,
    Gameboy,
    Wad,
    Au,
    Genesis,
    Voc,
    Amr,
    PsxExe,
    AndroidSparse,
    Mp3Raw,
    Jpeg,
    Zip,
    Gif,
    Wim,
    Swf,
    Cfbf,
    Pst,
    Tar,
    Cpio,
    Squashfs,
    Iso9660,
    Flic,
    WavPack,
    Ape,
    AppleSingle,
    SunRaster,
    Dsf,
    Dsdiff,
    Pcf,
    UImage,
    QuakePak,
    Md2,
    Ivf,
    Zim,
    Gguf,
    BootImg,
    Ktx2,
    Qoa,
    VendorBoot,
    Npy,
    Journal,
    UnityFs,
    Raf,
    Vpk,
    Las,
    GodotPck,
    E57,
    Rf64,
    Nifti,
    Usdc,
    Avro,
    Hdf5,
    Dds,
    Astc,
    Glb,
    Erofs,
    Ktx1,
    Exr,
    Mcap,
    Bsp,
    Qoi,
    Rpm,
    Farbfeld,
    Y4m,
    Pvr,
    Blp,
    Grib2,
    F2fs,
    Btrfs,
    Xfs,
    Exfat,
    Apfs,
    Refs,
    Ntfs,
    Swap,
    Romfs,
    Cramfs,
    Jfs,
    Ufs,
    Befs,
    HfsPlus,
    Reiserfs,
    Mpegts,
    Mpegps,
    Pdb,
    Eps,
}

/// What files of one type look like.
#[derive(Clone, Copy)]
pub struct Signature<'a> {
    /// What the type is called.
    pub name: &'a str,
    /// The extension of files of the type.
    pub ext: &'a str,
    /// The bytes by which a file is recognised.
    pub magic: &'a [u8],
    /// Where in a file they stand.
    pub magic_offset: u64,
    /// Further bytes that have to be there, and where, counted from the magic.
    pub secondary: Option<(usize, &'a [u8])>,
    /// How long a file is.
    pub extent: Extent<'a>,
    /// No file is taken to be longer.
    pub max_size: u64,
    /// The type is the image of a volume, and what is looked for are the files in it.
    pub volume: bool,
}

impl<'a> Extent<'a> {
    /// The widths of size fields are those of integers.
    pub open spec fn wf(&self) -> bool {
        self matches Extent::SizeField { width, .. } ==> width <= 64
    }
}

impl<'a> Signature<'a> {
    /// Whether the type is the image of a volume.
    pub fn is_volume(&self) -> (r: bool)
        ensures
            r == self.volume,
    {
        self.volume
    }
}

/// The logo that every Game Boy cartridge repeats in its header, which the console
/// compares before it starts the program.
pub open spec fn gameboy_logo_bytes() -> Seq<u8> {
    seq![
        0xCEu8, 0xED, 0x66, 0x66, 0xCC, 0x0D, 0x00, 0x0B, 0x03, 0x73, 0x00, 0x83, 0x00, 0x0C, 0x00, 0x0D,
        0x00, 0x08, 0x11, 0x1F, 0x88, 0x89, 0x00, 0x0E, 0xDC, 0xCC, 0x6E, 0xE6, 0xDD, 0xDD, 0xD9, 0x99,
        0xBB, 0xBB, 0x67, 0x63, 0x6E, 0x0E, 0xEC, 0xCC, 0xDD, 0xDC, 0x99, 0x9F, 0xBB, 0xB9, 0x33, 0x3E,
    ]
}

/// The logo that every Game Boy cartridge repeats in its header.
pub fn gameboy_logo() -> (r: [u8; 48])
    ensures
        r@ == gameboy_logo_bytes(),
{
    let logo: [u8; 48] = [
        0xCEu8, 0xED, 0x66, 0x66, 0xCC, 0x0D, 0x00, 0x0B, 0x03, 0x73, 0x00, 0x83, 0x00, 0x0C, 0x00, 0x0D,
        0x00, 0x08, 0x11, 0x1F, 0x88, 0x89, 0x00, 0x0E, 0xDC, 0xCC, 0x6E, 0xE6, 0xDD, 0xDD, 0xD9, 0x99,
        0xBB, 0xBB, 0x67, 0x63, 0x6E, 0x0E, 0xEC, 0xCC, 0xDD, 0xDC, 0x99, 0x9F, 0xBB, 0xB9, 0x33, 0x3E,
    ];
    assert(logo@ =~= gameboy_logo_bytes());
    logo
}

} // verus!
