//! Recovers files from disk images: by the signatures that file formats leave
//! on the medium, and by the structures that file systems leave behind.

pub mod basics;
pub mod befs;
pub mod bytes;
pub mod cramfs;
pub mod custom;
pub mod exfat;
pub mod ext4;
pub mod geometry;
pub mod hash;
pub mod hfsplus;
pub mod json;
pub mod recover;
pub mod signatures;
pub mod source;
pub mod strings;
pub mod text;
pub mod times;
pub mod utf8;
pub mod varint;
pub mod carver;
