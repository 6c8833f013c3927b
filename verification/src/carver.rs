//! Carving: recognising files in raw bytes by their signatures, and working out
//! from the format itself where each of them ends.

pub mod archives;
pub mod audio;
pub mod checkpoint;
pub mod data;
pub mod documents;
pub mod engine;
pub mod executables;
pub mod extents;
pub mod firmware;
pub mod fonts;
pub mod games;
pub mod generic;
pub mod images;
pub mod laws;
pub mod outcomes;
pub mod restore;
pub mod scan;
pub mod textures;
pub mod tiff;
pub mod video;
pub mod volumes;
pub mod whole;

pub use crate::carver::checkpoint::read_checkpoint;
pub use crate::carver::engine::{
    CarveOptions, CarveStats, CarvedFile, Checkpoint, NoProgress, ProgressSink, TypeCount,
};
pub use crate::carver::scan::{carve, carve_seeded, Scan};
