# unearth

A verified library that recovers files from disk images.

- `src/carver` finds files in raw bytes by the signatures that file formats leave, and works out from each
  format where a file ends. `engine` is the model of a scan, `scan` carries it out, `checkpoint` writes down how
  far it has come. `laws` and `restore` state what holds of every scan, and `outcomes` what holds of two: one that
  is done again, in earnest after a dry run, or from a checkpoint.
- `src/custom.rs` describes further file types at run time.
- `src/befs.rs`, `src/cramfs.rs`, `src/exfat.rs`, `src/ext4.rs` and `src/hfsplus.rs` recognise volumes; the last
  three also find their free space and recover deleted files.
- `src/source.rs` is the image that all of it reads, with the ranges that could not be read.

Contracts are stated over the bytes of the image: what a length is, which files a scan finds, what a deleted file
held, and which bytes have to be readable for it. `app` loads images and writes what was recovered.
