//! The records in the nodes of the catalog and of the extents-overflow tree.

use crate::bytes::{be16, be32, be64, capped, rd_be16, rd_be32, rd_be64};
use crate::hfsplus::{are_extents, extents_from, read_extents, Volume};
use crate::recover::{
    join_path, joined, sanitize_component, sanitized, VolumeError,
};
use crate::strings::{utf16_lossy, utf16_text, TextBuf};
use std::collections::HashMap;
use vstd::prelude::*;
use vstd::string::*;
use vstd::utf8::*;

verus! {

broadcast use vstd::std_specs::hash::group_hash_axioms;

/// B-tree leaf node kind (`kBTLeafNode`), -1 as a signed byte.
pub const KIND_LEAF: u8 = 0xFF;

/// `kHFSPlusFolderRecord`.
pub const RECORD_FOLDER: u16 = 0x0001;

/// `kHFSPlusFileRecord`.
pub const RECORD_FILE: u16 = 0x0002;

/// Root folder CNID; the smallest valid parent for a user object's parent is 2.
pub const ROOT_FOLDER_ID: u32 = 2;

/// Largest catalog key (`kHFSPlusCatalogKeyMaximumLength`).
pub const MAX_CATALOG_KEY: u16 = 516;

/// How many folders deep a path is followed.
pub const MAX_FOLDERS: u32 = 256;

/// A big-endian integer of 16 bits; zero where the bytes end before it.
pub open spec fn be16_or_zero(s: Seq<u8>, i: int) -> u16 {
    if i + 2 <= s.len() {
        be16(s, i)
    } else {
        0
    }
}

/// A big-endian integer of 32 bits; zero where the bytes end before it.
pub open spec fn be32_or_zero(s: Seq<u8>, i: int) -> u32 {
    if i + 4 <= s.len() {
        be32(s, i)
    } else {
        0
    }
}

fn be16_at(b: &[u8], o: usize) -> (r: u16)
    ensures
        r == be16_or_zero(b@, o as int),
{
    if o <= b.len() && b.len() - o >= 2 {
        rd_be16(b, o)
    } else {
        0
    }
}

fn be32_at(b: &[u8], o: usize) -> (r: u32)
    ensures
        r == be32_or_zero(b@, o as int),
{
    if o <= b.len() && b.len() - o >= 4 {
        rd_be32(b, o)
    } else {
        0
    }
}

/// A file record extracted from the catalog (the fields recovery needs).
pub struct FileRecord {
    pub name: String,
    pub file_id: u32,
    /// CNID of the folder containing this file (the catalog key's parentID), used to rebuild the original
    /// folder path.
    pub parent_id: u32,
    pub logical_size: u64,
    pub mod_date: u32,
    pub access_date: u32,
    pub extents: Vec<(u32, u32)>,
}

/// What a file record says.
#[verifier::ext_equal]
pub struct FileView {
    pub name: Seq<char>,
    pub file_id: u32,
    pub parent_id: u32,
    pub logical_size: u64,
    pub mod_date: u32,
    pub access_date: u32,
    pub extents: Seq<(u32, u32)>,
}

impl View for FileRecord {
    type V = FileView;

    open spec fn view(&self) -> FileView {
        FileView {
            name: self.name@,
            file_id: self.file_id,
            parent_id: self.parent_id,
            logical_size: self.logical_size,
            mod_date: self.mod_date,
            access_date: self.access_date,
            extents: self.extents@,
        }
    }
}

/// What file records say.
pub open spec fn file_views(v: Seq<FileRecord>) -> Seq<FileView> {
    v.map_values(|f: FileRecord| f@)
}

/// The number of units in the name of the catalog key at `off`, where there is such a key: its length is
/// exactly parentID(4) + nodeName(2 + 2 * units), and a name has 1 to 255 units.
pub open spec fn key_at(node: Seq<u8>, off: int) -> Option<int> {
    let key_len = be16_or_zero(node, off);
    let n = be16_or_zero(node, off + 6) as int;
    if 6 <= key_len <= MAX_CATALOG_KEY && 1 <= n <= 255 && key_len == 6 + 2 * n {
        Some(n)
    } else {
        None
    }
}

/// The units of the name in the catalog key at `off`.
pub open spec fn name_units(node: Seq<u8>, off: int, n: int) -> Seq<u16> {
    Seq::new(n as nat, |i: int| be16(node, off + 8 + 2 * i))
}

/// The file record at `off`, where there is one: its file lies in the volume, which is `size` bytes in `total`
/// blocks. The strict checks let the same rules drive the free-space scan: random bytes almost never satisfy
/// all of them.
pub open spec fn file_at(node: Seq<u8>, off: int, total: int, size: int) -> Option<FileView> {
    match key_at(node, off) {
        None => None,
        Some(n) => {
            let rec = off + 8 + 2 * n;
            let logical_size = be64(node, rec + 88);
            if be32_or_zero(node, off + 2) < ROOT_FOLDER_ID || rec + 168 > node.len() || be16(
                node,
                rec,
            ) != RECORD_FILE || be32(node, rec + 8) == 0 || logical_size == 0 || logical_size > size {
                None
            } else {
                match extents_from(node, rec + 104, 0, total) {
                    None => None,
                    Some(extents) => if extents.len() == 0 {
                        None
                    } else {
                        Some(
                            FileView {
                                name: utf16_text(name_units(node, off, n), 0),
                                file_id: be32(node, rec + 8),
                                parent_id: be32(node, off + 2),
                                logical_size,
                                mod_date: be32(node, rec + 16),
                                access_date: be32(node, rec + 24),
                                extents,
                            },
                        )
                    },
                }
            }
        },
    }
}

/// A folder: its CNID, its name, and the CNID of the folder that it is in.
pub struct Folder {
    pub cnid: u32,
    pub name: String,
    pub parent: u32,
}

/// The folder record at `off`, where there is one.
pub open spec fn folder_at(node: Seq<u8>, off: int) -> Option<(u32, Seq<char>, u32)> {
    match key_at(node, off) {
        None => None,
        Some(n) => {
            let rec = off + 8 + 2 * n;
            if be32_or_zero(node, off + 2) == 0 || rec + 16 > node.len() || be16(node, rec)
                != RECORD_FOLDER || be32(node, rec + 8) == 0 {
                None
            } else {
                Some(
                    (
                        be32(node, rec + 8),
                        utf16_text(name_units(node, off, n), 0),
                        be32(node, off + 2),
                    ),
                )
            }
        },
    }
}

/// A record of the extents-overflow tree.
pub struct ExtentRecord {
    /// 0 for the data fork.
    pub fork: u8,
    pub file_id: u32,
    pub start_block: u32,
    pub extents: Vec<(u32, u32)>,
}

/// The record of the extents-overflow tree at `off`, where there is one: the key is 10 bytes long, and every
/// extent lies in the volume.
pub open spec fn extent_record_at(node: Seq<u8>, off: int, total: int) -> Option<
    (u8, u32, u32, Seq<(u32, u32)>),
> {
    if be16_or_zero(node, off) != 10 || be32_or_zero(node, off + 4) == 0 || off + 76 > node.len() {
        None
    } else {
        match extents_from(node, off + 12, 0, total) {
            None => None,
            Some(extents) => Some(
                (node[off + 2], be32(node, off + 4), be32(node, off + 8), extents),
            ),
        }
    }
}

/// The number of units in the name of the catalog key at `off`.
fn read_key(node: &[u8], off: usize) -> (r: Option<usize>)
    requires
        off <= usize::MAX - 0x1000,
    ensures
        match r {
            Some(n) => key_at(node@, off as int) == Some(n as int) && 1 <= n <= 255,
            None => key_at(node@, off as int) is None,
        },
{
    let key_len: u16 = be16_at(node, off);
    let n: u16 = be16_at(node, off + 6);
    if 6 <= key_len && key_len <= MAX_CATALOG_KEY && 1 <= n && n <= 255 && key_len == 6 + 2 * n {
        Some(n as usize)
    } else {
        None
    }
}

/// Decode a catalog key's UTF-16BE node name (`name_len` units at `off + 8`).
fn decode_name(node: &[u8], off: usize, name_len: usize) -> (r: String)
    requires
        name_len <= 255,
        off + 8 + 2 * name_len <= node.len(),
    ensures
        r@ == utf16_text(name_units(node@, off as int, name_len as int), 0),
{
    let mut units: Vec<u16> = Vec::new();
    let mut i: usize = 0;
    while i < name_len
        invariant
            i <= name_len,
            off + 8 + 2 * name_len <= node.len(),
            units@ == name_units(node@, off as int, i as int),
        decreases name_len - i,
    {
        units.push(rd_be16(node, off + 8 + 2 * i));
        i += 1;
        assert(units@ =~= name_units(node@, off as int, i as int));
    }
    utf16_lossy(&units)
}

/// Parse and strictly validate a catalog **file** record beginning at `off` within `node`.
pub fn parse_file_record(node: &[u8], off: usize, vol: &Volume) -> (r: Option<FileRecord>)
    requires
        off <= usize::MAX - 0x1000,
        vol.total_blocks <= u32::MAX,
    ensures
        match r {
            Some(f) => file_at(
                node@,
                off as int,
                vol.total_blocks as int,
                capped(vol.total_blocks * vol.block_size),
            ) == Some(f@) && are_extents(f.extents@, vol.total_blocks as int),
            None => file_at(
                node@,
                off as int,
                vol.total_blocks as int,
                capped(vol.total_blocks * vol.block_size),
            ) is None,
        },
{
    let n: usize = match read_key(node, off) {
        Some(n) => n,
        None => {
            return None;
        },
    };
    let parent_id: u32 = be32_at(node, off + 2);
    if parent_id < ROOT_FOLDER_ID {
        return None;
    }
    let rec: usize = off + 8 + 2 * n;
    if rec + 168 > node.len() {
        return None;
    }
    if rd_be16(node, rec) != RECORD_FILE {
        return None;
    }
    let file_id: u32 = rd_be32(node, rec + 8);
    if file_id == 0 {
        return None;
    }
    let logical_size: u64 = rd_be64(node, rec + 88);
    if logical_size == 0 || logical_size > vol.size() {
        return None;
    }
    let extents = match read_extents(node, rec + 104, vol.total_blocks) {
        Some(v) => v,
        None => {
            return None;
        },
    };
    if extents.len() == 0 {
        return None;
    }
    let name = decode_name(node, off, n);
    Some(
        FileRecord {
            name,
            file_id,
            parent_id,
            logical_size,
            mod_date: rd_be32(node, rec + 16),
            access_date: rd_be32(node, rec + 24),
            extents,
        },
    )
}

/// Parse a catalog **folder** record at `off`. Used to rebuild the live folder hierarchy so deleted files can be
/// restored under their original paths.
pub fn parse_folder_record(node: &[u8], off: usize) -> (r: Option<Folder>)
    requires
        off <= usize::MAX - 0x1000,
    ensures
        match r {
            Some(f) => folder_at(node@, off as int) == Some((f.cnid, f.name@, f.parent)),
            None => folder_at(node@, off as int) is None,
        },
{
    let n: usize = match read_key(node, off) {
        Some(n) => n,
        None => {
            return None;
        },
    };
    let parent: u32 = be32_at(node, off + 2);
    if parent == 0 {
        return None;
    }
    let rec: usize = off + 8 + 2 * n;
    if rec + 16 > node.len() || rd_be16(node, rec) != RECORD_FOLDER {
        return None;
    }
    let cnid: u32 = rd_be32(node, rec + 8);
    if cnid == 0 {
        return None;
    }
    Some(Folder { cnid, name: decode_name(node, off, n), parent })
}

/// Parse an extents-overflow leaf record at `off`: an `HFSPlusExtentKey` (fixed 10-byte key: forkType, pad,
/// fileID, startBlock) followed by an `HFSPlusExtentRecord` (eight start/count pairs), rejecting any record with
/// an out-of-range extent.
pub fn parse_extent_record(node: &[u8], off: usize, vol: &Volume) -> (r: Option<ExtentRecord>)
    requires
        off <= usize::MAX - 0x1000,
        vol.total_blocks <= u32::MAX,
    ensures
        match r {
            Some(x) => extent_record_at(node@, off as int, vol.total_blocks as int) == Some(
                (x.fork, x.file_id, x.start_block, x.extents@),
            ) && are_extents(x.extents@, vol.total_blocks as int),
            None => extent_record_at(node@, off as int, vol.total_blocks as int) is None,
        },
{
    if be16_at(node, off) != 10 {
        return None;
    }
    let file_id: u32 = be32_at(node, off + 4);
    if file_id == 0 || off + 76 > node.len() {
        return None;
    }
    match read_extents(node, off + 12, vol.total_blocks) {
        Some(extents) => Some(
            ExtentRecord {
                fork: node[off + 2],
                file_id,
                start_block: rd_be32(node, off + 8),
                extents,
            },
        ),
        None => None,
    }
}

/// A node is a leaf.
pub open spec fn is_leaf(node: Seq<u8>) -> bool {
    node.len() > 8 && node[8] == KIND_LEAF
}

pub fn node_is_leaf(node: &[u8]) -> (r: bool)
    ensures
        r == is_leaf(node@),
{
    node.len() > 8 && node[8] == KIND_LEAF
}

/// A node size that a tree may have: a power of two from 512 bytes to 32 KiB.
pub open spec fn is_node_size(n: int) -> bool {
    n == 512 || n == 1024 || n == 2048 || n == 4096 || n == 8192 || n == 16384 || n == 32768
}

/// The node size of a tree, where it can be.
pub open spec fn node_size_in(tree: Seq<u8>) -> Option<int> {
    let n = be16_or_zero(tree, 32) as int;
    if is_node_size(n) && n <= tree.len() {
        Some(n)
    } else {
        None
    }
}

/// Read the node size from the B-tree header record in node 0 (BTHeaderRec.nodeSize is a `u16` at offset 14 +
/// 18 = 32).
pub fn node_size(catalog: &[u8]) -> (r: Result<usize, VolumeError>)
    ensures
        match r {
            Ok(n) => node_size_in(catalog@) == Some(n as int) && 512 <= n <= 32768,
            Err(e) => node_size_in(catalog@) is None && e == VolumeError::NodeSize,
        },
{
    let n: usize = be16_at(catalog, 32) as usize;
    if (n == 512 || n == 1024 || n == 2048 || n == 4096 || n == 8192 || n == 16384 || n == 32768) && n
        <= catalog.len() {
        Ok(n)
    } else {
        Err(VolumeError::NodeSize)
    }
}

/// The `i`-th entry of the array at the end of a node.
pub open spec fn entry_of(node: Seq<u8>, size: int, i: int) -> int {
    be16_or_zero(node, size - 2 * (i + 1)) as int
}

/// Where the live records of a node are, from the `i`-th on; an offset that cannot be one is left out, and so
/// is what lies before the beginning of the node.
pub open spec fn offsets_from(node: Seq<u8>, size: int, i: int) -> Seq<int>
    decreases be16_or_zero(node, 10) - i,
{
    if i >= be16_or_zero(node, 10) || 2 * (i + 1) > size {
        Seq::empty()
    } else {
        let off = entry_of(node, size, i);
        (if 14 <= off < size {
            seq![off]
        } else {
            Seq::empty()
        }) + offsets_from(node, size, i + 1)
    }
}

/// Positions as integers.
pub open spec fn positions(v: Seq<usize>) -> Seq<int> {
    v.map_values(|x: usize| x as int)
}

/// Offsets of the live records in a leaf node (`numRecords` entries from the offset array at the end of the
/// node).
pub fn live_record_offsets(node: &[u8], node_size: usize) -> (r: Vec<usize>)
    requires
        512 <= node_size <= 32768,
    ensures
        positions(r@) == offsets_from(node@, node_size as int, 0),
        forall|i: int| 0 <= i < r@.len() ==> 14 <= #[trigger] r@[i] < node_size,
{
    let num: usize = be16_at(node, 10) as usize;
    let mut v: Vec<usize> = Vec::new();
    let ghost all = offsets_from(node@, node_size as int, 0);
    let mut i: usize = 0;
    assert(positions(v@) + all =~= all);
    while i < num && 2 * (i + 1) <= node_size
        invariant
            512 <= node_size <= 32768,
            num == be16_or_zero(node@, 10),
            i <= num,
            all =~= positions(v@) + offsets_from(node@, node_size as int, i as int),
            forall|i: int| 0 <= i < v@.len() ==> 14 <= #[trigger] v@[i] < node_size,
        decreases num - i,
    {
        let off: usize = be16_at(node, node_size - 2 * (i + 1)) as usize;
        let ghost before = v@;
        if 14 <= off && off < node_size {
            v.push(off);
            assert(positions(v@) =~= positions(before) + seq![off as int]);
        }
        i += 1;
    }
    assert(all =~= positions(v@));
    v
}

/// A node is plausibly a complete catalog leaf node: leaf kind, height 1, a reserved word of zero, and a
/// record-offset array whose entries start at 14 (right after the descriptor), rise strictly, and stay clear of
/// the array itself. Every record is at least a key length, a minimal key and a record type.
pub open spec fn is_plausible_leaf(node: Seq<u8>, size: int) -> bool {
    let num = be16_or_zero(node, 10) as int;
    &&& node.len() >= size
    &&& is_leaf(node)
    &&& node[9] == 1
    &&& 1 <= num <= size / 24
    &&& be16_or_zero(node, 12) == 0
    &&& entry_of(node, size, 0) == 14
    &&& forall|i: int| 0 <= i < num ==> #[trigger] entry_of(node, size, i) < entry_of(node, size, i + 1)
    &&& forall|i: int| 0 <= i <= num ==> #[trigger] entry_of(node, size, i) <= size - 2 * (num + 1)
}

/// Whether `node` is plausibly a complete catalog leaf node. Used to pick stale nodes out of the journal
/// without replaying it.
pub fn looks_like_leaf_node(node: &[u8], node_size: usize) -> (r: bool)
    requires
        512 <= node_size <= 32768,
    ensures
        r == is_plausible_leaf(node@, node_size as int),
{
    if node.len() < node_size || !node_is_leaf(node) || node[9] != 1 {
        return false;
    }
    let num: usize = be16_at(node, 10) as usize;
    if num == 0 || num > node_size / 24 || be16_at(node, 12) != 0 {
        return false;
    }
    let array_start: usize = node_size - 2 * (num + 1);
    let mut prev: usize = be16_at(node, node_size - 2) as usize;
    assert(prev == entry_of(node@, node_size as int, 0));
    if prev != 14 || prev > array_start {
        return false;
    }
    let mut i: usize = 0;
    while i < num
        invariant
            512 <= node_size <= 32768,
            node.len() >= node_size,
            num == be16_or_zero(node@, 10),
            1 <= num <= node_size / 24,
            i <= num,
            array_start == node_size - 2 * (num + 1),
            prev == entry_of(node@, node_size as int, i as int),
            entry_of(node@, node_size as int, 0) == 14,
            forall|k: int|
                0 <= k < i ==> #[trigger] entry_of(node@, node_size as int, k) < entry_of(
                    node@,
                    node_size as int,
                    k + 1,
                ),
            forall|k: int|
                0 <= k <= i ==> #[trigger] entry_of(node@, node_size as int, k) <= array_start,
        decreases num - i,
    {
        let off: usize = be16_at(node, node_size - 2 * (i + 2)) as usize;
        assert(off == entry_of(node@, node_size as int, i + 1));
        if off <= prev || off > array_start {
            assert(entry_of(node@, node_size as int, i as int) == prev);
            return false;
        }
        prev = off;
        i += 1;
    }
    true
}

/// Where the free space of a leaf node begins and ends: from the end of the last live record up to the start of
/// the record-offset array. Where there is no room for that array, all behind the descriptor is free.
pub open spec fn free_range(node: Seq<u8>, size: int) -> (int, int) {
    let num = be16_or_zero(node, 10) as int;
    if 2 * (num + 1) > size {
        (14, size)
    } else {
        let start = entry_of(node, size, num);
        (
            if start < 14 {
                14
            } else if start > size {
                size
            } else {
                start
            },
            size - 2 * (num + 1),
        )
    }
}

/// The free-space byte range of a leaf node.
pub fn free_space(node: &[u8], node_size: usize) -> (r: (usize, usize))
    requires
        512 <= node_size <= 32768,
    ensures
        (r.0 as int, r.1 as int) == free_range(node@, node_size as int),
        r.0 <= node_size,
        r.1 <= node_size,
{
    let num: usize = be16_at(node, 10) as usize;
    if 2 * (num + 1) > node_size {
        return (14, node_size);
    }
    let at: usize = node_size - 2 * (num + 1);
    let start: usize = be16_at(node, at) as usize;
    if start < 14 {
        (14, at)
    } else if start > node_size {
        (node_size, at)
    } else {
        (start, at)
    }
}

/// The name of something on an HFS+ volume as one component of a path. HFS+ stores a `/` in a name as `:` (the
/// classic Mac OS separator), so a colon here is a slash and is neutralised the same way.
pub open spec fn hfs_sanitized(name: Seq<char>) -> Seq<char> {
    sanitized(
        name.map_values(
            |c: char|
                if c == ':' {
                    '_'
                } else {
                    c
                },
        ),
    )
}

/// Make the name of something on an HFS+ volume safe to use as one component of a path.
pub fn hfs_component(name: &str) -> (r: String)
    ensures
        r@ == hfs_sanitized(name@),
{
    let ghost t = name@.map_values(
        |c: char|
            if c == ':' {
                '_'
            } else {
                c
            },
    );
    let mut out = TextBuf::new();
    let n: usize = name.unicode_len();
    let mut i: usize = 0;
    assert(t.take(0) =~= Seq::empty());
    while i < n
        invariant
            i <= n == name@.len() == t.len(),
            forall|k: int|
                0 <= k < n ==> #[trigger] t[k] == (if name@[k] == ':' {
                    '_'
                } else {
                    name@[k]
                }),
            out.wf(),
            out@ == t.take(i as int),
        decreases n - i,
    {
        let c = name.get_char(i);
        proof {
            char_is_scalar(c);
        }
        let u: u32 = c as u32;
        assert(t[i as int] == (if c == ':' {
            '_'
        } else {
            c
        }));
        if u == 0x3A {
            out.push(0x5F);
        } else {
            out.push(u);
        }
        i += 1;
        assert(out@ =~= t.take(i as int));
    }
    assert(t.take(i as int) =~= t);
    let s = out.into_string();
    sanitize_component(s.as_str())
}

/// Folders by their CNIDs: the name of each, and the CNID of the folder that it is in.
pub struct Folders {
    map: HashMap<u32, (String, u32)>,
}

impl View for Folders {
    type V = Map<u32, (Seq<char>, u32)>;

    closed spec fn view(&self) -> Map<u32, (Seq<char>, u32)> {
        self.map@.map_values(|f: (String, u32)| (f.0@, f.1))
    }
}

/// The path of the folder `cur`, `guard` folders having been passed.
pub open spec fn path_of(folders: Map<u32, (Seq<char>, u32)>, cur: u32, guard: int) -> Seq<char>
    decreases MAX_FOLDERS - guard,
{
    if cur == ROOT_FOLDER_ID || guard >= MAX_FOLDERS || !folders.contains_key(cur) {
        Seq::empty()
    } else {
        joined(path_of(folders, folders[cur].1, guard + 1), hfs_sanitized(folders[cur].0))
    }
}

impl Folders {
    /// No folders.
    pub fn new() -> (r: Self)
        ensures
            r@ == Map::<u32, (Seq<char>, u32)>::empty(),
    {
        let r = Folders { map: HashMap::new() };
        assert(r@ =~= Map::<u32, (Seq<char>, u32)>::empty());
        r
    }

    /// Whether a folder is known.
    pub fn has(&self, cnid: u32) -> (r: bool)
        ensures
            r == self@.contains_key(cnid),
    {
        self.map.contains_key(&cnid)
    }

    /// Add a folder, or replace the one with its CNID.
    pub fn add(&mut self, cnid: u32, name: String, parent: u32)
        ensures
            final(self)@ == old(self)@.insert(cnid, (name@, parent)),
    {
        self.map.insert(cnid, (name, parent));
        assert(self@ =~= old(self)@.insert(cnid, (name@, parent)));
    }

    fn resolve(&self, cur: u32, guard: u32) -> (r: String)
        requires
            guard <= MAX_FOLDERS,
        ensures
            r@ == path_of(self@, cur, guard as int),
        decreases MAX_FOLDERS - guard,
    {
        if cur == ROOT_FOLDER_ID || guard >= MAX_FOLDERS {
            return String::new();
        }
        match self.map.get(&cur) {
            Some(f) => {
                let dir = self.resolve(f.1, guard + 1);
                let name = hfs_component(f.0.as_str());
                join_path(dir.as_str(), name.as_str())
            },
            None => String::new(),
        }
    }

    /// Rebuild the folder path of a deleted file from its parent CNID, walking the live-folder map up to the
    /// root folder. Stops at an unknown parent (a deleted ancestor folder) so the file lands under whatever of
    /// its path survives, and is cycle-bounded against a corrupt hierarchy.
    pub fn resolve_path(&self, parent_id: u32) -> (r: String)
        ensures
            r@ == path_of(self@, parent_id, 0),
    {
        self.resolve(parent_id, 0)
    }
}

} // verus!
