//! Entry sets: what a directory is made of.

use crate::bytes::{le16, le32, le64, rd_le16, rd_le32, rd_le64, smaller};
use crate::strings::{utf16_lossy, utf16_text};
use crate::times::{exfat_time, from_exfat};
use vstd::prelude::*;
use vstd::string::*;

verus! {

pub const ENTRY_SIZE: usize = 32;

/// Entry type codes with the InUse bit (0x80) masked off: 0x85 File Directory Entry, 0xC0 Stream Extension,
/// 0xC1 File Name.
pub const TYPE_FILE: u8 = 0x05;

pub const TYPE_STREAM: u8 = 0x40;

pub const TYPE_NAME: u8 = 0x41;

pub const INUSE_BIT: u8 = 0x80;

pub const ATTR_DIRECTORY: u16 = 0x10;

pub const FLAG_NO_FAT_CHAIN: u8 = 0x02;

/// A parsed file/dir entry set.
pub struct Item {
    pub name: String,
    pub deleted: bool,
    pub is_dir: bool,
    pub first_cluster: u32,
    pub data_length: u64,
    pub no_fat_chain: bool,
    /// Unix seconds.
    pub mtime: Option<u64>,
    /// Unix seconds.
    pub atime: Option<u64>,
}

/// What an entry set says.
#[verifier::ext_equal]
pub struct ItemView {
    pub name: Seq<char>,
    pub deleted: bool,
    pub is_dir: bool,
    pub first_cluster: u32,
    pub data_length: u64,
    pub no_fat_chain: bool,
    pub mtime: Option<u64>,
    pub atime: Option<u64>,
}

impl View for Item {
    type V = ItemView;

    open spec fn view(&self) -> ItemView {
        ItemView {
            name: self.name@,
            deleted: self.deleted,
            is_dir: self.is_dir,
            first_cluster: self.first_cluster,
            data_length: self.data_length,
            no_fat_chain: self.no_fat_chain,
            mtime: self.mtime,
            atime: self.atime,
        }
    }
}

/// What entry sets say.
pub open spec fn item_views(v: Seq<Item>) -> Seq<ItemView> {
    v.map_values(|x: Item| x@)
}

/// The type of the `i`-th entry, without the InUse bit.
pub open spec fn kind_of(b: Seq<u8>, i: int) -> int {
    b[ENTRY_SIZE * i] as int % 128
}

/// The units of the names in the entries from the `j`-th to the `last`, up to the first that is no name: 15 in
/// each.
pub open spec fn units_from(b: Seq<u8>, j: int, last: int) -> Seq<u16>
    decreases last - j + 1,
{
    if j > last || kind_of(b, j) != TYPE_NAME {
        Seq::empty()
    } else {
        Seq::new(15, |k: int| le16(b, ENTRY_SIZE * j + 2 + 2 * k)) + units_from(b, j + 1, last)
    }
}

/// The time of a packed time.
pub open spec fn stamp(t: u32) -> Option<u64> {
    match exfat_time(t) {
        Some(v) => Some(v as u64),
        None => None,
    }
}

/// The number of entries that follow the `i`-th in its set, where a set begins there: it is a file entry, its
/// set lies in the directory, and a stream extension comes next.
pub open spec fn set_at(b: Seq<u8>, i: int) -> Option<int> {
    let n = b[ENTRY_SIZE * i + 1] as int;
    if kind_of(b, i) == TYPE_FILE && n > 0 && i + n < b.len() as int / 32 && kind_of(b, i + 1)
        == TYPE_STREAM {
        Some(n)
    } else {
        None
    }
}

/// What the set says that begins with the `i`-th entry, of which `n` more follow.
pub open spec fn item_at(b: Seq<u8>, i: int, n: int) -> ItemView {
    let e = ENTRY_SIZE * i;
    let s = ENTRY_SIZE * (i + 1);
    let units = units_from(b, i + 2, i + n);
    ItemView {
        name: utf16_text(units.take(smaller(units.len() as int, b[s + 3] as int)), 0),
        deleted: b[e] < INUSE_BIT,
        is_dir: le16(b, e + 4) & ATTR_DIRECTORY != 0,
        first_cluster: le32(b, s + 20),
        data_length: le64(b, s + 24),
        no_fat_chain: b[s + 1] & FLAG_NO_FAT_CHAIN != 0,
        mtime: stamp(le32(b, e + 12)),
        atime: stamp(le32(b, e + 16)),
    }
}

/// The entry sets of a directory from the `i`-th entry on. A set without a name is left out.
pub open spec fn items_from(b: Seq<u8>, i: int) -> Seq<ItemView>
    decreases b.len() as int / 32 - i,
{
    if i < 0 || i >= b.len() as int / 32 {
        Seq::empty()
    } else {
        match set_at(b, i) {
            Some(n) => {
                let item = item_at(b, i, n);
                (if item.name.len() > 0 {
                    seq![item]
                } else {
                    Seq::empty()
                }) + items_from(b, i + 1 + n)
            },
            None => items_from(b, i + 1),
        }
    }
}

/// Whether the `i`-th entry is of a type.
fn is_kind(b: &[u8], i: usize, kind: u8) -> (r: bool)
    requires
        32 * i + 32 <= b.len(),
        kind < 128,
    ensures
        r == (kind_of(b@, i as int) == kind),
{
    b[32 * i] % 128 == kind
}

/// The name in the entries from the `j`-th to the `last`, of which `len` units are used.
fn read_name(b: &[u8], j: usize, last: usize, len: usize) -> (r: String)
    requires
        32 * last + 32 <= b.len(),
        j <= last + 1,
    ensures
        ({
            let units = units_from(b@, j as int, last as int);
            r@ == utf16_text(units.take(smaller(units.len() as int, len as int)), 0)
        }),
{
    let mut units: Vec<u16> = Vec::new();
    let ghost all = units_from(b@, j as int, last as int);
    let mut k: usize = j;
    assert(units@ + all =~= all);
    while k <= last && is_kind(b, k, TYPE_NAME)
        invariant
            32 * last + 32 <= b.len(),
            k <= last + 1,
            all =~= units@ + units_from(b@, k as int, last as int),
        decreases last + 1 - k,
    {
        let ghost before = units@;
        let ghost entry = Seq::new(15, |q: int| le16(b@, ENTRY_SIZE * k + 2 + 2 * q));
        let mut q: usize = 0;
        assert(units@ =~= before + entry.take(0));
        while q < 15
            invariant
                q <= 15,
                32 * last + 32 <= b.len(),
                k <= last,
                entry == Seq::new(15, |q: int| le16(b@, ENTRY_SIZE * k + 2 + 2 * q)),
                units@ == before + entry.take(q as int),
            decreases 15 - q,
        {
            units.push(rd_le16(b, 32 * k + 2 + 2 * q));
            q += 1;
            assert(units@ =~= before + entry.take(q as int));
        }
        assert(entry.take(15) =~= entry);
        k += 1;
    }
    assert(all =~= units@);
    if units.len() > len {
        let ghost whole = units@;
        units.truncate(len);
        assert(units@ =~= whole.take(len as int));
    } else {
        assert(units@.take(units@.len() as int) =~= units@);
    }
    utf16_lossy(&units)
}

/// Parse a directory's bytes into file/directory entry sets.
pub fn parse_entry_sets(bytes: &[u8]) -> (r: Vec<Item>)
    requires
        bytes.len() <= isize::MAX,
    ensures
        item_views(r@) == items_from(bytes@, 0),
{
    let mut items: Vec<Item> = Vec::new();
    let total: usize = bytes.len() / 32;
    let ghost all = items_from(bytes@, 0);
    let mut i: usize = 0;
    assert(item_views(items@) + all =~= all);
    while i < total
        invariant
            bytes.len() <= isize::MAX,
            total == bytes@.len() as int / 32,
            i <= total,
            all =~= item_views(items@) + items_from(bytes@, i as int),
        decreases total - i,
    {
        let at: usize = 32 * i;
        let n: usize = bytes[at + 1] as usize;
        let ghost before = items@;
        if !is_kind(bytes, i, TYPE_FILE) || n == 0 || n >= total - i || !is_kind(
            bytes,
            i + 1,
            TYPE_STREAM,
        ) {
            assert(set_at(bytes@, i as int) is None);
            i = i + 1;
        } else {
            assert(set_at(bytes@, i as int) == Some(n as int));
            let s: usize = at + 32;
            let name = read_name(bytes, i + 2, i + n, bytes[s + 3] as usize);
            let item = Item {
                name,
                deleted: bytes[at] < INUSE_BIT,
                is_dir: rd_le16(bytes, at + 4) & ATTR_DIRECTORY != 0,
                first_cluster: rd_le32(bytes, s + 20),
                data_length: rd_le64(bytes, s + 24),
                no_fat_chain: bytes[s + 1] & FLAG_NO_FAT_CHAIN != 0,
                mtime: from_exfat(rd_le32(bytes, at + 12)),
                atime: from_exfat(rd_le32(bytes, at + 16)),
            };
            assert(item@ == item_at(bytes@, i as int, n as int));
            if item.name.as_str().unicode_len() > 0 {
                items.push(item);
                assert(item_views(items@) =~= item_views(before).push(item@));
            }
            i = i + 1 + n;
        }
    }
    assert(all =~= item_views(items@));
    items
}

/// Two directories differ at most in the InUse bits of their entries.
pub open spec fn same_but_in_use(a: Seq<u8>, b: Seq<u8>) -> bool {
    &&& a.len() == b.len()
    &&& forall|p: int| 0 <= p < a.len() && p % 32 != 0 ==> #[trigger] a[p] == b[p]
    &&& forall|i: int| 0 <= i < a.len() as int / 32 ==> #[trigger] kind_of(a, i) == kind_of(b, i)
}

/// A byte of an entry that does not hold its type.
proof fn lemma_same_byte(a: Seq<u8>, b: Seq<u8>, i: int, k: int)
    requires
        same_but_in_use(a, b),
        0 <= i < a.len() as int / 32,
        1 <= k < 32,
    ensures
        a[32 * i + k] == b[32 * i + k],
{
    assert((32 * i + k) % 32 == k);
}

proof fn lemma_same_le16(a: Seq<u8>, b: Seq<u8>, i: int, k: int)
    requires
        same_but_in_use(a, b),
        0 <= i < a.len() as int / 32,
        1 <= k < 31,
    ensures
        le16(a, 32 * i + k) == le16(b, 32 * i + k),
{
    lemma_same_byte(a, b, i, k);
    lemma_same_byte(a, b, i, k + 1);
}

proof fn lemma_same_le32(a: Seq<u8>, b: Seq<u8>, i: int, k: int)
    requires
        same_but_in_use(a, b),
        0 <= i < a.len() as int / 32,
        1 <= k < 29,
    ensures
        le32(a, 32 * i + k) == le32(b, 32 * i + k),
{
    lemma_same_le16(a, b, i, k);
    lemma_same_le16(a, b, i, k + 2);
}

proof fn lemma_same_le64(a: Seq<u8>, b: Seq<u8>, i: int, k: int)
    requires
        same_but_in_use(a, b),
        0 <= i < a.len() as int / 32,
        1 <= k < 25,
    ensures
        le64(a, 32 * i + k) == le64(b, 32 * i + k),
{
    lemma_same_le32(a, b, i, k);
    lemma_same_le32(a, b, i, k + 4);
}

proof fn lemma_units_from(a: Seq<u8>, b: Seq<u8>, j: int, last: int)
    requires
        same_but_in_use(a, b),
        0 <= j,
        last < a.len() as int / 32,
    ensures
        units_from(a, j, last) == units_from(b, j, last),
    decreases last - j + 1,
{
    if j <= last {
        assert(kind_of(a, j) == kind_of(b, j));
        lemma_units_from(a, b, j + 1, last);
        let x = Seq::new(15, |k: int| le16(a, ENTRY_SIZE * j + 2 + 2 * k));
        let y = Seq::new(15, |k: int| le16(b, ENTRY_SIZE * j + 2 + 2 * k));
        assert forall|k: int| 0 <= k < 15 implies x[k] == y[k] by {
            lemma_same_le16(a, b, j, 2 + 2 * k);
        }
        assert(x =~= y);
    }
}

/// Deleting a file clears the InUse bits of its entry set, and leaves everything else: its name, whether it is a
/// directory, its first cluster, its length, how it is stored, and its times.
pub proof fn law_deletion_keeps_entries(a: Seq<u8>, b: Seq<u8>, i: int)
    requires
        same_but_in_use(a, b),
        0 <= i < a.len() as int / 32,
    ensures
        set_at(a, i) == set_at(b, i),
        set_at(a, i) matches Some(n) ==> item_at(b, i, n) == (ItemView {
            deleted: b[32 * i] < INUSE_BIT,
            ..item_at(a, i, n)
        }),
{
    assert(kind_of(a, i) == kind_of(b, i));
    lemma_same_byte(a, b, i, 1);
    let n = a[32 * i + 1] as int;
    if n > 0 && i + n < a.len() as int / 32 {
        assert(kind_of(a, i + 1) == kind_of(b, i + 1));
        lemma_units_from(a, b, i + 2, i + n);
        lemma_same_byte(a, b, i + 1, 1);
        lemma_same_byte(a, b, i + 1, 3);
        lemma_same_le16(a, b, i, 4);
        lemma_same_le32(a, b, i, 12);
        lemma_same_le32(a, b, i, 16);
        lemma_same_le32(a, b, i + 1, 20);
        lemma_same_le64(a, b, i + 1, 24);
    }
}

} // verus!
