//! Where the blocks of a file are.

use crate::bytes::{
    capped, ceil, ceil_div, le16, le32, min_u64, mul_capped, rd_le16, rd_le32, smaller,
};
use crate::ext4::inode::{block_map, uses_extents, BLOCK_MAP_AT, BLOCK_MAP_LEN, EXTENT_MAGIC, FLAG_EXTENTS};
use crate::ext4::{join_halves, two_halves, Volume};
use crate::source::{ReadError, Source};
use vstd::prelude::*;

verus! {

/// How deep a tree of extents is followed.
pub const MAX_EXTENT_DEPTH: usize = 6;

/// A run of blocks of a file: `len` blocks of the volume from `start` on are those of the file from `logical`
/// on.
#[derive(Clone, Copy)]
pub struct Extent {
    pub logical: u32,
    pub start: u64,
    pub len: u32,
}

/// Where an extent for `key` belongs, from the `k`-th on, among extents in order.
pub open spec fn slot(list: Seq<Extent>, key: u32, k: int) -> int
    decreases list.len() - k,
{
    if k >= list.len() || list[k].logical >= key {
        k
    } else {
        slot(list, key, k + 1)
    }
}

/// Extents in order with one more, which replaces one that begins at the same block of the file.
pub open spec fn with_extent(list: Seq<Extent>, e: Extent) -> Seq<Extent> {
    let k = slot(list, e.logical, 0);
    if k < list.len() && list[k].logical == e.logical {
        list.update(k, e)
    } else {
        list.insert(k, e)
    }
}

/// The `i`-th extent of a leaf.
pub open spec fn extent_in(node: Seq<u8>, i: int) -> Extent {
    let at = 12 + 12 * i;
    let raw = le16(node, at + 4);
    Extent {
        logical: le32(node, at),
        start: two_halves(le32(node, at + 8), le16(node, at + 6) as u32) as u64,
        len: (if raw > 32768 {
            raw - 32768
        } else {
            raw as int
        }) as u32,
    }
}

/// The block of the `i`-th child of a node.
pub open spec fn child_in(node: Seq<u8>, i: int) -> int {
    let at = 12 + 12 * i;
    two_halves(le32(node, at + 4), le16(node, at + 8) as u32)
}

/// The block of the volume that the last of the first `n` extents to cover block `l` of the file gives for
/// it; zero where none does.
pub open spec fn block_at(list: Seq<Extent>, n: int, l: int) -> int
    decreases n,
{
    if n <= 0 {
        0
    } else {
        let e = list[n - 1];
        if e.logical <= l < e.logical + e.len {
            e.start + (l - e.logical)
        } else {
            block_at(list, n - 1, l)
        }
    }
}

impl Volume {
    /// The extents in the tree of which `node` is the root, added to others. `None` where a block of it could
    /// not be read.
    pub open spec fn collected(
        &self,
        src: Source,
        node: Seq<u8>,
        depth: nat,
        list: Seq<Extent>,
    ) -> Option<Seq<Extent>>
        decreases 8 - depth, 1int, 0int,
    {
        if node.len() < 12 || depth > MAX_EXTENT_DEPTH || le16(node, 0) != EXTENT_MAGIC {
            Some(list)
        } else {
            self.collected_from(src, node, depth, 0, list)
        }
    }

    /// The extents from the `i`-th entry of a node on, added to others.
    pub open spec fn collected_from(
        &self,
        src: Source,
        node: Seq<u8>,
        depth: nat,
        i: int,
        list: Seq<Extent>,
    ) -> Option<Seq<Extent>>
        decreases 8 - depth, 0int, node.len() - i,
    {
        if i < 0 || i >= le16(node, 2) || 24 + 12 * i > node.len() || depth > MAX_EXTENT_DEPTH {
            Some(list)
        } else if le16(node, 6) == 0 {
            self.collected_from(src, node, depth, i + 1, with_extent(list, extent_in(node, i)))
        } else {
            match self.block(src, child_in(node, i)) {
                None => None,
                Some(b) => match self.collected(src, b, depth + 1, list) {
                    None => None,
                    Some(l) => self.collected_from(src, node, depth, i + 1, l),
                },
            }
        }
    }

    /// The pointers that an indirect block gives, behind others, until there are `want`. Level 1 holds the
    /// pointers themselves, a higher level those to blocks of the level below.
    pub open spec fn indirect(
        &self,
        src: Source,
        block: int,
        level: nat,
        want: int,
        out: Seq<u64>,
    ) -> Option<Seq<u64>>
        decreases level, 1int, 0int,
    {
        if block == 0 || out.len() >= want {
            Some(out)
        } else {
            match self.block(src, block) {
                None => None,
                Some(d) => self.pointers(src, d, 0, level, want, out),
            }
        }
    }

    /// The pointers from the `i`-th of an indirect block on, behind others.
    pub open spec fn pointers(
        &self,
        src: Source,
        d: Seq<u8>,
        i: int,
        level: nat,
        want: int,
        out: Seq<u64>,
    ) -> Option<Seq<u64>>
        decreases level, 0int, d.len() - i,
    {
        if i < 0 || level == 0 || 4 * i + 4 > d.len() || out.len() >= want {
            Some(out)
        } else if level == 1 {
            self.pointers(src, d, i + 1, level, want, out.push(le32(d, 4 * i) as u64))
        } else {
            match self.indirect(src, le32(d, 4 * i) as int, (level - 1) as nat, want, out) {
                None => None,
                Some(o) => self.pointers(src, d, i + 1, level, want, o),
            }
        }
    }

    /// The first `want` of the direct pointers.
    pub open spec fn direct(map: Seq<u8>, want: int) -> Seq<u64> {
        Seq::new(smaller(12, want) as nat, |i: int| le32(map, 4 * i) as u64)
    }

    /// The blocks that the classic direct and indirect pointers give.
    pub open spec fn pointed(&self, src: Source, map: Seq<u8>, want: int) -> Option<Seq<u64>> {
        match self.indirect(src, le32(map, 48) as int, 1, want, Self::direct(map, want)) {
            None => None,
            Some(a) => match self.indirect(src, le32(map, 52) as int, 2, want, a) {
                None => None,
                Some(b) => self.indirect(src, le32(map, 56) as int, 3, want, b),
            },
        }
    }

    /// The first `want` blocks of a file (0 = hole), or fewer where its pointers do not reach so far. `None`
    /// where a block of its map could not be read.
    pub open spec fn mapped(&self, src: Source, inode: Seq<u8>, want: int) -> Option<Seq<u64>> {
        let map = block_map(inode);
        if uses_extents(inode) {
            match self.collected(src, map, 0, Seq::empty()) {
                None => None,
                Some(list) => Some(
                    Seq::new(want as nat, |l: int| block_at(list, list.len() as int, l) as u64),
                ),
            }
        } else {
            self.pointed(src, map, want)
        }
    }
}

/// Add an extent to others in order.
fn add_extent(list: &mut Vec<Extent>, e: Extent)
    ensures
        final(list)@ == with_extent(old(list)@, e),
{
    let mut k: usize = 0;
    while k < list.len() && list[k].logical < e.logical
        invariant
            k <= list.len(),
            list@ == old(list)@,
            slot(list@, e.logical, 0) == slot(list@, e.logical, k as int),
        decreases list.len() - k,
    {
        k += 1;
    }
    if k < list.len() && list[k].logical == e.logical {
        list.set(k, e);
    } else {
        list.insert(k, e);
    }
}

/// The `i`-th extent of a leaf.
fn read_extent(node: &[u8], i: usize) -> (r: Extent)
    requires
        24 + 12 * i <= node.len(),
    ensures
        r == extent_in(node@, i as int),
{
    let at: usize = 12 + 12 * i;
    let raw: u16 = rd_le16(node, at + 4);
    let len: u16 = if raw > 32768 {
        raw - 32768
    } else {
        raw
    };
    Extent {
        logical: rd_le32(node, at),
        start: join_halves(rd_le32(node, at + 8), rd_le16(node, at + 6) as u32),
        len: len as u32,
    }
}

/// An extent of a leaf is of less than 2^48 blocks.
proof fn lemma_extent_in(node: Seq<u8>, i: int)
    ensures
        extent_in(node, i).start < 0x1_0000_0000_0000,
        extent_in(node, i).len <= 0xFFFF,
        extent_in(node, i).start == two_halves(
            le32(node, 12 + 12 * i + 8),
            le16(node, 12 + 12 * i + 6) as u32,
        ),
{
}

/// Extents are such as a leaf may give.
spec fn are_extents(list: Seq<Extent>) -> bool {
    forall|k: int|
        0 <= k < list.len() ==> (#[trigger] list[k]).start < 0x1_0000_0000_0000 && list[k].len
            <= 0xFFFF
}

/// Where an extent belongs lies among the others.
proof fn lemma_slot(list: Seq<Extent>, key: u32, k: int)
    requires
        0 <= k <= list.len(),
    ensures
        k <= slot(list, key, k) <= list.len(),
    decreases list.len() - k,
{
    if k < list.len() && list[k].logical < key {
        lemma_slot(list, key, k + 1);
    }
}

/// One extent more.
proof fn lemma_with_extent(list: Seq<Extent>, e: Extent)
    requires
        are_extents(list),
        e.start < 0x1_0000_0000_0000,
        e.len <= 0xFFFF,
    ensures
        are_extents(with_extent(list, e)),
{
    lemma_slot(list, e.logical, 0);
    let k = slot(list, e.logical, 0);
    let next = with_extent(list, e);
    assert forall|j: int| 0 <= j < next.len() implies (#[trigger] next[j]).start < 0x1_0000_0000_0000
        && next[j].len <= 0xFFFF by {
        if j < k {
            assert(next[j] == list[j]);
        } else if j > k {
            if next.len() == list.len() {
                assert(next[j] == list[j]);
            } else {
                assert(next[j] == list[j - 1]);
            }
        }
    }
}

impl Volume {
    /// Recursively gather extents into `list`.
    fn collect_extents(
        &self,
        src: &Source,
        node: &[u8],
        list: &mut Vec<Extent>,
        depth_guard: usize,
    ) -> (r: Result<(), ReadError>)
        requires
            self.wf(),
            src.wf(),
            depth_guard <= 7,
            are_extents(old(list)@),
        ensures
            match r {
                Ok(_) => self.collected(*src, node@, depth_guard as nat, old(list)@) == Some(
                    final(list)@,
                ) && are_extents(final(list)@),
                Err(e) => self.collected(*src, node@, depth_guard as nat, old(list)@) is None
                    && src.explains(e),
            },
        decreases 8 - depth_guard,
    {
        if node.len() < 12 || depth_guard > MAX_EXTENT_DEPTH || rd_le16(node, 0) != EXTENT_MAGIC {
            return Ok(());
        }
        let ghost all = self.collected(*src, node@, depth_guard as nat, list@);
        let entries: usize = rd_le16(node, 2) as usize;
        let leaf = rd_le16(node, 6) == 0;
        let mut i: usize = 0;
        while i < entries && 24 + 12 * i <= node.len()
            invariant
                self.wf(),
                src.wf(),
                i <= entries == le16(node@, 2),
                leaf == (le16(node@, 6) == 0),
                depth_guard <= MAX_EXTENT_DEPTH,
                are_extents(list@),
                all == self.collected(*src, node@, depth_guard as nat, old(list)@),
                all == self.collected_from(
                    *src,
                    node@,
                    depth_guard as nat,
                    i as int,
                    list@,
                ),
            decreases entries - i,
        {
            if leaf {
                let e = read_extent(node, i);
                proof {
                    lemma_extent_in(node@, i as int);
                    lemma_with_extent(list@, e);
                }
                add_extent(list, e);
            } else {
                let at: usize = 12 + 12 * i;
                let child: u64 = join_halves(
                    rd_le32(node, at + 4),
                    rd_le16(node, at + 8) as u32,
                );
                let block = self.read_block(src, child)?;
                self.collect_extents(src, &block, list, depth_guard + 1)?;
            }
            i += 1;
        }
        Ok(())
    }

    /// Add the pointers of an indirect block to `out`.
    fn read_indirect(
        &self,
        src: &Source,
        block: u64,
        level: u8,
        want: u64,
        out: &mut Vec<u64>,
    ) -> (r: Result<(), ReadError>)
        requires
            self.wf(),
            src.wf(),
            1 <= level,
        ensures
            match r {
                Ok(_) => self.indirect(*src, block as int, level as nat, want as int, old(out)@)
                    == Some(final(out)@),
                Err(e) => self.indirect(*src, block as int, level as nat, want as int, old(out)@) is None
                    && src.explains(e),
            },
        decreases level,
    {
        if block == 0 || out.len() as u64 >= want {
            return Ok(());
        }
        let ghost all = self.indirect(*src, block as int, level as nat, want as int, out@);
        let data = self.read_block(src, block)?;
        let count: usize = data.len() / 4;
        let mut i: usize = 0;
        while i < count && (out.len() as u64) < want
            invariant
                self.wf(),
                src.wf(),
                1 <= level,
                i <= count == data@.len() / 4,
                all == self.indirect(*src, block as int, level as nat, want as int, old(out)@),
                all == self.pointers(*src, data@, i as int, level as nat, want as int, out@),
            decreases count - i,
        {
            let ptr: u32 = rd_le32(&data, 4 * i);
            if level == 1 {
                out.push(ptr as u64);
            } else {
                self.read_indirect(src, ptr as u64, level - 1, want, out)?;
            }
            i += 1;
        }
        Ok(())
    }

    /// Map blocks via the classic ext2/3 direct + indirect pointers.
    fn map_indirect(&self, src: &Source, map: &[u8], want: u64) -> (r: Result<Vec<u64>, ReadError>)
        requires
            self.wf(),
            src.wf(),
            map.len() == BLOCK_MAP_LEN,
        ensures
            match r {
                Ok(v) => self.pointed(*src, map@, want as int) == Some(v@),
                Err(e) => self.pointed(*src, map@, want as int) is None && src.explains(e),
            },
    {
        let mut out: Vec<u64> = Vec::new();
        let mut i: usize = 0;
        while i < 12 && (i as u64) < want
            invariant
                i <= 12,
                i <= want,
                map.len() == BLOCK_MAP_LEN,
                out@ == Self::direct(map@, i as int),
            decreases 12 - i,
        {
            out.push(rd_le32(map, 4 * i) as u64);
            i += 1;
            assert(out@ =~= Self::direct(map@, i as int));
        }
        assert(out@ =~= Self::direct(map@, want as int));
        let single: u32 = rd_le32(map, 48);
        let double: u32 = rd_le32(map, 52);
        let triple: u32 = rd_le32(map, 56);
        self.read_indirect(src, single as u64, 1, want, &mut out)?;
        self.read_indirect(src, double as u64, 2, want, &mut out)?;
        self.read_indirect(src, triple as u64, 3, want, &mut out)?;
        Ok(out)
    }

    /// Map logical blocks 0..want to physical block numbers (0 = hole).
    pub fn map_blocks(&self, src: &Source, inode: &[u8], want: u64) -> (r: Result<
        Vec<u64>,
        ReadError,
    >)
        requires
            self.wf(),
            src.wf(),
            inode.len() >= 128,
        ensures
            match r {
                Ok(v) => self.mapped(*src, inode@, want as int) == Some(v@),
                Err(e) => self.mapped(*src, inode@, want as int) is None && src.explains(e),
            },
    {
        let map = &inode[BLOCK_MAP_AT..BLOCK_MAP_AT + BLOCK_MAP_LEN];
        assert(map@ =~= block_map(inode@));
        if rd_le32(inode, 0x20) & FLAG_EXTENTS == 0 {
            return self.map_indirect(src, map, want);
        }
        let mut list: Vec<Extent> = Vec::new();
        self.collect_extents(src, map, &mut list, 0)?;
        let mut out: Vec<u64> = Vec::new();
        let mut j: u64 = 0;
        while j < want
            invariant
                j <= want,
                out@.len() == j,
                forall|l: int| 0 <= l < j ==> out@[l] == 0,
            decreases want - j,
        {
            out.push(0);
            j += 1;
        }
        let mut i: usize = 0;
        while i < list.len()
            invariant
                i <= list.len(),
                out@.len() == want,
                are_extents(list@),
                forall|l: int| 0 <= l < want ==> #[trigger] out@[l] == block_at(list@, i as int, l),
            decreases list.len() - i,
        {
            let e = list[i];
            let mut k: u32 = 0;
            while k < e.len
                invariant
                    k <= e.len <= 0xFFFF,
                    e == list@[i as int],
                    i < list@.len(),
                    e.start < 0x1_0000_0000_0000,
                    out@.len() == want,
                    forall|l: int|
                        0 <= l < want ==> #[trigger] out@[l] == (if e.logical <= l < e.logical + k {
                            e.start + (l - e.logical)
                        } else {
                            block_at(list@, i as int, l)
                        }),
                decreases e.len - k,
            {
                let l: u64 = e.logical as u64 + k as u64;
                if l < out.len() as u64 {
                    out.set(l as usize, e.start + k as u64);
                }
                k += 1;
            }
            i += 1;
        }
        assert(out@ =~= self.mapped(*src, inode@, want as int)->Some_0);
        Ok(out)
    }
}

impl Volume {
    /// Where the inode with a number is; none where no group has it.
    pub open spec fn inode_pos(&self, ino: u32) -> Option<int> {
        let g = (ino - 1) / self.inodes_per_group as int;
        let index = (ino - 1) % self.inodes_per_group as int;
        if ino == 0 || g >= self.inode_tables@.len() {
            None
        } else {
            Some(self.inode_tables@[g] * self.block_size + index * self.inode_size)
        }
    }

    /// The inode with a number: `None` where it could not be read, and no inode where no group has it, or the
    /// image ends before it.
    pub open spec fn inode(&self, src: Source, ino: u32) -> Option<Option<Seq<u8>>> {
        match self.inode_pos(ino) {
            None => Some(None),
            Some(pos) => match src.fetch(self.offset + pos, self.inode_size as int) {
                None => None,
                Some(d) => if d.len() < self.inode_size {
                    Some(None)
                } else {
                    Some(Some(d))
                },
            },
        }
    }

    /// Where the inode with a number is; as far as that can be addressed.
    pub(crate) fn find_inode(&self, ino: u32) -> (r: Option<u64>)
        requires
            self.wf(),
        ensures
            match r {
                Some(pos) => self.inode_pos(ino) matches Some(p) && pos == capped(p),
                None => self.inode_pos(ino) is None,
            },
    {
        if ino == 0 {
            return None;
        }
        let group: u32 = (ino - 1) / self.inodes_per_group;
        let index: u32 = (ino - 1) % self.inodes_per_group;
        if group as u64 >= self.inode_tables.len() as u64 {
            return None;
        }
        let table: u64 = self.inode_tables[group as usize];
        assert(table * self.block_size >= 0) by (nonlinear_arith);
        assert(index * self.inode_size >= 0) by (nonlinear_arith);
        Some(
            mul_capped(table, self.block_size).saturating_add(
                mul_capped(index as u64, self.inode_size),
            ),
        )
    }

    /// Read a raw inode by 1-based number.
    pub fn read_inode(&self, src: &Source, ino: u32) -> (r: Result<Option<Vec<u8>>, ReadError>)
        requires
            self.wf(),
            src.wf(),
        ensures
            match r {
                Ok(Some(v)) => self.inode(*src, ino) == Some(Some(v@)) && v@.len() == self.inode_size,
                Ok(None) => self.inode(*src, ino) == Some(None::<Seq<u8>>),
                Err(e) => self.inode(*src, ino) is None && src.explains(e),
            },
    {
        let pos: u64 = match self.find_inode(ino) {
            Some(pos) => pos,
            None => {
                return Ok(None);
            },
        };
        let off: u64 = self.offset.saturating_add(pos);
        proof {
            let p = self.inode_pos(ino)->Some_0;
            if self.offset + p != off {
                src.lemma_past_end(self.offset + p, self.inode_size as int);
                src.lemma_past_end(off as int, self.inode_size as int);
            }
        }
        let buf = src.read_at(off, self.inode_size as usize)?;
        if (buf.len() as u64) < self.inode_size {
            return Ok(None);
        }
        Ok(Some(buf))
    }

    /// What is read of a file of `size` bytes from the `i`-th of its blocks on, behind what was read before.
    /// A hole is read as zeros, and the end of the image ends the file. `None` where a block could not be
    /// read.
    pub open spec fn content_from(
        &self,
        src: Source,
        blocks: Seq<u64>,
        i: int,
        size: int,
        out: Seq<u8>,
    ) -> Option<Seq<u8>>
        decreases blocks.len() - i,
    {
        if i >= blocks.len() || out.len() >= size {
            Some(out)
        } else {
            let take = smaller(size - out.len(), self.block_size as int);
            if blocks[i] == 0 {
                self.content_from(src, blocks, i + 1, size, out + Seq::new(take as nat, |k: int| 0u8))
            } else {
                match src.fetch(self.offset + blocks[i] * self.block_size, take) {
                    None => None,
                    Some(d) => if d.len() < take {
                        Some(out + d)
                    } else {
                        self.content_from(src, blocks, i + 1, size, out + d)
                    },
                }
            }
        }
    }

    /// What is read of a file of `size` bytes, which cannot have more bytes than the image; nothing where it
    /// claims more than the volume has.
    pub open spec fn content(&self, src: Source, inode: Seq<u8>, size: int) -> Option<Seq<u8>> {
        let n = smaller(size, src@.len() as int);
        if size > capped(self.total_blocks * self.block_size) || n == 0 {
            Some(Seq::empty())
        } else {
            match self.mapped(src, inode, ceil(n, self.block_size as int)) {
                None => None,
                Some(blocks) => self.content_from(src, blocks, 0, n, Seq::empty()),
            }
        }
    }

    /// Read up to `size` bytes of a file's content from its inode block map.
    pub fn read_file_data(&self, src: &Source, inode: &[u8], size: u64) -> (r: Result<
        Vec<u8>,
        ReadError,
    >)
        requires
            self.wf(),
            src.wf(),
            inode.len() >= 128,
        ensures
            match r {
                Ok(v) => self.content(*src, inode@, size as int) == Some(v@) && v@.len() <= src@.len()
                    && v@.len() <= size,
                Err(e) => self.content(*src, inode@, size as int) is None && src.explains(e),
            },
    {
        let n: u64 = min_u64(size, src.size());
        if size > self.size() || n == 0 {
            return Ok(Vec::new());
        }
        let count: u64 = ceil_div(n, self.block_size);
        let blocks = self.map_blocks(src, inode, count)?;
        let mut out: Vec<u8> = Vec::new();
        let mut i: usize = 0;
        let ghost all = self.content(*src, inode@, size as int);
        while i < blocks.len() && (out.len() as u64) < n
            invariant
                self.wf(),
                src.wf(),
                i <= blocks.len(),
                out@.len() <= n == smaller(size as int, src@.len() as int),
                all == self.content_from(*src, blocks@, i as int, n as int, out@),
                all == self.content(*src, inode@, size as int),
            decreases blocks.len() - i,
        {
            let take: u64 = min_u64(n - out.len() as u64, self.block_size);
            let b: u64 = blocks[i];
            let ghost before = out@;
            if b == 0 {
                let mut k: u64 = 0;
                while k < take
                    invariant
                        k <= take,
                        out@ == before + Seq::new(k as nat, |j: int| 0u8),
                    decreases take - k,
                {
                    out.push(0);
                    k += 1;
                    assert(out@ =~= before + Seq::new(k as nat, |j: int| 0u8));
                }
            } else {
                let at: u64 = self.offset.saturating_add(mul_capped(b, self.block_size));
                proof {
                    let off = self.offset + b * self.block_size;
                    assert(b * self.block_size >= 0) by (nonlinear_arith);
                    if off != at {
                        src.lemma_past_end(off, take as int);
                        src.lemma_past_end(at as int, take as int);
                    }
                }
                let mut d = src.read_at(at, take as usize)?;
                let got: u64 = d.len() as u64;
                out.append(&mut d);
                if got < take {
                    return Ok(out);
                }
            }
            i += 1;
        }
        Ok(out)
    }
}

} // verus!
