//! The jbd2 journal, in which older copies of blocks survive. All on-disk journal fields are big-endian.

use crate::bytes::{
    be16, be32, ceil, ceil_div, larger, max_u64, min_u64, rd_be16, rd_be32, smaller,
};
use crate::ext4::inode::{inode_has_blockmap, is_mapped, reg_len, reg_size};
use crate::ext4::{join_halves, two_halves, Volume};
use crate::source::{ReadError, Source};
use std::collections::HashMap;
use vstd::prelude::*;

verus! {

broadcast use vstd::std_specs::hash::group_hash_axioms;

pub const JBD2_MAGIC: u32 = 0xC03B_3998;

pub const JBD2_DESCRIPTOR_BLOCK: u32 = 1;

pub const JBD2_FLAG_SAME_UUID: u32 = 0x02;

pub const JBD2_FLAG_LAST_TAG: u32 = 0x08;

pub const JBD2_INCOMPAT_64BIT: u32 = 0x02;

pub const JBD2_INCOMPAT_CSUM_V3: u32 = 0x10;

/// Cap on journal blocks scanned, to bound work on a corrupt journal.
pub const MAX_JOURNAL_BLOCKS: u64 = 2_097_152;

/// A descriptor block has no more tags than this and one.
pub const MAX_TAGS: usize = 100_000;

/// A big-endian integer of 32 bits; zero where the bytes end before it.
pub open spec fn be32_or_zero(s: Seq<u8>, i: int) -> u32 {
    if i + 4 <= s.len() {
        be32(s, i)
    } else {
        0
    }
}

/// Read a big-endian u32 at `off` (journal fields are big-endian); 0 if short.
pub fn be32_at(buf: &[u8], off: usize) -> (r: u32)
    ensures
        r == be32_or_zero(buf@, off as int),
{
    if off <= buf.len() && buf.len() - off >= 4 {
        rd_be32(buf, off)
    } else {
        0
    }
}

/// A tag of a descriptor block: the block that it names, its flags, and how long it is.
pub struct Tag {
    pub block: u64,
    pub flags: u32,
    pub len: u64,
}

/// The tag at `pos`, where the block has all of it. A tag of the third checksum version has the lower half of
/// the block number, the flags, the upper half and a checksum; another the lower half, a checksum of 16 bits,
/// flags of 16 bits and, where block numbers have 64 bits, the upper half.
pub open spec fn tag_at(b: Seq<u8>, pos: int, v3: bool, wide: bool) -> Option<Tag> {
    if v3 {
        if pos + 16 > b.len() {
            None
        } else {
            Some(
                Tag {
                    block: two_halves(be32(b, pos), be32(b, pos + 8)) as u64,
                    flags: be32(b, pos + 4),
                    len: 16,
                },
            )
        }
    } else if wide {
        if pos + 12 > b.len() {
            None
        } else {
            Some(
                Tag {
                    block: two_halves(be32(b, pos), be32(b, pos + 8)) as u64,
                    flags: be16(b, pos + 6) as u32,
                    len: 12,
                },
            )
        }
    } else if pos + 8 > b.len() {
        None
    } else {
        Some(Tag { block: be32(b, pos) as u64, flags: be16(b, pos + 6) as u32, len: 8 })
    }
}

/// Where the next tag is: a UUID may follow a tag.
pub open spec fn after_tag(pos: int, t: Tag) -> int {
    pos + t.len + if t.flags & JBD2_FLAG_SAME_UUID == 0 {
        16int
    } else {
        0
    }
}

/// The blocks that the tags from `pos` on name, `n` tags having come before.
pub open spec fn tags_from(b: Seq<u8>, pos: int, v3: bool, wide: bool, n: int) -> Seq<u64>
    decreases b.len() - pos,
{
    match tag_at(b, pos, v3, wide) {
        None => Seq::empty(),
        Some(t) => {
            let next = after_tag(pos, t);
            if t.flags & JBD2_FLAG_LAST_TAG != 0 || next >= b.len() || n + 1 > MAX_TAGS {
                seq![t.block]
            } else {
                seq![t.block] + tags_from(b, next, v3, wide, n + 1)
            }
        },
    }
}

/// Read the tag at `pos`.
fn read_tag(b: &[u8], pos: usize, v3: bool, wide: bool) -> (r: Option<Tag>)
    requires
        pos <= b.len(),
    ensures
        r == tag_at(b@, pos as int, v3, wide),
{
    let left: usize = b.len() - pos;
    if v3 {
        if left < 16 {
            return None;
        }
        Some(
            Tag {
                block: join_halves(rd_be32(b, pos), rd_be32(b, pos + 8)),
                flags: rd_be32(b, pos + 4),
                len: 16,
            },
        )
    } else if wide {
        if left < 12 {
            return None;
        }
        Some(
            Tag {
                block: join_halves(rd_be32(b, pos), rd_be32(b, pos + 8)),
                flags: rd_be16(b, pos + 6) as u32,
                len: 12,
            },
        )
    } else {
        if left < 8 {
            return None;
        }
        Some(Tag { block: rd_be32(b, pos) as u64, flags: rd_be16(b, pos + 6) as u32, len: 8 })
    }
}

/// Parse a journal descriptor block's tags into the filesystem block numbers of the data blocks that follow
/// it.
pub fn parse_journal_tags(block: &[u8], csum_v3: bool, is_64bit: bool) -> (r: Vec<u64>)
    ensures
        r@ == tags_from(block@, 12, csum_v3, is_64bit, 0),
        r@.len() <= MAX_TAGS + 1,
{
    let mut tags: Vec<u64> = Vec::new();
    if block.len() < 12 {
        return tags;
    }
    let mut pos: usize = 12;
    let ghost all = tags_from(block@, 12, csum_v3, is_64bit, 0);
    assert(tags@ + all =~= all);
    loop
        invariant
            pos <= block.len(),
            tags@.len() <= MAX_TAGS,
            all == tags_from(block@, 12, csum_v3, is_64bit, 0),
            all == tags@ + tags_from(block@, pos as int, csum_v3, is_64bit, tags@.len() as int),
        decreases block.len() - pos,
    {
        let t = match read_tag(block, pos, csum_v3, is_64bit) {
            Some(t) => t,
            None => {
                assert(all =~= tags@);
                return tags;
            },
        };
        let ghost before = tags@;
        tags.push(t.block);
        let ghost next = after_tag(pos as int, t);
        let end: usize = pos + t.len as usize;
        if t.flags & JBD2_FLAG_LAST_TAG != 0 || tags.len() > MAX_TAGS {
            assert(all =~= tags@);
            return tags;
        }
        let uuid: usize = if t.flags & JBD2_FLAG_SAME_UUID == 0 {
            16
        } else {
            0
        };
        if block.len() - end <= uuid {
            assert(all =~= tags@);
            return tags;
        }
        assert(before + (seq![t.block] + tags_from(
            block@,
            next,
            csum_v3,
            is_64bit,
            before.len() as int + 1,
        )) =~= tags@ + tags_from(block@, next, csum_v3, is_64bit, before.len() as int + 1));
        pos = end + uuid;
    }
}

/// The copies of a block.
pub open spec fn copies_of(index: Map<u64, Seq<u64>>, block: u64) -> Seq<u64> {
    if index.contains_key(block) {
        index[block]
    } else {
        Seq::empty()
    }
}

/// Journal index: filesystem block number -> physical blocks (inside the journal file) holding journaled
/// copies of it, oldest first.
pub struct JournalIndex {
    map: HashMap<u64, Vec<u64>>,
}

impl View for JournalIndex {
    type V = Map<u64, Seq<u64>>;

    closed spec fn view(&self) -> Map<u64, Seq<u64>> {
        self.map@.map_values(|v: Vec<u64>| v@)
    }
}

impl JournalIndex {
    /// No copies of any block.
    pub fn new() -> (r: Self)
        ensures
            r@ == Map::<u64, Seq<u64>>::empty(),
    {
        let r = JournalIndex { map: HashMap::new() };
        assert(r@ =~= Map::<u64, Seq<u64>>::empty());
        r
    }

    /// The copies of a block.
    pub fn copies(&self, block: u64) -> (r: Vec<u64>)
        ensures
            r@ == copies_of(self@, block),
    {
        match self.map.get(&block) {
            Some(v) => vstd::slice::slice_to_vec(v.as_slice()),
            None => Vec::new(),
        }
    }

    /// Add a copy of a block.
    pub fn add_copy(&mut self, block: u64, copy: u64)
        ensures
            final(self)@ == old(self)@.insert(block, copies_of(old(self)@, block).push(copy)),
    {
        let mut v = self.copies(block);
        v.push(copy);
        self.map.insert(block, v);
        assert(self@ =~= old(self)@.insert(block, copies_of(old(self)@, block).push(copy)));
    }
}

/// The index with the copies that follow a descriptor block: the `k`-th tag and those after it name the
/// blocks of which `at + k` and those after it in the journal are copies, as far as the journal goes.
pub open spec fn with_copies(
    index: Map<u64, Seq<u64>>,
    journal: Seq<u64>,
    at: int,
    tags: Seq<u64>,
    k: int,
) -> Map<u64, Seq<u64>>
    decreases tags.len() - k,
{
    if k >= tags.len() || at + k >= journal.len() {
        index
    } else {
        with_copies(
            index.insert(tags[k], copies_of(index, tags[k]).push(journal[at + k])),
            journal,
            at,
            tags,
            k + 1,
        )
    }
}

/// A journal block is a descriptor block.
pub open spec fn is_descriptor(d: Seq<u8>) -> bool {
    d.len() >= 12 && be32(d, 0) == JBD2_MAGIC && be32(d, 4) == JBD2_DESCRIPTOR_BLOCK
}

impl Volume {
    /// The index of the journal from its `i`-th block to its `end`, after `steps` blocks have been looked at.
    /// `None` where a block could not be read.
    pub open spec fn indexed_from(
        &self,
        src: Source,
        journal: Seq<u64>,
        i: int,
        end: int,
        v3: bool,
        wide: bool,
        steps: int,
        index: Map<u64, Seq<u64>>,
    ) -> Option<Map<u64, Seq<u64>>>
        decreases larger(journal.len() - i, 0),
    {
        if i < 0 || i >= end || i >= journal.len() || steps >= MAX_JOURNAL_BLOCKS {
            Some(index)
        } else {
            match self.block(src, journal[i] as int) {
                None => None,
                Some(d) => if is_descriptor(d) {
                    let tags = tags_from(d, 12, v3, wide, 0);
                    self.indexed_from(
                        src,
                        journal,
                        i + 1 + tags.len(),
                        end,
                        v3,
                        wide,
                        steps + 1,
                        with_copies(index, journal, i + 1, tags, 0),
                    )
                } else {
                    self.indexed_from(src, journal, i + 1, end, v3, wide, steps + 1, index)
                },
            }
        }
    }

    /// The index of a journal by its blocks, of which there are `n` by its size.
    pub open spec fn indexed(&self, src: Source, journal: Seq<u64>, n: int) -> Option<
        Map<u64, Seq<u64>>,
    > {
        if journal.len() == 0 {
            Some(Map::empty())
        } else {
            match self.block(src, journal[0] as int) {
                None => None,
                Some(sb) => if sb.len() < 0x2C || be32(sb, 0) != JBD2_MAGIC {
                    Some(Map::empty())
                } else {
                    self.indexed_from(
                        src,
                        journal,
                        larger(be32(sb, 0x14) as int, 1),
                        smaller(be32(sb, 0x10) as int, n),
                        be32(sb, 0x28) & JBD2_INCOMPAT_CSUM_V3 != 0,
                        be32(sb, 0x28) & JBD2_INCOMPAT_64BIT != 0,
                        0,
                        Map::empty(),
                    )
                },
            }
        }
    }

    /// The index of the volume's journal. `None` where a block of it, or of its block map, could not be read.
    pub open spec fn journal(&self, src: Source) -> Option<Map<u64, Seq<u64>>> {
        match self.inode(src, self.journal_inum) {
            None => None,
            Some(None) => Some(Map::empty()),
            Some(Some(inode)) => {
                let size = reg_len(inode);
                let n = ceil(size, self.block_size as int);
                if !is_mapped(inode) || size == 0 {
                    Some(Map::empty())
                } else {
                    match self.mapped(src, inode, n) {
                        None => None,
                        Some(journal) => self.indexed(src, journal, n),
                    }
                }
            },
        }
    }

    /// Index the copies in the journal's blocks.
    fn index_journal(&self, src: &Source, jblocks: &Vec<u64>, n: u64) -> (r: Result<
        JournalIndex,
        ReadError,
    >)
        requires
            self.wf(),
            src.wf(),
        ensures
            match r {
                Ok(index) => self.indexed(*src, jblocks@, n as int) == Some(index@),
                Err(e) => self.indexed(*src, jblocks@, n as int) is None && src.explains(e),
            },
    {
        let mut index = JournalIndex::new();
        if jblocks.len() == 0 {
            return Ok(index);
        }
        let sb = self.read_block(src, jblocks[0])?;
        if sb.len() < 0x2C || rd_be32(&sb, 0) != JBD2_MAGIC {
            return Ok(index);
        }
        let feature_incompat: u32 = rd_be32(&sb, 0x28);
        let v3 = feature_incompat & JBD2_INCOMPAT_CSUM_V3 != 0;
        let wide = feature_incompat & JBD2_INCOMPAT_64BIT != 0;
        let end: u64 = min_u64(rd_be32(&sb, 0x10) as u64, n);
        let mut i: u64 = max_u64(rd_be32(&sb, 0x14) as u64, 1);
        let mut steps: u64 = 0;
        let ghost all = self.indexed(*src, jblocks@, n as int);
        while i < end && i < jblocks.len() as u64 && steps < MAX_JOURNAL_BLOCKS
            invariant
                self.wf(),
                src.wf(),
                end <= u32::MAX,
                i <= 0x2_0000_0000,
                steps <= MAX_JOURNAL_BLOCKS,
                all == self.indexed(*src, jblocks@, n as int),
                all == self.indexed_from(
                    *src,
                    jblocks@,
                    i as int,
                    end as int,
                    v3,
                    wide,
                    steps as int,
                    index@,
                ),
            decreases MAX_JOURNAL_BLOCKS - steps,
        {
            let block = self.read_block(src, jblocks[i as usize])?;
            if block.len() < 12 || rd_be32(&block, 0) != JBD2_MAGIC || rd_be32(&block, 4)
                != JBD2_DESCRIPTOR_BLOCK {
                i = i + 1;
            } else {
                let tags = parse_journal_tags(&block, v3, wide);
                let ghost before = index@;
                let ghost whole = with_copies(before, jblocks@, i + 1, tags@, 0);
                let mut k: usize = 0;
                while k < tags.len() && i + 1 + (k as u64) < jblocks.len() as u64
                    invariant
                        k <= tags.len() <= MAX_TAGS + 1,
                        i < u32::MAX,
                        whole == with_copies(before, jblocks@, i + 1, tags@, 0),
                        whole == with_copies(index@, jblocks@, i + 1, tags@, k as int),
                    decreases tags.len() - k,
                {
                    index.add_copy(tags[k], jblocks[(i + 1 + k as u64) as usize]);
                    k += 1;
                }
                i = i + 1 + tags.len() as u64;
            }
            steps = steps + 1;
        }
        Ok(index)
    }

    /// Scan the jbd2 journal and index every journaled block copy by the filesystem block it is a copy of (a
    /// block may have several). Only the positions are kept; contents are read on demand, so the index stays
    /// small however large the journal is.
    pub fn build_journal_index(&self, src: &Source) -> (r: Result<JournalIndex, ReadError>)
        requires
            self.wf(),
            src.wf(),
        ensures
            match r {
                Ok(index) => self.journal(*src) == Some(index@),
                Err(e) => self.journal(*src) is None && src.explains(e),
            },
    {
        let inode = match self.read_inode(src, self.journal_inum)? {
            Some(i) => i,
            None => {
                return Ok(JournalIndex::new());
            },
        };
        if !inode_has_blockmap(&inode) {
            return Ok(JournalIndex::new());
        }
        let size: u64 = reg_size(&inode);
        if size == 0 {
            return Ok(JournalIndex::new());
        }
        let n: u64 = ceil_div(size, self.block_size);
        let jblocks = self.map_blocks(src, &inode, n)?;
        self.index_journal(src, &jblocks, n)
    }
}

} // verus!
