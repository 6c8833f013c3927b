//! Directory entries, live and stale.

use crate::bytes::{larger, le16, le32, rd_le16, rd_le32, rounded, smaller};
use crate::ext4::Volume;
use crate::strings::{lossy_text, utf8_lossy};
use vstd::prelude::*;

verus! {

/// A directory entry: what is in a directory under a name.
pub struct DirEntry {
    pub ino: u32,
    pub name: String,
}

/// What directory entries say.
pub open spec fn entry_views(v: Seq<DirEntry>) -> Seq<(u32, Seq<char>)> {
    v.map_values(|e: DirEntry| (e.ino, e.name@))
}

/// The length of the name in the entry at `pos`.
pub open spec fn name_len(d: Seq<u8>, pos: int, filetype: bool) -> int {
    if filetype {
        d[pos + 6] as int
    } else {
        le16(d, pos + 6) as int
    }
}

/// The entry at `pos`, where it is one: it has an inode and a name, and ends before `limit`.
pub open spec fn entry_at(d: Seq<u8>, pos: int, limit: int, filetype: bool) -> Seq<
    (u32, Seq<char>),
> {
    let n = name_len(d, pos, filetype);
    if le32(d, pos) != 0 && n > 0 && pos + 8 + n <= limit {
        seq![(le32(d, pos), lossy_text(d.subrange(pos + 8, pos + 8 + n)))]
    } else {
        Seq::empty()
    }
}

/// How far it is from the entry at `pos` to the next: the live entry, which is the first of its record, is no
/// longer than the record; behind it, entries are as long as their names make them.
pub open spec fn entry_step(d: Seq<u8>, pos: int, filetype: bool, first: bool) -> int {
    let whole = rounded(8 + name_len(d, pos, filetype), 8);
    if first {
        smaller(whole, larger(le16(d, pos + 4) as int, 8))
    } else {
        whole
    }
}

/// An entry is not shorter than its head.
pub proof fn lemma_step(d: Seq<u8>, pos: int, filetype: bool, first: bool)
    ensures
        8 <= entry_step(d, pos, filetype, first) <= 0x1_0008,
{
    let n = name_len(d, pos, filetype);
    assert(0 <= n <= 0xFFFF);
}

/// The entries from `pos` to `limit`: the live one, where it is the first, and stale ones.
pub open spec fn entries_in(
    d: Seq<u8>,
    pos: int,
    limit: int,
    filetype: bool,
    first: bool,
) -> Seq<(u32, Seq<char>)>
    decreases larger(limit - pos, 0),
{
    proof {
        lemma_step(d, pos, filetype, first);
    }
    if pos + 8 > limit {
        Seq::empty()
    } else {
        entry_at(d, pos, limit, filetype) + entries_in(
            d,
            pos + entry_step(d, pos, filetype, first),
            limit,
            filetype,
            false,
        )
    }
}

/// The entries in the records from `off` to the `end` of a block. A record that cannot be ends the block.
pub open spec fn records_in(d: Seq<u8>, off: int, end: int, filetype: bool) -> Seq<
    (u32, Seq<char>),
>
    decreases end - off,
{
    let len = le16(d, off + 4);
    if off + 8 > end || len < 8 || off + len > end {
        Seq::empty()
    } else {
        entries_in(d, off, off + len, filetype, true) + records_in(d, off + len, end, filetype)
    }
}

/// The entries in the blocks of a directory from `base` on.
pub open spec fn blocks_in(d: Seq<u8>, base: int, size: int, filetype: bool) -> Seq<
    (u32, Seq<char>),
>
    decreases d.len() - base,
{
    if base < 0 || base >= d.len() || size <= 0 {
        Seq::empty()
    } else {
        let end = smaller(base + size, d.len() as int);
        records_in(d, base, end, filetype) + blocks_in(d, end, size, filetype)
    }
}

/// Round a number up to a multiple of 8.
pub fn round8(n: usize) -> (r: usize)
    requires
        n <= usize::MAX - 7,
    ensures
        r == rounded(n as int, 8),
        n <= r < n + 8,
        r % 8 == 0,
{
    (n + 7) / 8 * 8
}

impl Volume {
    /// What a directory's bytes list.
    pub open spec fn listed(&self, d: Seq<u8>) -> Seq<(u32, Seq<char>)> {
        blocks_in(d, 0, self.block_size as int, self.filetype_dirents)
    }

    /// Read the entry at `off` and any stale entries packed into [off, limit).
    fn read_dirent(&self, data: &[u8], off: usize, limit: usize, out: &mut Vec<DirEntry>)
        requires
            off <= limit <= data.len(),
            data.len() <= isize::MAX,
        ensures
            entry_views(final(out)@) == entry_views(old(out)@) + entries_in(
                data@,
                off as int,
                limit as int,
                self.filetype_dirents,
                true,
            ),
    {
        let mut pos: usize = off;
        let mut first = true;
        let filetype = self.filetype_dirents;
        let ghost all = entry_views(out@) + entries_in(
            data@,
            off as int,
            limit as int,
            filetype,
            true,
        );
        while pos <= limit && limit - pos >= 8
            invariant
                off <= limit <= data.len(),
                data.len() <= isize::MAX,
                pos <= limit + 0x1_0008,
                all =~= entry_views(out@) + entries_in(
                    data@,
                    pos as int,
                    limit as int,
                    filetype,
                    first,
                ),
            decreases larger(limit - pos, 0),
        {
            let ino: u32 = rd_le32(data, pos);
            let n: usize = if filetype {
                data[pos + 6] as usize
            } else {
                rd_le16(data, pos + 6) as usize
            };
            let rec_len: usize = rd_le16(data, pos + 4) as usize;
            proof {
                lemma_step(data@, pos as int, filetype, first);
            }
            let ghost before = out@;
            let ghost here = entry_at(data@, pos as int, limit as int, filetype);
            if ino != 0 && n > 0 && limit - pos - 8 >= n {
                let raw = &data[pos + 8..pos + 8 + n];
                let name = utf8_lossy(raw);
                out.push(DirEntry { ino, name });
                assert(here == seq![(ino, name@)]);
                assert(entry_views(out@) =~= entry_views(before) + here);
            } else {
                assert(here =~= Seq::empty());
                assert(entry_views(out@) =~= entry_views(before) + here);
            }
            let whole: usize = round8(8 + n);
            let room: usize = if rec_len > 8 {
                rec_len
            } else {
                8
            };
            let step: usize = if first && room < whole {
                room
            } else {
                whole
            };
            assert(step == entry_step(data@, pos as int, filetype, first));
            assert(entry_views(before) + (here + entries_in(
                data@,
                pos + step,
                limit as int,
                filetype,
                false,
            )) =~= entry_views(out@) + entries_in(data@, pos + step, limit as int, filetype, false));
            first = false;
            pos = pos + step;
        }
        assert(all =~= entry_views(out@));
    }

    /// Parse directory entries from a directory's data, including stale entries hidden in each record's slack
    /// space, behind others.
    fn list_dir(&self, data: &[u8], out: &mut Vec<DirEntry>)
        requires
            self.wf(),
            data.len() <= isize::MAX,
        ensures
            entry_views(final(out)@) == entry_views(old(out)@) + self.listed(data@),
    {
        let size: usize = self.block_size as usize;
        let filetype = self.filetype_dirents;
        let mut base: usize = 0;
        let ghost all = entry_views(out@) + self.listed(data@);
        while base < data.len()
            invariant
                self.wf(),
                size == self.block_size,
                filetype == self.filetype_dirents,
                base <= data.len() <= isize::MAX,
                all =~= entry_views(out@) + blocks_in(data@, base as int, size as int, filetype),
            decreases data.len() - base,
        {
            let end: usize = if data.len() - base < size {
                data.len()
            } else {
                base + size
            };
            let ghost rest = blocks_in(data@, end as int, size as int, filetype);
            let mut off: usize = base;
            let mut more = true;
            assert(entry_views(out@) + (records_in(data@, off as int, end as int, filetype) + rest)
                =~= entry_views(out@) + records_in(data@, off as int, end as int, filetype) + rest);
            while more
                invariant
                    self.wf(),
                    filetype == self.filetype_dirents,
                    base <= off <= end <= data.len() <= isize::MAX,
                    more ==> all =~= entry_views(out@) + records_in(
                        data@,
                        off as int,
                        end as int,
                        filetype,
                    ) + rest,
                    !more ==> all =~= entry_views(out@) + rest,
                decreases end - off,
                    if more {
                        1int
                    } else {
                        0
                    },
            {
                let ghost before = out@;
                if end - off < 8 {
                    more = false;
                } else {
                    let rec_len: usize = rd_le16(data, off + 4) as usize;
                    if rec_len < 8 || end - off < rec_len {
                        more = false;
                    } else {
                        self.read_dirent(data, off, off + rec_len, out);
                        off = off + rec_len;
                    }
                }
            }
            base = end;
        }
        assert(all =~= entry_views(out@));
    }

    /// Parse directory entries from a directory's data, including stale entries hidden in each record's slack
    /// space.
    pub fn parse_dir_block(&self, data: &[u8]) -> (r: Vec<DirEntry>)
        requires
            self.wf(),
            data.len() <= isize::MAX,
        ensures
            entry_views(r@) == self.listed(data@),
    {
        let mut out: Vec<DirEntry> = Vec::new();
        self.list_dir(data, &mut out);
        assert(entry_views(Seq::<DirEntry>::empty()) + self.listed(data@) =~= self.listed(data@));
        out
    }
}

} // verus!
