//! What holds of the inode tables, of the pointers of files, of directories and of the journal.

use crate::bytes::{be16, be32, le16, le32, smaller};
use crate::ext4::directory::{blocks_in, entries_in, entry_at, entry_step, lemma_step, records_in};
use crate::ext4::journal::{copies_of, tag_at, tags_from, with_copies};
use crate::ext4::undelete::{firsts, FoundView, WalkState};
use crate::ext4::Volume;
use crate::source::Source;
use crate::strings::lossy_text;
use vstd::prelude::*;

verus! {

impl Volume {
    /// The inodes of a group stand in its table one after another, and the groups have as many inodes each as the volume
    /// says: inode numbers begin with 1.
    pub proof fn law_inodes_in_their_tables(&self, g: int, k: int, ino: u32)
        requires
            self.wf(),
            0 <= g < self.inode_tables@.len(),
            0 <= k < self.inodes_per_group,
            ino == 1 + g * self.inodes_per_group + k,
        ensures
            self.inode_pos(ino) == Some(self.inode_tables@[g] * self.block_size + k * self.inode_size),
    {
        let n = self.inodes_per_group as int;
        let x = ino - 1;
        assert(g * n >= 0) by (nonlinear_arith)
            requires
                g >= 0,
                n > 0,
        ;
        assert(x / n == g && x % n == k) by (nonlinear_arith)
            requires
                x == g * n + k,
                0 <= k < n,
        ;
    }

    /// How many blocks an indirect block of a level reaches.
    pub open spec fn reach(&self, level: nat) -> int
        decreases level,
    {
        if level == 0 {
            1
        } else {
            self.block_size as int / 4 * self.reach((level - 1) as nat)
        }
    }

    /// The `k`-th block that the indirect block `b` of a level reaches: each of its pointers reaches as many as the level
    /// below.
    pub open spec fn reached(&self, src: Source, b: int, level: nat, k: int) -> u64
        decreases level,
    {
        let d = self.block(src, b)->Some_0;
        if level <= 1 {
            le32(d, 4 * k) as u64
        } else {
            let r = self.reach((level - 1) as nat);
            self.reached(src, le32(d, 4 * (k / r)) as int, (level - 1) as nat, k % r)
        }
    }

    /// The first `n` blocks that an indirect block reaches are there: it and the blocks of pointers below it are in the
    /// image, could be read, and are not holes.
    pub open spec fn is_full(&self, src: Source, b: int, level: nat, n: int) -> bool
        decreases level,
    {
        &&& b != 0
        &&& self.block(src, b) matches Some(d) && d.len() == self.block_size && (level > 1
            ==> forall|i: int|
            0 <= i && i * self.reach((level - 1) as nat) < n ==> self.is_full(
                src,
                #[trigger] le32(d, 4 * i) as int,
                (level - 1) as nat,
                smaller(
                    self.reach((level - 1) as nat),
                    n - i * self.reach((level - 1) as nat),
                ),
            ))
    }

    proof fn lemma_reach(&self, level: nat)
        requires
            self.wf(),
        ensures
            self.reach(level) > 0,
        decreases level,
    {
        if level > 0 {
            self.lemma_reach((level - 1) as nat);
            let p = self.block_size as int / 4;
            let r = self.reach((level - 1) as nat);
            assert(p * r > 0) by (nonlinear_arith)
                requires
                    p > 0,
                    r > 0,
            ;
        }
    }

    proof fn lemma_indirect(&self, src: Source, b: int, level: nat, want: int, out: Seq<u64>)
        requires
            self.wf(),
            self.block_size % 4 == 0,
            level >= 1,
            out.len() < want,
            self.is_full(src, b, level, smaller(self.reach(level), want - out.len())),
        ensures
            self.indirect(src, b, level, want, out) == Some(
                out + Seq::new(
                    smaller(self.reach(level), want - out.len()) as nat,
                    |k: int| self.reached(src, b, level, k),
                ),
            ),
        decreases level, 1int, 0int,
    {
        self.lemma_reach(level);
        let none = Seq::new(0, |k: int| self.reached(src, b, level, k));
        assert(out + none =~= out);
        assert(0 * self.reach((level - 1) as nat) == 0) by (nonlinear_arith);
        self.lemma_pointers(src, b, level, want, out, 0);
    }

    proof fn lemma_pointers(&self, src: Source, b: int, level: nat, want: int, out: Seq<u64>, i: int)
        requires
            self.wf(),
            self.block_size % 4 == 0,
            level >= 1,
            out.len() < want,
            self.is_full(src, b, level, smaller(self.reach(level), want - out.len())),
            0 <= i <= self.block_size / 4,
            i * self.reach((level - 1) as nat) <= want - out.len() || i > 0,
        ensures
            ({
                let n = smaller(self.reach(level), want - out.len());
                let m = smaller(i * self.reach((level - 1) as nat), n);
                self.pointers(
                    src,
                    self.block(src, b)->Some_0,
                    i,
                    level,
                    want,
                    out + Seq::new(m as nat, |k: int| self.reached(src, b, level, k)),
                ) == Some(out + Seq::new(n as nat, |k: int| self.reached(src, b, level, k)))
            }),
        decreases level, 0int, self.block_size / 4 - i,
    {
        let d = self.block(src, b)->Some_0;
        let p = self.block_size as int / 4;
        let below = (level - 1) as nat;
        let r = self.reach(below);
        let n = smaller(self.reach(level), want - out.len());
        let m = smaller(i * r, n);
        self.lemma_reach(below);
        assert(self.reach(level) == p * r);
        assert(i * r >= 0) by (nonlinear_arith)
            requires
                i >= 0,
                r > 0,
        ;
        let so_far = Seq::new(m as nat, |k: int| self.reached(src, b, level, k));
        let all = Seq::new(n as nat, |k: int| self.reached(src, b, level, k));
        if i == p {
            assert(so_far =~= all);
        } else if m == n {
            assert(so_far =~= all);
            assert(p * r >= (i + 1) * r && (i + 1) * r == i * r + r) by (nonlinear_arith)
                requires
                    i + 1 <= p,
                    r > 0,
            ;
            assert((out + so_far).len() >= want);
        } else {
            assert((i + 1) * r == i * r + r) by (nonlinear_arith);
            let next = smaller((i + 1) * r, n);
            let more = Seq::new(next as nat, |k: int| self.reached(src, b, level, k));
            self.lemma_pointers(src, b, level, want, out, i + 1);
            let now = out + so_far;
            if level == 1 {
                assert(r == 1);
                assert(now.push(le32(d, 4 * i) as u64) =~= out + more);
            } else {
                let c = le32(d, 4 * i) as int;
                assert(p * r >= (i + 1) * r) by (nonlinear_arith)
                    requires
                        i + 1 <= p,
                        r > 0,
                ;
                assert(now.len() < want);
                assert(self.is_full(src, c, below, smaller(r, n - i * r)));
                assert(smaller(r, want - now.len()) == smaller(r, n - i * r));
                self.lemma_indirect(src, c, below, want, now);
                let add = Seq::new(
                    smaller(r, want - now.len()) as nat,
                    |k: int| self.reached(src, c, below, k),
                );
                assert forall|k: int| 0 <= k < add.len() implies #[trigger] add[k] == self.reached(
                    src,
                    b,
                    level,
                    i * r + k,
                ) by {
                    let q = i * r + k;
                    assert(q / r == i && q % r == k) by (nonlinear_arith)
                        requires
                            q == i * r + k,
                            0 <= k < r,
                    ;
                }
                assert(now + add =~= out + more);
            }
        }
    }

    /// The blocks of a file without extents: twelve that its inode names, then those that its indirect block reaches, then
    /// those that its doubly and its triply indirect blocks reach, as many as are wanted. This is so where the blocks of
    /// pointers are there as far as they are needed.
    pub proof fn law_pointers_are_followed(
        &self,
        src: Source,
        map: Seq<u8>,
        want: int,
        v: Seq<u64>,
    )
        requires
            self.wf(),
            self.block_size % 4 == 0,
            map.len() == 60,
            0 <= want <= 12 + self.reach(1) + self.reach(2) + self.reach(3),
            self.pointed(src, map, want) == Some(v),
            want > 12 ==> self.is_full(src, le32(map, 48) as int, 1, smaller(self.reach(1), want - 12)),
            want > 12 + self.reach(1) ==> self.is_full(
                src,
                le32(map, 52) as int,
                2,
                smaller(self.reach(2), want - 12 - self.reach(1)),
            ),
            want > 12 + self.reach(1) + self.reach(2) ==> self.is_full(
                src,
                le32(map, 56) as int,
                3,
                want - 12 - self.reach(1) - self.reach(2),
            ),
        ensures
            v.len() == want,
            forall|l: int|
                0 <= l < want ==> #[trigger] v[l] == if l < 12 {
                    le32(map, 4 * l) as u64
                } else if l < 12 + self.reach(1) {
                    self.reached(src, le32(map, 48) as int, 1, l - 12)
                } else if l < 12 + self.reach(1) + self.reach(2) {
                    self.reached(src, le32(map, 52) as int, 2, l - 12 - self.reach(1))
                } else {
                    self.reached(src, le32(map, 56) as int, 3, l - 12 - self.reach(1) - self.reach(2))
                },
    {
        self.lemma_reach(1);
        self.lemma_reach(2);
        self.lemma_reach(3);
        let a = Self::direct(map, want);
        if want > 12 {
            self.lemma_indirect(src, le32(map, 48) as int, 1, want, a);
            let b = self.indirect(src, le32(map, 48) as int, 1, want, a)->Some_0;
            if want > 12 + self.reach(1) {
                self.lemma_indirect(src, le32(map, 52) as int, 2, want, b);
                let c = self.indirect(src, le32(map, 52) as int, 2, want, b)->Some_0;
                if want > 12 + self.reach(1) + self.reach(2) {
                    self.lemma_indirect(src, le32(map, 56) as int, 3, want, c);
                }
            }
        }
    }

    /// A deleted file that an entry names is found under the path of the directory and the name, unless it was found
    /// before.
    pub proof fn law_found_where_listed(
        &self,
        src: Source,
        st: WalkState,
        path: Seq<char>,
        depth: int,
        ino: u32,
        name: Seq<char>,
        child: Seq<u8>,
    )
        requires
            self.inode(src, ino) == Some(Some(child)),
            le16(child, 0) / 0x1000 == 8,
            le16(child, 0x1A) == 0 || le32(child, 0x14) != 0,
            ino != 0,
            name != "."@,
            name != ".."@,
            crate::ext4::undelete::in_order(st.found),
            forall|i: int| 0 <= i < st.found.len() ==> (#[trigger] st.found[i]).ino != ino,
        ensures
            self.after_entry(src, st, path, depth, (ino, name)).found.contains(
                FoundView {
                    ino,
                    path: if path.len() == 0 {
                        crate::recover::sanitized(name)
                    } else {
                        path + seq!['/'] + crate::recover::sanitized(name)
                    },
                    name: crate::recover::sanitized(name),
                },
            ),
    {
        reveal_strlit("/");
        assert("/"@ =~= seq!['/']);
        let mode = le16(child, 0);
        assert((mode & 0xF000u16 == 0x8000u16) == (mode / 0x1000u16 == 8u16) && (mode & 0xF000u16
            == 0x4000u16 ==> mode / 0x1000u16 == 4u16)) by (bit_vector);
        let own = crate::recover::sanitized(name);
        let f = FoundView { ino, path: crate::recover::joined(path, own), name: own };
        let k = crate::ext4::undelete::found_slot(st.found, ino, 0);
        lemma_found_slot(st.found, ino, 0);
        let found = self.after_entry(src, st, path, depth, (ino, name)).found;
        assert(found == st.found.insert(k, f));
        assert(found[k] == f);
    }
}

proof fn lemma_found_slot(list: Seq<FoundView>, ino: u32, k: int)
    requires
        0 <= k <= list.len(),
    ensures
        k <= crate::ext4::undelete::found_slot(list, ino, k) <= list.len(),
    decreases list.len() - k,
{
    if k < list.len() {
        lemma_found_slot(list, ino, k + 1);
    }
}

/// The entry at `pos` of a directory names inode `ino` by the `n` bytes behind its eight, and ends before `limit`.
pub open spec fn names(d: Seq<u8>, pos: int, limit: int, filetype: bool, ino: int, n: int) -> bool {
    &&& 0 <= pos
    &&& pos + 8 + n <= limit <= d.len()
    &&& n > 0
    &&& ino != 0
    &&& ino == d[pos] + 0x100 * d[pos + 1] + 0x1_0000 * d[pos + 2] + 0x100_0000 * d[pos + 3]
    &&& n == d[pos + 6] + if filetype {
        0
    } else {
        0x100 * d[pos + 7]
    }
}

proof fn lemma_entry(d: Seq<u8>, pos: int, limit: int, filetype: bool, first: bool, ino: int, n: int)
    requires
        names(d, pos, limit, filetype, ino, n),
    ensures
        entries_in(d, pos, limit, filetype, first).contains(
            (ino as u32, lossy_text(d.subrange(pos + 8, pos + 8 + n))),
        ),
{
    lemma_step(d, pos, filetype, first);
    let e = (ino as u32, lossy_text(d.subrange(pos + 8, pos + 8 + n)));
    assert(entry_at(d, pos, limit, filetype) == seq![e]);
    assert(entries_in(d, pos, limit, filetype, first)[0] == e);
}

/// The records of a block of a directory, which begin at `marks`, one after another: each says how long it is.
pub open spec fn are_records(d: Seq<u8>, marks: Seq<int>) -> bool {
    &&& marks.len() > 0
    &&& 0 <= marks[0]
    &&& forall|i: int, j: int|
        #![trigger marks[i], marks[j]]
        0 <= i && j == i + 1 && j < marks.len() ==> marks[j] - marks[i] >= 8 && marks[j] == marks[i]
            + d[marks[i] + 4] + 0x100 * d[marks[i] + 5]
}

proof fn lemma_records(
    d: Seq<u8>,
    end: int,
    filetype: bool,
    marks: Seq<int>,
    i: int,
    r: int,
    e: (u32, Seq<char>),
)
    requires
        are_records(d, marks),
        0 <= i <= r < marks.len() - 1,
        marks.last() <= end <= d.len(),
        entries_in(d, marks[r], marks[r + 1], filetype, true).contains(e),
    ensures
        records_in(d, marks[i], end, filetype).contains(e),
    decreases r - i,
{
    lemma_marks_rise(d, marks, i + 1);
    assert(marks[i + 1] == marks[i] + le16(d, marks[i] + 4));
    let a = entries_in(d, marks[i], marks[i + 1], filetype, true);
    let b = records_in(d, marks[i + 1], end, filetype);
    if i < r {
        lemma_records(d, end, filetype, marks, i + 1, r, e);
        let k = choose|k: int| 0 <= k < b.len() && b[k] == e;
        assert((a + b)[a.len() + k] == e);
    } else {
        let k = choose|k: int| 0 <= k < a.len() && a[k] == e;
        assert((a + b)[k] == e);
    }
}

proof fn lemma_marks_rise(d: Seq<u8>, marks: Seq<int>, i: int)
    requires
        are_records(d, marks),
        0 <= i < marks.len(),
    ensures
        marks[i] <= marks.last(),
    decreases marks.len() - i,
{
    if i + 1 < marks.len() {
        lemma_marks_rise(d, marks, i + 1);
        assert(marks[i + 1] - marks[i] >= 8);
    }
}

proof fn lemma_stale_step(d: Seq<u8>, a: int, b: int, filetype: bool, ino: int, n: int, pos: int)
    requires
        names(d, a, b, filetype, ino, n),
        pos % 8 == a % 8,
        a + 8 + n <= pos < a + 16 + n,
        pos < b,
        b == a + le16(d, a + 4),
    ensures
        entry_step(d, a, filetype, true) == pos - a,
{
}

proof fn lemma_stale(
    d: Seq<u8>,
    a: int,
    b: int,
    filetype: bool,
    ino: int,
    n: int,
    pos: int,
    e: (u32, Seq<char>),
)
    requires
        names(d, a, b, filetype, ino, n),
        pos % 8 == a % 8,
        a + 8 + n <= pos < a + 16 + n,
        pos < b,
        b == a + le16(d, a + 4),
        entries_in(d, pos, b, filetype, false).contains(e),
    ensures
        entries_in(d, a, b, filetype, true).contains(e),
{
    lemma_stale_step(d, a, b, filetype, ino, n, pos);
    let x = entry_at(d, a, b, filetype);
    let y = entries_in(d, pos, b, filetype, false);
    assert(entries_in(d, a, b, filetype, true) == x + y);
    let k = choose|k: int| 0 <= k < y.len() && y[k] == e;
    assert((x + y)[x.len() + k] == e);
}

/// Whatever the records of a block of a directory name is listed: the live entry at the beginning of each record, and the
/// stale one that follows it where its name, filled up to a multiple of eight, ends.
pub proof fn law_records_are_listed(
    d: Seq<u8>,
    end: int,
    filetype: bool,
    marks: Seq<int>,
    r: int,
    ino: int,
    n: int,
    pos: int,
    stale: int,
    m: int,
)
    requires
        are_records(d, marks),
        0 <= r < marks.len() - 1,
        marks.last() <= end <= d.len(),
        names(d, marks[r], marks[r + 1], filetype, ino, n),
    ensures
        records_in(d, marks[0], end, filetype).contains(
            (ino as u32, lossy_text(d.subrange(marks[r] + 8, marks[r] + 8 + n))),
        ),
        pos % 8 == marks[r] % 8 && marks[r] + 8 + n <= pos < marks[r] + 16 + n && names(
            d,
            pos,
            marks[r + 1],
            filetype,
            stale,
            m,
        ) ==> records_in(d, marks[0], end, filetype).contains(
            (stale as u32, lossy_text(d.subrange(pos + 8, pos + 8 + m))),
        ),
{
    let a = marks[r];
    let b = marks[r + 1];
    lemma_entry(d, a, b, filetype, true, ino, n);
    lemma_records(
        d,
        end,
        filetype,
        marks,
        0,
        r,
        (ino as u32, lossy_text(d.subrange(a + 8, a + 8 + n))),
    );
    if pos % 8 == a % 8 && a + 8 + n <= pos < a + 16 + n && names(d, pos, b, filetype, stale, m) {
        let e = (stale as u32, lossy_text(d.subrange(pos + 8, pos + 8 + m)));
        assert(b == a + le16(d, a + 4));
        lemma_entry(d, pos, b, filetype, false, stale, m);
        lemma_stale(d, a, b, filetype, ino, n, pos, e);
        lemma_records(d, end, filetype, marks, 0, r, e);
    }
}

/// The blocks of a directory are listed one after another: what the first lists comes before what the others list.
pub proof fn law_blocks_are_listed(d: Seq<u8>, size: int, filetype: bool, e: (u32, Seq<char>), base: int)
    requires
        0 <= base,
        0 < size,
        base + size <= d.len(),
    ensures
        records_in(d, base, base + size, filetype).contains(e) ==> blocks_in(d, base, size, filetype).contains(
            e,
        ),
        blocks_in(d, base + size, size, filetype).contains(e) ==> blocks_in(d, base, size, filetype).contains(
            e,
        ),
{
    let a = records_in(d, base, base + size, filetype);
    let b = blocks_in(d, base + size, size, filetype);
    assert(blocks_in(d, base, size, filetype) == a + b);
    if a.contains(e) {
        let k = choose|k: int| 0 <= k < a.len() && a[k] == e;
        assert((a + b)[k] == e);
    }
    if b.contains(e) {
        let k = choose|k: int| 0 <= k < b.len() && b[k] == e;
        assert((a + b)[a.len() + k] == e);
    }
}

/// Of entries that occur more than once the first is kept, and nothing else is left out.
pub proof fn law_firsts(list: Seq<(u32, Seq<char>)>, n: int)
    requires
        0 <= n <= list.len(),
    ensures
        firsts(list, n).no_duplicates(),
        forall|e: (u32, Seq<char>)| #[trigger] firsts(list, n).contains(e) == list.take(n).contains(e),
        n > 0 ==> firsts(list, n - 1).is_prefix_of(firsts(list, n)),
    decreases n,
{
    if n > 0 {
        law_firsts(list, n - 1);
        let before = firsts(list, n - 1);
        let x = list[n - 1];
        assert(list.take(n) =~= list.take(n - 1).push(x));
        assert forall|e: (u32, Seq<char>)| #[trigger] firsts(list, n).contains(e) == list.take(n).contains(e) by {
            assert(before.contains(e) == list.take(n - 1).contains(e));
            let p = list.take(n - 1);
            if p.contains(e) {
                let k = choose|k: int| 0 <= k < p.len() && p[k] == e;
                assert(p.push(x)[k] == e);
            }
            assert(p.push(x)[n - 1] == x);
            if p.push(x).contains(e) && e != x {
                let k = choose|k: int| 0 <= k < n && #[trigger] p.push(x)[k] == e;
                assert(p[k] == e);
            }
            if before.contains(e) {
                let k = choose|k: int| 0 <= k < before.len() && before[k] == e;
                assert(firsts(list, n)[k] == e);
            }
            if !before.contains(x) {
                assert(before.push(x)[before.len() as int] == x);
                if before.push(x).contains(e) && e != x {
                    let k = choose|k: int| 0 <= k < before.len() + 1 && #[trigger] before.push(x)[k] == e;
                    assert(before[k] == e);
                }
            }
        }
    } else {
        assert(list.take(0) =~= Seq::empty());
    }
}

/// The tags of a descriptor block begin at `marks`: each is `len` bytes, with sixteen more where it does not say (2) that
/// they are the same as before, and the last of them, and no other, says (8) that it is. In sixteen bytes the flags are
/// the fifth to the eighth, otherwise the seventh and the eighth.
pub open spec fn are_tags(b: Seq<u8>, len: int, marks: Seq<int>) -> bool {
    &&& 0 < marks.len() <= 100_000
    &&& forall|i: int|
        0 <= i < marks.len() ==> 0 <= #[trigger] marks[i] && marks[i] + len <= b.len() && (b[marks[i] + 7]
            / 8 % 2 == 1) == (i == marks.len() - 1)
    &&& forall|i: int, j: int|
        #![trigger marks[i], marks[j]]
        0 <= i && j == i + 1 && j < marks.len() ==> marks[j] == marks[i] + len + if b[marks[i] + 7] / 2 % 2
            == 1 {
            0int
        } else {
            16
        }
}

proof fn lemma_tags(b: Seq<u8>, v3: bool, wide: bool, len: int, marks: Seq<int>, i: int)
    requires
        are_tags(b, len, marks),
        0 <= i < marks.len(),
        len == if v3 {
            16int
        } else if wide {
            12
        } else {
            8
        },
    ensures
        tags_from(b, marks[i], v3, wide, i).len() == marks.len() - i,
        forall|k: int|
            i <= k < marks.len() ==> #[trigger] tags_from(b, marks[i], v3, wide, i)[k - i] == be32(
                b,
                marks[k],
            ) + 0x1_0000_0000 * if v3 || wide {
                be32(b, marks[k] + 8) as int
            } else {
                0
            },
    decreases marks.len() - i,
{
    let a = marks[i];
    let f = b[a + 7] as u32;
    let t = tag_at(b, a, v3, wide)->Some_0;
    let rest = (t.flags / 0x100) as u32;
    assert(t.flags == rest * 0x100 + f) by {
        assert(be32(b, a + 4) % 0x100 == b[a + 7]);
        assert(be16(b, a + 6) % 0x100 == b[a + 7]);
    }
    let g = t.flags;
    assert((g & 2u32 == 0) == (f / 2 % 2 == 0) && (g & 8u32 != 0) == (f / 8 % 2 == 1)) by (bit_vector)
        requires
            g == rest * 0x100 + f,
            g / 0x100 == rest,
            f < 0x100,
    ;
    let all = tags_from(b, a, v3, wide, i);
    if i + 1 < marks.len() {
        lemma_tags(b, v3, wide, len, marks, i + 1);
        let more = tags_from(b, marks[i + 1], v3, wide, i + 1);
        assert(all == seq![t.block] + more);
        assert forall|k: int| i <= k < marks.len() implies #[trigger] all[k - i] == be32(b, marks[k])
            + 0x1_0000_0000 * if v3 || wide {
            be32(b, marks[k] + 8) as int
        } else {
            0
        } by {
            if k > i {
                assert(all[k - i] == more[k - (i + 1)]);
            }
        }
    } else {
        assert(all =~= seq![t.block]);
    }
}

/// Every tag of a descriptor block names a block, in the order of the tags: by 64 bits where they have them, otherwise by
/// 32.
pub proof fn law_tags(b: Seq<u8>, v3: bool, wide: bool, len: int, marks: Seq<int>)
    requires
        are_tags(b, len, marks),
        marks[0] == 12,
        len == if v3 {
            16int
        } else if wide {
            12
        } else {
            8
        },
    ensures
        tags_from(b, 12, v3, wide, 0).len() == marks.len(),
        forall|k: int|
            0 <= k < marks.len() ==> #[trigger] tags_from(b, 12, v3, wide, 0)[k] == be32(b, marks[k])
                + 0x1_0000_0000 * if v3 || wide {
                be32(b, marks[k] + 8) as int
            } else {
                0
            },
{
    lemma_tags(b, v3, wide, len, marks, 0);
    let all = tags_from(b, 12, v3, wide, 0);
    assert forall|k: int| 0 <= k < marks.len() implies #[trigger] all[k] == be32(b, marks[k])
        + 0x1_0000_0000 * if v3 || wide {
        be32(b, marks[k] + 8) as int
    } else {
        0
    } by {
        assert(all[k - 0] == all[k]);
    }
}

/// The blocks behind a descriptor block are copies of the blocks that its tags name, each of the one that the tag in its
/// place names; copies that were known stay before those that are new.
pub proof fn law_copies_are_kept(
    index: Map<u64, Seq<u64>>,
    journal: Seq<u64>,
    at: int,
    tags: Seq<u64>,
    k: int,
    block: u64,
)
    requires
        0 <= k,
        0 <= at,
    ensures
        copies_of(index, block).is_prefix_of(
            copies_of(with_copies(index, journal, at, tags, k), block),
        ),
        forall|i: int|
            k <= i < tags.len() && at + i < journal.len() && #[trigger] tags[i] == block ==> copies_of(
                with_copies(index, journal, at, tags, k),
                block,
            ).contains(journal[at + i]),
        (forall|i: int| k <= i < tags.len() ==> #[trigger] tags[i] != block) ==> copies_of(
            with_copies(index, journal, at, tags, k),
            block,
        ) == copies_of(index, block),
    decreases tags.len() - k,
{
    if k < tags.len() && at + k < journal.len() {
        let t = tags[k];
        let next = index.insert(t, copies_of(index, t).push(journal[at + k]));
        law_copies_are_kept(next, journal, at, tags, k + 1, block);
        let a = copies_of(index, block);
        let b = copies_of(next, block);
        let c = copies_of(with_copies(index, journal, at, tags, k), block);
        if t == block {
            assert(b == a.push(journal[at + k]));
            assert(b[a.len() as int] == journal[at + k]);
            assert(c[a.len() as int] == journal[at + k]);
        } else {
            assert(b == a);
        }
        assert(a.is_prefix_of(c)) by {
            assert forall|i: int| 0 <= i < a.len() implies a[i] == c[i] by {
                assert(b[i] == a[i]);
                assert(c.subrange(0, b.len() as int)[i] == b[i]);
            }
            assert(a =~= c.subrange(0, a.len() as int));
        }
    } else {
        let a = copies_of(index, block);
        assert(a =~= a.subrange(0, a.len() as int));
    }
}

} // verus!
