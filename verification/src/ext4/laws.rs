//! What holds of the blocks and of the content of every file.

use crate::bytes::{ceil, le16, le32, smaller};
use crate::ext4::blocks::{block_at, extent_in, slot, with_extent, Extent};
use crate::ext4::Volume;
use crate::source::{window, Source};
use vstd::prelude::*;

verus! {

/// `e` is what the twelve bytes of the `i`-th entry of a leaf say: a block of the file, a number of blocks, which is
/// 32768 more where the blocks were never written, and a block of the volume in 48 bits.
pub open spec fn is_entry(node: Seq<u8>, i: int, e: Extent) -> bool {
    let at = 12 + 12 * i;
    let n = node[at + 4] + 0x100 * node[at + 5];
    &&& e.logical == node[at] + 0x100 * node[at + 1] + 0x1_0000 * node[at + 2] + 0x100_0000 * node[at
        + 3]
    &&& e.len == if n > 32768 {
        n - 32768
    } else {
        n
    }
    &&& e.start == node[at + 8] + 0x100 * node[at + 9] + 0x1_0000 * node[at + 10] + 0x100_0000
        * node[at + 11] + 0x1_0000_0000 * (node[at + 6] + 0x100 * node[at + 7])
}

/// Where the `i`-th entry of a node of a higher level says that the node below it is.
pub open spec fn child_block(node: Seq<u8>, i: int) -> int {
    let at = 12 + 12 * i;
    node[at + 4] + 0x100 * node[at + 5] + 0x1_0000 * node[at + 6] + 0x100_0000 * node[at + 7]
        + 0x1_0000_0000 * (node[at + 8] + 0x100 * node[at + 9])
}

/// The extents are in the order of the blocks of the file that they begin with.
pub open spec fn rising(list: Seq<Extent>) -> bool {
    forall|i: int, j: int|
        0 <= i < j < list.len() ==> (#[trigger] list[i]).logical < (#[trigger] list[j]).logical
}

/// Block `l` of the file is one of those of the extent.
pub open spec fn covers(e: Extent, l: int) -> bool {
    e.logical <= l < e.logical + e.len
}

proof fn lemma_slot(list: Seq<Extent>, key: u32, k: int)
    requires
        0 <= k <= list.len(),
    ensures
        k <= slot(list, key, k) <= list.len(),
        forall|i: int| k <= i < slot(list, key, k) ==> (#[trigger] list[i]).logical < key,
        slot(list, key, k) < list.len() ==> list[slot(list, key, k)].logical >= key,
    decreases list.len() - k,
{
    if k < list.len() && list[k].logical < key {
        lemma_slot(list, key, k + 1);
    }
}

/// An extent that is added to others in order is among them, in order, and the others stay, but for one that begins
/// with the same block of the file.
pub proof fn law_extent_added(list: Seq<Extent>, e: Extent)
    requires
        rising(list),
    ensures
        rising(with_extent(list, e)),
        with_extent(list, e).contains(e),
        forall|x: Extent|
            x != e ==> #[trigger] with_extent(list, e).contains(x) == (list.contains(x) && x.logical
                != e.logical),
{
    let k = slot(list, e.logical, 0);
    let r = with_extent(list, e);
    lemma_slot(list, e.logical, 0);
    assert(r[k] == e);
    let same = k < list.len() && list[k].logical == e.logical;
    assert forall|x: Extent| x != e implies #[trigger] r.contains(x) == (list.contains(x) && x.logical
        != e.logical) by {
        if r.contains(x) {
            let i = choose|i: int| 0 <= i < r.len() && r[i] == x;
            if same {
                assert(list[i] == x);
            } else if i < k {
                assert(list[i] == x);
            } else {
                assert(list[i - 1] == x);
            }
        }
        if list.contains(x) && x.logical != e.logical {
            let i = choose|i: int| 0 <= i < list.len() && list[i] == x;
            if same {
                assert(r[i] == x);
            } else if i < k {
                assert(r[i] == x);
            } else {
                assert(r[i + 1] == x);
            }
        }
    }
}

/// The block of the volume that the extents give for one of the file is counted from where the extent begins that
/// covers it; a block that no extent covers is a hole. This is so where no block is covered twice.
pub proof fn law_block_of_extent(list: Seq<Extent>, n: int, l: int)
    requires
        0 <= n <= list.len(),
    ensures
        forall|i: int|
            #![trigger list[i]]
            0 <= i < n && covers(list[i], l) && (forall|j: int|
                0 <= j < n && j != i ==> !covers(#[trigger] list[j], l)) ==> block_at(list, n, l)
                - list[i].start == l - list[i].logical,
        (forall|j: int| 0 <= j < n ==> !covers(#[trigger] list[j], l)) ==> block_at(list, n, l) == 0,
    decreases n,
{
    if n > 0 {
        law_block_of_extent(list, n - 1, l);
    }
}

impl Volume {
    /// An extent stands in the tree of which `node` is the root, of which the entries from the `i`-th on are looked at:
    /// in that node, where it is a leaf, or in the tree below one of its entries.
    pub open spec fn stands_in(&self, src: Source, node: Seq<u8>, depth: nat, i: int, e: Extent) -> bool
        decreases 8 - depth,
    {
        &&& node.len() >= 12
        &&& depth <= 6
        &&& node[0] == 0x0A && node[1] == 0xF3
        &&& exists|j: int|
            #![trigger child_block(node, j)]
            {
                &&& i <= j < node[2] + 0x100 * node[3]
                &&& 24 + 12 * j <= node.len()
                &&& if node[6] == 0 && node[7] == 0 {
                    is_entry(node, j, e)
                } else {
                    self.block(src, child_block(node, j)) matches Some(b) && self.stands_in(
                        src,
                        b,
                        depth + 1,
                        0,
                        e,
                    )
                }
            }
    }

    /// `all` are the extents of a tree, added to others.
    spec fn gathered(
        &self,
        src: Source,
        node: Seq<u8>,
        depth: nat,
        i: int,
        list: Seq<Extent>,
        all: Seq<Extent>,
    ) -> bool {
        &&& rising(all)
        &&& forall|e: Extent| #[trigger] self.stands_in(src, node, depth, i, e) ==> all.contains(e)
        &&& forall|e: Extent| #[trigger]
            all.contains(e) ==> list.contains(e) || self.stands_in(src, node, depth, i, e)
        &&& forall|e: Extent| #[trigger]
            list.contains(e) && (forall|x: Extent| #[trigger]
                self.stands_in(src, node, depth, i, x) ==> x.logical != e.logical) ==> all.contains(e)
    }

    proof fn lemma_gathered(&self, src: Source, node: Seq<u8>, depth: nat, i: int, list: Seq<Extent>)
        requires
            0 <= i,
            rising(list),
            node.len() >= 12,
            depth <= 6,
            node[0] == 0x0A && node[1] == 0xF3,
            forall|x: Extent, y: Extent| #[trigger]
                self.stands_in(src, node, depth, i, x) && #[trigger] self.stands_in(
                    src,
                    node,
                    depth,
                    i,
                    y,
                ) && x.logical == y.logical ==> x == y,
        ensures
            self.collected_from(src, node, depth, i, list) matches Some(all) ==> self.gathered(
                src,
                node,
                depth,
                i,
                list,
                all,
            ),
        decreases 8 - depth, node.len() - i,
    {
        if i < le16(node, 2) && 24 + 12 * i <= node.len() {
            assert forall|e: Extent| #[trigger] self.stands_in(src, node, depth, i + 1, e) implies self.stands_in(
                src,
                node,
                depth,
                i,
                e,
            ) by {
                let j = choose|j: int|
                    #![trigger child_block(node, j)]
                    {
                        &&& i + 1 <= j < node[2] + 0x100 * node[3]
                        &&& 24 + 12 * j <= node.len()
                        &&& if node[6] == 0 && node[7] == 0 {
                            is_entry(node, j, e)
                        } else {
                            self.block(src, child_block(node, j)) matches Some(b) && self.stands_in(
                                src,
                                b,
                                depth + 1,
                                0,
                                e,
                            )
                        }
                    };
                assert(child_block(node, j) == child_block(node, j));
            }
            let c = child_block(node, i);
            if le16(node, 6) == 0 {
                let e = extent_in(node, i);
                assert(is_entry(node, i, e));
                assert(self.stands_in(src, node, depth, i, e));
                law_extent_added(list, e);
                let next = with_extent(list, e);
                self.lemma_gathered(src, node, depth, i + 1, next);
                if let Some(all) = self.collected_from(src, node, depth, i + 1, next) {
                    assert forall|x: Extent| #[trigger] self.stands_in(src, node, depth, i, x) implies all.contains(
                        x,
                    ) by {
                        if !self.stands_in(src, node, depth, i + 1, x) {
                            assert(is_entry(node, i, x));
                            assert(x == e);
                            assert forall|y: Extent| #[trigger]
                                self.stands_in(src, node, depth, i + 1, y) implies y.logical
                                != x.logical by {
                                assert(self.stands_in(src, node, depth, i, y));
                            }
                            assert(next.contains(x));
                        }
                    }
                    assert forall|x: Extent| #[trigger] list.contains(x) && (forall|y: Extent| #[trigger]
                        self.stands_in(src, node, depth, i, y) ==> y.logical != x.logical) implies all.contains(
                        x,
                    ) by {
                        assert(next.contains(x));
                    }
                }
            } else {
                assert(c == crate::ext4::blocks::child_in(node, i));
                if let Some(b) = self.block(src, c) {
                    assert forall|x: Extent| #[trigger] self.stands_in(src, b, depth + 1, 0, x) implies self.stands_in(
                        src,
                        node,
                        depth,
                        i,
                        x,
                    ) by {
                        assert(child_block(node, i) == c);
                    }
                    if b.len() >= 12 && depth < 6 && b[0] == 0x0A && b[1] == 0xF3 {
                        self.lemma_gathered(src, b, depth + 1, 0, list);
                    } else {
                        assert(self.collected(src, b, depth + 1, list) == Some(list));
                        assert(forall|x: Extent| !#[trigger] self.stands_in(src, b, depth + 1, 0, x));
                    }
                    if let Some(half) = self.collected(src, b, depth + 1, list) {
                        assert(self.gathered(src, b, depth + 1, 0, list, half));
                        self.lemma_gathered(src, node, depth, i + 1, half);
                        if let Some(all) = self.collected_from(src, node, depth, i + 1, half) {
                            assert forall|x: Extent| #[trigger]
                                self.stands_in(src, node, depth, i, x) implies all.contains(x) by {
                                if !self.stands_in(src, node, depth, i + 1, x) {
                                    assert(self.stands_in(src, b, depth + 1, 0, x));
                                    assert forall|y: Extent| #[trigger]
                                        self.stands_in(src, node, depth, i + 1, y) implies y.logical
                                        != x.logical by {
                                        assert(self.stands_in(src, node, depth, i, y));
                                    }
                                    assert(half.contains(x));
                                }
                            }
                            assert forall|x: Extent| #[trigger] all.contains(x) implies list.contains(x)
                                || self.stands_in(src, node, depth, i, x) by {
                                if half.contains(x) && !list.contains(x) {
                                    assert(self.stands_in(src, b, depth + 1, 0, x));
                                }
                            }
                            assert forall|x: Extent| #[trigger] list.contains(x) && (forall|y: Extent| #[trigger]
                                self.stands_in(src, node, depth, i, y) ==> y.logical != x.logical) implies all.contains(
                                x,
                            ) by {
                                assert(half.contains(x));
                            }
                        }
                    }
                }
            }
        } else {
            assert(forall|x: Extent| !#[trigger] self.stands_in(src, node, depth, i, x));
        }
    }

    /// The blocks of a file that is given by a tree of extents, of which no two cover the same block of the file: the
    /// `k`-th block of an extent is the `k`-th from where it begins in the volume, for every extent in the tree, so
    /// blocks that follow each other in an extent do so in the volume; and a block that no extent covers is a hole.
    pub proof fn law_extents_are_followed(&self, src: Source, inode: Seq<u8>, want: int, v: Seq<u64>)
        requires
            0 <= want,
            inode.len() >= 100,
            (inode[0x22] as u8) & 0x08u8 != 0,
            self.mapped(src, inode, want) == Some(v),
            forall|x: Extent| #[trigger]
                self.stands_in(src, inode.subrange(0x28, 0x64), 0, 0, x) ==> x.len > 0,
            forall|x: Extent, y: Extent, l: int|
                #![trigger covers(x, l), covers(y, l)]
                self.stands_in(src, inode.subrange(0x28, 0x64), 0, 0, x) && self.stands_in(
                    src,
                    inode.subrange(0x28, 0x64),
                    0,
                    0,
                    y,
                ) && covers(x, l) && covers(y, l) ==> x == y,
        ensures
            v.len() == want,
            forall|e: Extent, k: int|
                #![trigger self.stands_in(src, inode.subrange(0x28, 0x64), 0, 0, e), v[e.logical + k]]
                self.stands_in(src, inode.subrange(0x28, 0x64), 0, 0, e) && 0 <= k < e.len && e.logical
                    + k < want ==> v[e.logical + k] == e.start + k,
            forall|l: int|
                0 <= l < want && (forall|e: Extent| #[trigger]
                    self.stands_in(src, inode.subrange(0x28, 0x64), 0, 0, e) ==> !covers(e, l))
                    ==> #[trigger] v[l] == 0,
    {
        let map = inode.subrange(0x28, 0x64);
        lemma_extents_flag(inode);
        assert(crate::ext4::inode::block_map(inode) == map);
        let none: Seq<Extent> = Seq::empty();
        assert forall|x: Extent, y: Extent| #[trigger]
            self.stands_in(src, map, 0, 0, x) && #[trigger] self.stands_in(src, map, 0, 0, y)
                && x.logical == y.logical implies x == y by {
            assert(covers(x, x.logical as int) && covers(y, x.logical as int));
        }
        let list = self.collected(src, map, 0, none)->Some_0;
        if map[0] == 0x0A && map[1] == 0xF3 {
            self.lemma_gathered(src, map, 0, 0, none);
        } else {
            assert(list == none);
            assert(forall|x: Extent| !#[trigger] self.stands_in(src, map, 0, 0, x));
        }
        assert(self.gathered(src, map, 0, 0, none, list));
        assert forall|j: int| 0 <= j < list.len() implies self.stands_in(src, map, 0, 0, #[trigger] list[j]) by {
            assert(list.contains(list[j]));
        }
        assert forall|e: Extent, k: int|
            #![trigger self.stands_in(src, map, 0, 0, e), v[e.logical + k]]
            self.stands_in(src, map, 0, 0, e) && 0 <= k < e.len && e.logical + k < want implies v[e.logical
            + k] == e.start + k by {
            let l = e.logical + k;
            assert(list.contains(e));
            let i = choose|i: int| 0 <= i < list.len() && list[i] == e;
            law_block_of_extent(list, list.len() as int, l);
            assert(covers(list[i], l));
            assert forall|j: int| 0 <= j < list.len() && j != i implies !covers(#[trigger] list[j], l) by {
                if covers(list[j], l) {
                    assert(list[j] == list[i]);
                    if i < j {
                        assert(list[i].logical < list[j].logical);
                    } else {
                        assert(list[j].logical < list[i].logical);
                    }
                }
            }
            assert(block_at(list, list.len() as int, l) == e.start + k);
            lemma_small_start(src, *self, map, 0, 0, e);
            assert(v[l] == block_at(list, list.len() as int, l) as u64);
        }
        assert forall|l: int|
            0 <= l < want && (forall|e: Extent| #[trigger]
                self.stands_in(src, map, 0, 0, e) ==> !covers(e, l)) implies #[trigger] v[l] == 0 by {
            law_block_of_extent(list, list.len() as int, l);
            assert forall|j: int| 0 <= j < list.len() implies !covers(#[trigger] list[j], l) by {
                assert(self.stands_in(src, map, 0, 0, list[j]));
            }
            assert(v[l] == block_at(list, list.len() as int, l) as u64);
        }
    }

    /// Byte `p` of block `b`; a byte of a hole is zero.
    pub open spec fn byte_of_block(&self, src: Source, b: u64, p: int) -> u8 {
        if b == 0 {
            0
        } else {
            src@[self.offset + b * self.block_size + p]
        }
    }

    /// What is read of a file comes from its blocks: byte `q` is in the block that holds it, as far from its beginning
    /// as in the file, and zero where that block is a hole. All of it is read where the blocks are in the image.
    pub proof fn law_content_is_in_the_blocks(
        &self,
        src: Source,
        inode: Seq<u8>,
        size: int,
        want: int,
        blocks: Seq<u64>,
        c: Seq<u8>,
    )
        requires
            self.wf(),
            0 < size <= self.total_blocks * self.block_size <= u64::MAX,
            size <= src@.len(),
            (want - 1) * self.block_size < size <= want * self.block_size,
            self.mapped(src, inode, want) == Some(blocks),
            self.content(src, inode, size) == Some(c),
        ensures
            c.len() <= size,
            forall|q: int|
                0 <= q < c.len() ==> #[trigger] c[q] == self.byte_of_block(
                    src,
                    blocks[q / self.block_size as int],
                    q % self.block_size as int,
                ),
            blocks.len() == want && (forall|l: int|
                0 <= l < want ==> self.offset + (#[trigger] blocks[l] + 1) * self.block_size
                    <= src@.len()) ==> c.len() == size,
    {
        let bs = self.block_size as int;
        assert(ceil(size, bs) == want) by (nonlinear_arith)
            requires
                (want - 1) * bs < size <= want * bs,
                bs > 0,
                ceil(size, bs) == (size + bs - 1) / bs,
        ;
        assert(0 * bs == 0) by (nonlinear_arith);
        assert(want * bs >= size);
        self.lemma_content_bytes(src, blocks, 0, size, Seq::empty());
    }

    spec fn from_blocks(&self, src: Source, blocks: Seq<u64>, c: Seq<u8>) -> bool {
        forall|q: int|
            0 <= q < c.len() ==> #[trigger] c[q] == self.byte_of_block(
                src,
                blocks[q / self.block_size as int],
                q % self.block_size as int,
            )
    }

    proof fn lemma_content_bytes(&self, src: Source, blocks: Seq<u64>, i: int, size: int, out: Seq<u8>)
        requires
            self.wf(),
            0 <= i <= blocks.len(),
            out.len() == smaller(i * self.block_size, size),
            self.from_blocks(src, blocks, out),
        ensures
            self.content_from(src, blocks, i, size, out) matches Some(c) ==> {
                &&& c.len() <= size
                &&& self.from_blocks(src, blocks, c)
                &&& (forall|l: int|
                    0 <= l < blocks.len() ==> self.offset + (#[trigger] blocks[l] + 1) * self.block_size
                        <= src@.len()) ==> c.len() == smaller(size, blocks.len() * self.block_size)
            },
        decreases blocks.len() - i,
    {
        let bs = self.block_size as int;
        if i < blocks.len() && out.len() < size {
            let take = smaller(size - out.len(), bs);
            let b = blocks[i];
            let at = self.offset + b * self.block_size;
            assert((i + 1) * bs == i * bs + bs) by (nonlinear_arith);
            assert((b + 1) * bs == b * bs + bs && b * bs >= 0) by (nonlinear_arith)
                requires
                    bs > 0,
                    b >= 0,
            ;
            let d = if b == 0 {
                Seq::new(take as nat, |k: int| 0u8)
            } else {
                window(src@, at, take)
            };
            let next = out + d;
            assert(b != 0 && at + bs <= src@.len() ==> d.len() == take);
            assert forall|q: int| 0 <= q < next.len() implies #[trigger] next[q] == self.byte_of_block(
                src,
                blocks[q / self.block_size as int],
                q % self.block_size as int,
            ) by {
                if q < out.len() {
                    assert(next[q] == out[q]);
                } else {
                    let p = q - i * bs;
                    assert(q / bs == i && q % bs == p) by (nonlinear_arith)
                        requires
                            q == i * bs + p,
                            0 <= p < bs,
                    ;
                    assert(next[q] == d[p]);
                }
            }
            assert(self.from_blocks(src, blocks, next));
            if d.len() == take {
                self.lemma_content_bytes(src, blocks, i + 1, size, next);
            }
        } else if i < blocks.len() {
            assert(blocks.len() * bs >= i * bs) by (nonlinear_arith)
                requires
                    i <= blocks.len(),
                    bs > 0,
            ;
        }
    }

    /// What is read of a file whose blocks follow each other in the volume, from block `first` on, is what the image
    /// holds there.
    pub proof fn law_contiguous_file(
        &self,
        src: Source,
        inode: Seq<u8>,
        size: int,
        want: int,
        first: int,
        c: Seq<u8>,
    )
        requires
            self.wf(),
            0 < size <= self.total_blocks * self.block_size <= u64::MAX,
            (want - 1) * self.block_size < size <= want * self.block_size,
            0 < first,
            first + want <= u64::MAX,
            self.offset + (first + want) * self.block_size <= src@.len(),
            inode.len() >= 100,
            (inode[0x22] as u8) & 0x08u8 != 0,
            // One extent, in a leaf.
            inode[0x28] == 0x0A && inode[0x29] == 0xF3,
            inode[0x2A] == 1 && inode[0x2B] == 0,
            inode[0x2E] == 0 && inode[0x2F] == 0,
            is_entry(
                inode.subrange(0x28, 0x64),
                0,
                (Extent { logical: 0, start: first as u64, len: want as u32 }),
            ),
            want <= 32768,
            self.content(src, inode, size) == Some(c),
        ensures
            c == src@.subrange(
                self.offset + first * self.block_size,
                self.offset + first * self.block_size + size,
            ),
    {
        let bs = self.block_size as int;
        let map = inode.subrange(0x28, 0x64);
        let one = Extent { logical: 0, start: first as u64, len: want as u32 };
        assert(want > 0) by (nonlinear_arith)
            requires
                0 < size <= want * bs,
                bs > 0,
        ;
        assert forall|x: Extent| #[trigger] self.stands_in(src, map, 0, 0, x) implies x == one by {
            let j = choose|j: int|
                #![trigger child_block(map, j)]
                {
                    &&& 0 <= j < map[2] + 0x100 * map[3]
                    &&& 24 + 12 * j <= map.len()
                    &&& is_entry(map, j, x)
                };
            assert(j == 0);
        }
        assert(map[0] == inode[0x28] && map[1] == inode[0x29] && map[2] == inode[0x2A] && map[3]
            == inode[0x2B] && map[6] == inode[0x2E] && map[7] == inode[0x2F]);
        let here = child_block(map, 0);
        assert(is_entry(map, 0, one));
        assert(self.stands_in(src, map, 0, 0, one));
        assert((first + want) * bs == first * bs + want * bs) by (nonlinear_arith);
        assert(first * bs >= 0) by (nonlinear_arith)
            requires
                first > 0,
                bs > 0,
        ;
        assert(ceil(size, bs) == want) by (nonlinear_arith)
            requires
                (want - 1) * bs < size <= want * bs,
                bs > 0,
                ceil(size, bs) == (size + bs - 1) / bs,
        ;
        let blocks = self.mapped(src, inode, want)->Some_0;
        self.law_extents_are_followed(src, inode, want, blocks);
        assert forall|k: int| 0 <= k < want implies #[trigger] blocks[k] == first + k by {
            assert(blocks[one.logical + k] == one.start + k);
        }
        assert forall|l: int| 0 <= l < want implies self.offset + (#[trigger] blocks[l] + 1) * self.block_size
            <= src@.len() by {
            assert((first + l + 1) * bs <= (first + want) * bs) by (nonlinear_arith)
                requires
                    l + 1 <= want,
                    bs > 0,
            ;
        }
        self.law_content_is_in_the_blocks(src, inode, size, want, blocks, c);
        let s = src@.subrange(self.offset + first * bs, self.offset + first * bs + size);
        assert forall|q: int| 0 <= q < size implies c[q] == s[q] by {
            let l = q / bs;
            let p = q % bs;
            assert(l * bs + p == q && 0 <= p < bs && 0 <= l < want) by (nonlinear_arith)
                requires
                    l == q / bs,
                    p == q % bs,
                    0 <= q < want * bs,
                    bs > 0,
            ;
            assert((first + l) * bs == first * bs + l * bs) by (nonlinear_arith);
        }
        assert(c =~= s);
    }
}

/// The flag by which an inode says that it has extents is in its third byte.
proof fn lemma_extents_flag(inode: Seq<u8>)
    ensures
        ((inode[0x22] as u8) & 0x08u8 != 0) == crate::ext4::inode::uses_extents(inode),
{
    let a = inode[0x20];
    let b = inode[0x21];
    let c = inode[0x22];
    let d = inode[0x23];
    let n = le32(inode, 0x20);
    assert(n == a as u32 + b as u32 * 0x100 + c as u32 * 0x1_0000 + d as u32 * 0x100_0000);
    assert((c & 0x08u8 != 0) == (n & 0x0008_0000u32 != 0)) by (bit_vector)
        requires
            n == a as u32 + b as u32 * 0x100 + c as u32 * 0x1_0000 + d as u32 * 0x100_0000,
    ;
}

/// Extents begin at blocks of 48 bits.
proof fn lemma_small_start(src: Source, vol: Volume, node: Seq<u8>, depth: nat, i: int, e: Extent)
    requires
        vol.stands_in(src, node, depth, i, e),
    ensures
        e.start < 0x1_0000_0000_0000,
        e.len <= 0x1_0000,
    decreases 8 - depth,
{
    let j = choose|j: int|
        #![trigger child_block(node, j)]
        {
            &&& i <= j < node[2] + 0x100 * node[3]
            &&& 24 + 12 * j <= node.len()
            &&& if node[6] == 0 && node[7] == 0 {
                is_entry(node, j, e)
            } else {
                vol.block(src, child_block(node, j)) matches Some(b) && vol.stands_in(
                    src,
                    b,
                    depth + 1,
                    0,
                    e,
                )
            }
        };
    if !(node[6] == 0 && node[7] == 0) {
        let b = vol.block(src, child_block(node, j))->Some_0;
        lemma_small_start(src, vol, b, depth + 1, 0, e);
    }
}

} // verus!
