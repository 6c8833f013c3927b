//! What holds of the entries of directories, and of files that have lost their chains.

use crate::bytes::{le16, smaller};
use crate::exfat::entries::{item_at, items_from, set_at, units_from, ItemView};
use crate::exfat::undelete::{DeletedView, PendingView, WalkState};
use crate::exfat::{bitmap_from, label_from, Volume};
use crate::geometry::four;
use crate::source::{window, Source};
use crate::strings::utf16_text;
use crate::times::exfat_time;
use vstd::prelude::*;

verus! {

/// From the `i`-th entry of a directory on, of 32 bytes each, there is the set of a file: one entry for it, one that says
/// where it is, and `m` for its name.
pub open spec fn is_set(b: Seq<u8>, i: int, m: int) -> bool {
    let e = 32 * i;
    &&& 0 <= i
    &&& 1 <= m
    &&& e + 32 * (m + 2) <= b.len()
    &&& b[e] % 128 == 5
    &&& b[e + 1] == m + 1
    &&& b[e + 32] % 128 == 0x40
    &&& forall|j: int| 0 <= j < m ==> b[32 * (#[trigger] (i + 2 + j))] % 128 == 0x41
}

/// The units of a name that is spread over `m` entries, fifteen in each.
pub open spec fn name_units(b: Seq<u8>, i: int, m: int) -> Seq<u16> {
    Seq::new(
        (15 * m) as nat,
        |k: int| le16(b, 32 * (i + k / 15) + 2 + 2 * (k % 15)),
    )
}

proof fn lemma_units(b: Seq<u8>, i: int, m: int)
    requires
        0 <= m,
        forall|j: int| 0 <= j < m ==> b[32 * (#[trigger] (i + j))] % 128 == 0x41,
    ensures
        units_from(b, i, i + m - 1) == name_units(b, i, m),
    decreases m,
{
    if m > 0 {
        assert(b[32 * (i + 0)] % 128 == 0x41);
        assert forall|j: int| 0 <= j < m - 1 implies b[32 * (#[trigger] ((i + 1) + j))] % 128 == 0x41 by {
            assert(b[32 * (i + (j + 1))] % 128 == 0x41);
        }
        lemma_units(b, i + 1, m - 1);
        let first = Seq::new(15, |k: int| le16(b, 32 * i + 2 + 2 * k));
        let rest = name_units(b, i + 1, m - 1);
        let all = name_units(b, i, m);
        assert forall|k: int| 0 <= k < all.len() implies (first + rest)[k] == all[k] by {
            if k < 15 {
                assert(k / 15 == 0 && k % 15 == k);
            } else {
                assert((k - 15) / 15 == k / 15 - 1 && (k - 15) % 15 == k % 15);
            }
        }
        assert(first + rest =~= all);
    } else {
        assert(name_units(b, i, 0) =~= Seq::<u16>::empty());
    }
}

/// What the set of a file says is where the format has it: in the first entry whether it is in use, whether it is a
/// directory, and the times of its content and of its last access, at 12 and 16; in the second whether it is stored in one
/// piece, how long its name is, its first cluster at 20, and how many bytes it has, at 24; and in the others its name.
pub proof fn law_set(b: Seq<u8>, i: int, m: int, item: ItemView)
    requires
        is_set(b, i, m),
        ({
            let e = 32 * i;
            let s = e + 32;
            let n = b[s + 3] as int;
            &&& n <= 15 * m
            &&& item.name == utf16_text(name_units(b, i + 2, m).take(n), 0)
            &&& item.deleted == (b[e] < 128)
            &&& item.is_dir == (b[e + 4] / 16 % 2 == 1)
            &&& item.first_cluster == four(b, s + 20)
            &&& item.data_length == four(b, s + 24) + 0x1_0000_0000 * four(b, s + 28)
            &&& item.no_fat_chain == (b[s + 1] / 2 % 2 == 1)
            &&& item.mtime == match exfat_time(four(b, e + 12) as u32) {
                Some(t) => Some(t as u64),
                None => None,
            }
            &&& item.atime == match exfat_time(four(b, e + 16) as u32) {
                Some(t) => Some(t as u64),
                None => None,
            }
        }),
    ensures
        set_at(b, i) == Some(m + 1),
        item_at(b, i, m + 1) == item,
{
    let e = 32 * i;
    let s = e + 32;
    assert forall|j: int| 0 <= j < m implies b[32 * (#[trigger] ((i + 2) + j))] % 128 == 0x41 by {
        assert(b[32 * (i + 2 + j)] % 128 == 0x41);
    }
    lemma_units(b, i + 2, m);
    let lo = b[e + 4];
    let hi = b[e + 5];
    let a = le16(b, e + 4);
    let f = b[s + 1];
    assert(a == lo as u16 + 0x100 * (hi as u16));
    assert((a & 0x10u16 != 0) == (lo / 16 % 2 == 1)) by (bit_vector)
        requires
            a == lo as u16 + 0x100 * (hi as u16),
    ;
    assert((f & 0x02u8 != 0) == (f / 2 % 2 == 1)) by (bit_vector);
    let x = item_at(b, i, m + 1);
    assert(units_from(b, i + 2, i + (m + 1)) == name_units(b, i + 2, m));
    assert(x =~= item);
}

/// The places of a directory at which its reading stops, `marks`, by the numbers of their entries: behind a set it goes on
/// behind all its entries, otherwise at the next entry.
pub open spec fn are_stops(b: Seq<u8>, marks: Seq<int>) -> bool {
    &&& marks.len() > 0
    &&& marks[0] == 0
    &&& forall|i: int, j: int|
        #![trigger marks[i], marks[j]]
        0 <= i && j == i + 1 && j < marks.len() ==> 0 <= marks[i] && 32 * marks[i] + 32 <= b.len()
            && marks[j] == match set_at(b, marks[i]) {
            Some(n) => marks[i] + 1 + n,
            None => marks[i] + 1,
        }
}

proof fn lemma_items(b: Seq<u8>, marks: Seq<int>, i: int, r: int, n: int)
    requires
        are_stops(b, marks),
        0 <= i <= r < marks.len() - 1,
        set_at(b, marks[r]) == Some(n),
        item_at(b, marks[r], n).name.len() > 0,
    ensures
        items_from(b, marks[i]).contains(item_at(b, marks[r], n)),
    decreases r - i,
{
    let x = item_at(b, marks[r], n);
    let next = marks[i + 1];
    assert(0 <= marks[i] && 32 * marks[i] + 32 <= b.len());
    let all = items_from(b, marks[i]);
    let rest = items_from(b, marks[i + 1]);
    if i < r {
        lemma_items(b, marks, i + 1, r, n);
        let k = choose|k: int| 0 <= k < rest.len() && rest[k] == x;
        match set_at(b, marks[i]) {
            Some(m) => {
                let y = item_at(b, marks[i], m);
                let head = if y.name.len() > 0 {
                    seq![y]
                } else {
                    Seq::empty()
                };
                assert(all == head + rest);
                assert((head + rest)[head.len() + k] == x);
            },
            None => {},
        }
    } else {
        assert(all == seq![x] + rest);
        assert(all[0] == x);
    }
}

/// Every set of a directory that has a name is read, whatever comes before it.
pub proof fn law_every_set_is_read(b: Seq<u8>, marks: Seq<int>, r: int, n: int)
    requires
        are_stops(b, marks),
        0 <= r < marks.len() - 1,
        set_at(b, marks[r]) == Some(n),
        item_at(b, marks[r], n).name.len() > 0,
    ensures
        items_from(b, 0).contains(item_at(b, marks[r], n)),
{
    lemma_items(b, marks, 0, r, n);
}

/// The label of a volume is in the first entry of its root directory that is one (0x83): as many units as it says, eleven
/// at most. Entries before it may be anything but the end of the directory (0).
pub proof fn law_label(b: Seq<u8>, i: int, k: int)
    requires
        0 <= k <= i,
        32 * i + 32 <= b.len(),
        forall|j: int| k <= j < i ==> b[32 * #[trigger] (j + 0)] != 0 && b[32 * (j + 0)] != 0x83,
        b[32 * i] == 0x83,
        b[32 * i + 1] <= 11,
    ensures
        label_from(b, k) == utf16_text(
            Seq::new(b[32 * i + 1] as nat, |u: int| le16(b, 32 * i + 2 + 2 * u)),
            0,
        ),
    decreases i - k,
{
    if k < i {
        assert(b[32 * (k + 0)] != 0 && b[32 * (k + 0)] != 0x83);
        law_label(b, i, k + 1);
    } else {
        assert(Seq::new(smaller(b[32 * i + 1] as int, 11) as nat, |u: int| le16(b, 32 * i + 2 + 2 * u))
            =~= Seq::new(b[32 * i + 1] as nat, |u: int| le16(b, 32 * i + 2 + 2 * u)));
    }
}

/// Where the allocation bitmap is says the first entry of the root directory that is one (0x81) and whose lowest flag is
/// clear: its first cluster at 20, and how many bytes it has, at 24.
pub proof fn law_bitmap_entry(b: Seq<u8>, i: int, k: int)
    requires
        0 <= k <= i,
        32 * i + 32 <= b.len(),
        forall|j: int|
            k <= j < i ==> b[32 * #[trigger] (j + 0)] != 0 && (b[32 * (j + 0)] != 0x81 || b[32 * (j + 0) + 1]
                % 2 == 1),
        b[32 * i] == 0x81,
        b[32 * i + 1] % 2 == 0,
    ensures
        bitmap_from(b, k) == Some(
            (
                four(b, 32 * i + 20) as u32,
                (four(b, 32 * i + 24) + 0x1_0000_0000 * four(b, 32 * i + 28)) as u64,
            ),
        ),
    decreases i - k,
{
    let f = b[32 * k + 1];
    assert((f & 0x01u8 == 0) == (f % 2 == 0)) by (bit_vector);
    if k < i {
        assert(b[32 * (k + 0)] != 0 && (b[32 * (k + 0)] != 0x81 || b[32 * (k + 0) + 1] % 2 == 1));
        law_bitmap_entry(b, i, k + 1);
    }
}

impl Volume {
    /// A cluster is allocated exactly where its bit is set, the least significant bit of each byte being that of the first
    /// of eight clusters; the first cluster has the number 2.
    pub proof fn law_bitmap(bitmap: Seq<u8>, c: int)
        requires
            2 <= c,
            (c - 2) / 8 < bitmap.len(),
        ensures
            (c - 2) % 8 == 0 ==> Self::is_allocated(bitmap, c) == (bitmap[(c - 2) / 8] % 2 == 1),
            (c - 2) % 8 == 1 ==> Self::is_allocated(bitmap, c) == (bitmap[(c - 2) / 8] / 2 % 2 == 1),
            (c - 2) % 8 == 2 ==> Self::is_allocated(bitmap, c) == (bitmap[(c - 2) / 8] / 4 % 2 == 1),
            (c - 2) % 8 == 3 ==> Self::is_allocated(bitmap, c) == (bitmap[(c - 2) / 8] / 8 % 2 == 1),
            (c - 2) % 8 == 4 ==> Self::is_allocated(bitmap, c) == (bitmap[(c - 2) / 8] / 16 % 2 == 1),
            (c - 2) % 8 == 5 ==> Self::is_allocated(bitmap, c) == (bitmap[(c - 2) / 8] / 32 % 2 == 1),
            (c - 2) % 8 == 6 ==> Self::is_allocated(bitmap, c) == (bitmap[(c - 2) / 8] / 64 % 2 == 1),
            (c - 2) % 8 == 7 ==> Self::is_allocated(bitmap, c) == (bitmap[(c - 2) / 8] / 128 % 2 == 1),
    {
        crate::basics::law_bits(bitmap[(c - 2) / 8]);
    }

    /// Clusters that may hold what is looked for, in their order, none of which lies between two of them.
    pub open spec fn are_open(&self, bitmap: Option<Seq<u8>>, cs: Seq<u32>) -> bool {
        &&& cs.len() > 0
        &&& forall|i: int| 0 <= i < cs.len() ==> 2 <= #[trigger] cs[i] <= self.cluster_count + 1
        &&& forall|i: int, j: int|
            #![trigger cs[i], cs[j]]
            0 <= i && j == i + 1 && j < cs.len() ==> cs[i] < cs[j] && Self::is_open(bitmap, cs[j] as int)
        &&& forall|i: int, j: int, x: int|
            #![trigger cs[i], cs[j], Self::is_open(bitmap, x)]
            0 <= i && j == i + 1 && j < cs.len() && cs[i] < x < cs[j] ==> !Self::is_open(bitmap, x)
    }

    proof fn lemma_next_open_is(&self, bitmap: Option<Seq<u8>>, c: int, n: int)
        requires
            c < n <= self.max_cluster(),
            Self::is_open(bitmap, n),
            forall|x: int| c < x < n ==> !#[trigger] Self::is_open(bitmap, x),
        ensures
            self.next_open(bitmap, c) == Some(n),
        decreases n - c,
    {
        if c + 1 < n {
            assert(!Self::is_open(bitmap, c + 1));
            self.lemma_next_open_is(bitmap, c + 1, n);
        }
    }

    proof fn lemma_gathered<F: Fn(&Vec<u8>, &Vec<u8>) -> bool>(
        &self,
        src: Source,
        bitmap: Option<Seq<u8>>,
        follows: F,
        cs: Seq<u32>,
        len: int,
        i: int,
        out: Seq<u8>,
        r: Option<Seq<u8>>,
    )
        requires
            self.wf(),
            src.intact(),
            self.are_open(bitmap, cs),
            forall|k: int| 0 <= k < cs.len() ==> self.place(#[trigger] cs[k]) + self.unit() <= src@.len(),
            (cs.len() - 1) * self.unit() < len <= cs.len() * self.unit(),
            0 <= i < cs.len(),
            out.len() == i * self.unit(),
            self.is_from(src, cs, out),
            self.gathers(src, bitmap, follows, Some(cs[i] as int), len, false, 0, out, r),
        ensures
            r matches Some(d) && d.len() == len && self.is_from(src, cs, d),
        decreases cs.len() - i,
    {
        let u = self.unit();
        let c = cs[i];
        self.lemma_bounds(c - 2);
        self.lemma_bounds(0);
        self.lemma_next_open(bitmap, c as int);
        assert(self.cluster_heap_offset_sectors * self.bytes_per_sector >= 0) by (nonlinear_arith);
        assert((c - 2) * u >= 0) by (nonlinear_arith)
            requires
                c >= 2,
                u >= 0,
        ;
        let at = self.place(c);
        assert(self.cluster_pos(c) == at);
        assert((i + 1) * u == i * u + u) by (nonlinear_arith);
        assert(i * u <= (cs.len() - 1) * u) by (nonlinear_arith)
            requires
                i <= cs.len() - 1,
                u > 0,
        ;
        let n = smaller(len - out.len(), u);
        let d = src@.subrange(at, at + n);
        assert(window(src@, at, n) =~= d);
        assert(src.fetch(at, n) == Some(d)) by {
            assert(!src.faulty(at, n));
        }
        let more = out + d;
        assert forall|q: int| 0 <= q < more.len() implies #[trigger] more[q] == src@[self.place(
            cs[q / self.unit()],
        ) + q % self.unit()] by {
            if q < out.len() {
                assert(more[q] == out[q]);
            } else {
                let p = q - i * u;
                assert(q / u == i && q % u == p) by (nonlinear_arith)
                    requires
                        q == i * u + p,
                        0 <= p < u,
                ;
                assert(more[q] == src@[at + p]);
            }
        }
        let next = self.next_open(bitmap, c as int);
        if i + 1 < cs.len() {
            assert((i + 1) * u <= (cs.len() - 1) * u) by (nonlinear_arith)
                requires
                    i + 1 <= cs.len() - 1,
                    u > 0,
            ;
            assert(cs[i] < cs[i + 1] && Self::is_open(bitmap, cs[i + 1] as int));
            assert forall|x: int| c < x < cs[i + 1] implies !#[trigger] Self::is_open(bitmap, x) by {
                assert(cs[i] < x < cs[i + 1]);
            }
            self.lemma_next_open_is(bitmap, c as int, cs[i + 1] as int);
            self.lemma_gathered(src, bitmap, follows, cs, len, i + 1, more, r);
        } else {
            reveal_with_fuel(Volume::gathers, 2);
            assert(more.len() == len);
            assert(r == Some(more));
        }
    }

    /// What is read of a deleted file that has lost its chain, and is not followed by its content, is the bytes of the first
    /// cluster and of those behind it that are not allocated, in their order, as many as the file had.
    pub proof fn law_lost_chain<F: Fn(&Vec<u8>, &Vec<u8>) -> bool>(
        &self,
        src: Source,
        bitmap: Option<Seq<u8>>,
        follows: F,
        cs: Seq<u32>,
        len: int,
        r: Option<Seq<u8>>,
    )
        requires
            self.wf(),
            src.intact(),
            self.are_open(bitmap, cs),
            forall|k: int| 0 <= k < cs.len() ==> self.place(#[trigger] cs[k]) + self.unit() <= src@.len(),
            (cs.len() - 1) * self.unit() < len <= cs.len() * self.unit(),
            self.gathers(
                src,
                bitmap,
                follows,
                Some(cs[0] as int),
                len,
                false,
                0,
                Seq::empty(),
                r,
            ),
        ensures
            r matches Some(d) && d.len() == len && self.is_from(src, cs, d),
    {
        assert(0 * self.unit() == 0) by (nonlinear_arith);
        self.lemma_gathered(src, bitmap, follows, cs, len, 0, Seq::empty(), r);
    }

    proof fn lemma_found_stay(&self, st: WalkState, dir: PendingView, items: Seq<ItemView>, n: int, m: int)
        requires
            0 <= m <= n <= items.len(),
        ensures
            self.after_items(st, dir, items, m).found.is_prefix_of(
                self.after_items(st, dir, items, n).found,
            ),
        decreases n - m,
    {
        let a = self.after_items(st, dir, items, m).found;
        let b = self.after_items(st, dir, items, n).found;
        if m < n {
            self.lemma_found_stay(st, dir, items, n - 1, m);
            let c = self.after_items(st, dir, items, n - 1).found;
            assert forall|i: int| 0 <= i < a.len() implies a[i] == b[i] by {
                assert(c.subrange(0, a.len() as int)[i] == c[i]);
            }
        }
        assert(a =~= b.subrange(0, a.len() as int));
    }

    /// Every deleted file that a directory lists is found, under the path of the directory and its name, with its first
    /// cluster, its length and its times; and so is every file of a directory that is deleted itself.
    pub proof fn law_listed_is_found(
        &self,
        st: WalkState,
        dir: PendingView,
        items: Seq<ItemView>,
        k: int,
        own: Seq<char>,
    )
        requires
            0 <= k < items.len(),
            !items[k].is_dir,
            items[k].deleted || dir.gone,
            own == crate::recover::sanitized(items[k].name),
        ensures
            self.after_items(st, dir, items, items.len() as int).found.contains(
                DeletedView {
                    path: if dir.path.len() == 0 {
                        own
                    } else {
                        dir.path + seq!['/'] + own
                    },
                    name: own,
                    first_cluster: items[k].first_cluster,
                    data_length: items[k].data_length,
                    no_fat_chain: items[k].no_fat_chain,
                    mtime: items[k].mtime,
                    atime: items[k].atime,
                },
            ),
    {
        reveal_strlit("/");
        assert("/"@ =~= seq!['/']);
        self.lemma_found_stay(st, dir, items, items.len() as int, k + 1);
        let before = self.after_items(st, dir, items, k).found;
        let after = self.after_items(st, dir, items, k + 1).found;
        let all = self.after_items(st, dir, items, items.len() as int).found;
        let at = before.len() as int;
        assert(after[at] == all.subrange(0, after.len() as int)[at]);
        assert(all[at] == after[at]);
    }
}

} // verus!
