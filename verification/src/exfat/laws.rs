//! What holds of every directory and file that is read.

use crate::bytes::smaller;
use crate::exfat::{Volume, MAX_DIR_BYTES};
use crate::source::{window, Source};
use vstd::prelude::*;

verus! {

impl Volume {
    /// The size of a cluster, by the sectors it has.
    pub open spec fn unit(&self) -> int {
        self.sectors_per_cluster * self.bytes_per_sector
    }

    /// Where a cluster begins in the image: the first one has the number 2.
    pub open spec fn place(&self, c: u32) -> int {
        self.offset + self.cluster_heap_offset_sectors * self.bytes_per_sector + (c - 2) * self.unit()
    }

    /// The four bytes of the FAT that say what follows a cluster.
    pub open spec fn link(&self, src: Source, c: u32) -> int {
        let at = self.offset + self.fat_offset_sectors * self.bytes_per_sector + 4 * c;
        src@[at] + 0x100 * src@[at + 1] + 0x1_0000 * src@[at + 2] + 0x100_0000 * src@[at + 3]
    }

    /// Clusters of the volume that the FAT chains, each once, in an image that has them and their entries, and all of
    /// which could be read. The FAT says of the last that there is none behind it.
    pub open spec fn is_chain(&self, src: Source, chain: Seq<u32>) -> bool {
        &&& src.intact()
        &&& chain.len() > 0
        &&& chain.no_duplicates()
        &&& forall|i: int|
            0 <= i < chain.len() ==> {
                let c = #[trigger] chain[i];
                &&& 2 <= c <= self.cluster_count + 1
                &&& c != 0xFFFF_FFF7 && c != 0xFFFF_FFFF
                &&& self.place(c) + self.unit() <= src@.len()
                &&& self.offset + self.fat_offset_sectors * self.bytes_per_sector + 4 * c + 4
                    <= src@.len()
            }
        &&& forall|i: int, j: int|
            0 <= i && j == i + 1 && j < chain.len() ==> self.link(src, #[trigger] chain[i])
                == #[trigger] chain[j]
        &&& self.link(src, chain.last()) == 0xFFFF_FFFF
    }

    /// Bytes are those of the clusters of a chain, one after another.
    pub open spec fn is_from(&self, src: Source, chain: Seq<u32>, b: Seq<u8>) -> bool {
        forall|q: int|
            0 <= q < b.len() ==> #[trigger] b[q] == src@[self.place(chain[q / self.unit()]) + q
                % self.unit()]
    }

    /// What the FAT says of a cluster of a chain.
    proof fn lemma_link(&self, src: Source, chain: Seq<u32>, i: int)
        requires
            self.wf(),
            self.is_chain(src, chain),
            0 <= i < chain.len(),
        ensures
            self.is_cluster(chain[i]),
            self.cluster_pos(chain[i]) == self.place(chain[i]),
            self.cluster_len() == self.unit(),
            0 <= self.place(chain[i]),
            512 <= self.unit() <= 0x200_0000,
            i + 1 < chain.len() ==> self.next(src, chain[i]) == Some(Some(chain[i + 1])),
            i + 1 == chain.len() ==> self.next(src, chain[i]) == Some(None::<u32>),
            src.fetch(self.cluster_pos(chain[i]), self.cluster_len()) == Some(
                src@.subrange(self.place(chain[i]), self.place(chain[i]) + self.unit()),
            ),
    {
        let c = chain[i];
        self.lemma_bounds(c - 2);
        self.lemma_bounds(0);
        let at = self.offset + self.fat_offset_sectors * self.bytes_per_sector + c * 4;
        assert(self.fat_offset_sectors * self.bytes_per_sector >= 0) by (nonlinear_arith);
        assert(self.cluster_heap_offset_sectors * self.bytes_per_sector >= 0) by (nonlinear_arith);
        assert((c - 2) * self.unit() >= 0) by (nonlinear_arith)
            requires
                c >= 2,
                self.unit() >= 0,
        ;
        let d = src@.subrange(at, at + 4);
        assert(src.fetch(at, 4) == Some(d));
        assert(crate::bytes::le32(d, 0) == self.link(src, c));
        if i + 1 < chain.len() {
            assert(self.link(src, chain[i]) == chain[i + 1]);
        }
    }

    /// The clusters of a chain that have been passed.
    spec fn before(chain: Seq<u32>, n: int) -> Set<u32> {
        chain.take(n).to_set()
    }

    proof fn lemma_before(chain: Seq<u32>, n: int)
        requires
            chain.no_duplicates(),
            0 <= n < chain.len(),
        ensures
            Self::before(chain, n).finite(),
            !Self::before(chain, n).contains(chain[n]),
            Self::before(chain, n).insert(chain[n]) == Self::before(chain, n + 1),
            Self::before(chain, 0) == Set::<u32>::empty(),
    {
        vstd::seq_lib::seq_to_set_is_finite(chain.take(n));
        assert(chain.take(n + 1) =~= chain.take(n).push(chain[n]));
        let a = Self::before(chain, n).insert(chain[n]);
        let b = Self::before(chain, n + 1);
        assert forall|x: u32| a.contains(x) == b.contains(x) by {
            if b.contains(x) {
                let k = choose|k: int| 0 <= k < n + 1 && #[trigger] chain.take(n + 1)[k] == x;
                if k < n {
                    assert(chain.take(n)[k] == x);
                }
            }
            if Self::before(chain, n).contains(x) {
                let k = choose|k: int| 0 <= k < n && #[trigger] chain.take(n)[k] == x;
                assert(chain.take(n + 1)[k] == x);
            }
            assert(chain.take(n + 1)[n] == chain[n]);
        }
        assert(a =~= b);
        assert(chain.take(0).to_set() =~= Set::<u32>::empty());
    }

    /// One more cluster.
    proof fn lemma_one_more(&self, src: Source, chain: Seq<u32>, i: int, n: int, b: Seq<u8>)
        requires
            self.wf(),
            self.is_chain(src, chain),
            0 <= i < chain.len(),
            b.len() == i * self.unit(),
            0 <= n <= self.unit(),
            self.is_from(src, chain, b),
        ensures
            ({
                let at = self.place(chain[i]);
                &&& self.is_from(src, chain, b + src@.subrange(at, at + n))
                &&& (b + src@.subrange(at, at + n)).len() == b.len() + n
                &&& (i + 1) * self.unit() == i * self.unit() + self.unit()
            }),
    {
        self.lemma_link(src, chain, i);
        let u = self.unit();
        let at = self.place(chain[i]);
        let more = b + src@.subrange(at, at + n);
        assert((i + 1) * u == i * u + u) by (nonlinear_arith);
        assert forall|q: int| 0 <= q < more.len() implies #[trigger] more[q] == src@[self.place(
            chain[q / self.unit()],
        ) + q % self.unit()] by {
            if q < b.len() {
                assert(more[q] == b[q]);
            } else {
                let p = q - i * u;
                assert(q / u == i && q % u == p) by (nonlinear_arith)
                    requires
                        q == i * u + p,
                        0 <= p < u,
                ;
                assert(more[q] == src@[at + p]);
            }
        }
    }

    proof fn lemma_chain(&self, src: Source, chain: Seq<u32>, limit: Option<u64>, i: int, b: Seq<u8>)
        requires
            self.wf(),
            self.is_chain(src, chain),
            0 <= i < chain.len(),
            chain.len() * self.unit() <= MAX_DIR_BYTES,
            b.len() == i * self.unit(),
            self.is_from(src, chain, b),
            limit matches Some(n) ==> b.len() < n <= chain.len() * self.unit(),
        ensures
            self.chain_from(src, chain[i], limit, Self::before(chain, i), b) matches Some(d)
                && self.is_from(src, chain, d) && d.len() == match limit {
                Some(n) => n as int,
                None => chain.len() * self.unit(),
            },
        decreases chain.len() - i,
    {
        self.lemma_link(src, chain, i);
        Self::lemma_before(chain, i);
        self.lemma_one_more(src, chain, i, self.unit(), b);
        let u = self.unit();
        assert((i + 1) * u <= chain.len() * u) by (nonlinear_arith)
            requires
                i + 1 <= chain.len(),
                u > 0,
        ;
        let d = src@.subrange(self.place(chain[i]), self.place(chain[i]) + u);
        if limit matches Some(n) && (b + d).len() >= n {
            let t = (b + d).take(limit->Some_0 as int);
            assert forall|q: int| 0 <= q < t.len() implies #[trigger] t[q] == src@[self.place(
                chain[q / self.unit()],
            ) + q % self.unit()] by {
                assert(t[q] == (b + d)[q]);
            }
        } else if i + 1 < chain.len() {
            self.lemma_chain(src, chain, limit, i + 1, b + d);
        }
    }

    /// What is read of a directory along its chain of clusters is all their bytes, in the order of the chain: byte `q` is
    /// in the cluster that as many whole ones come before, as far from its beginning. It is as long as the clusters are
    /// together, or, where the length is given, as long as that.
    pub proof fn law_directory_is_its_clusters(&self, src: Source, chain: Seq<u32>, limit: Option<u64>)
        requires
            self.wf(),
            self.is_chain(src, chain),
            chain.len() * self.unit() <= 0x400_0000,
            limit matches Some(n) ==> 0 < n <= chain.len() * self.unit(),
        ensures
            self.directory(src, chain[0], limit, false) matches Some(d) && self.is_from(src, chain, d)
                && d.len() == match limit {
                Some(n) => n as int,
                None => chain.len() * self.unit(),
            },
    {
        Self::lemma_before(chain, 0);
        assert(0 * self.unit() == 0) by (nonlinear_arith);
        self.lemma_chain(src, chain, limit, 0, Seq::empty());
    }

    /// The first cluster of a chain is the beginning of the directory, and the clusters behind it are the rest.
    pub proof fn law_first_cluster_comes_first(&self, src: Source, chain: Seq<u32>, d: Seq<u8>)
        requires
            self.wf(),
            self.is_chain(src, chain),
            chain.len() * self.unit() <= 0x400_0000,
            self.directory(src, chain[0], None, false) == Some(d),
        ensures
            d.len() >= self.unit(),
            d.take(self.unit()) == src@.subrange(
                self.place(chain[0]),
                self.place(chain[0]) + self.unit(),
            ),
    {
        self.law_directory_is_its_clusters(src, chain, None);
        self.lemma_link(src, chain, 0);
        let u = self.unit();
        assert(chain.len() * u >= u) by (nonlinear_arith)
            requires
                chain.len() >= 1,
                u > 0,
        ;
        let s = src@.subrange(self.place(chain[0]), self.place(chain[0]) + u);
        assert forall|q: int| 0 <= q < u implies d.take(u)[q] == s[q] by {
            assert(q / u == 0 && q % u == q) by (nonlinear_arith)
                requires
                    0 <= q < u,
            ;
            assert(d[q] == src@[self.place(chain[q / self.unit()]) + q % self.unit()]);
        }
        assert(d.take(u) =~= s);
    }

    /// What is read of a directory or of a file that is stored in one piece is what the image holds from its first
    /// cluster on.
    pub proof fn law_one_piece<F: Fn(&Vec<u8>, &Vec<u8>) -> bool>(
        &self,
        src: Source,
        bitmap: Option<Seq<u8>>,
        follows: F,
        f: crate::exfat::undelete::DeletedView,
        first: u32,
        n: u64,
        r: Option<Seq<u8>>,
    )
        requires
            self.wf(),
            src.intact(),
            2 <= first,
            self.place(first) + n <= src@.len(),
            n <= 0x400_0000,
        ensures
            self.directory(src, first, Some(n), true) == Some(
                src@.subrange(self.place(first), self.place(first) + n),
            ),
            f.no_fat_chain && f.first_cluster == first && f.data_length == n && self.reads(
                src,
                bitmap,
                follows,
                f,
                r,
            ) ==> r == Some(src@.subrange(self.place(first), self.place(first) + n)),
    {
        self.lemma_bounds(first - 2);
        let at = self.place(first);
        assert(self.cluster_heap_offset_sectors * self.bytes_per_sector >= 0) by (nonlinear_arith);
        assert((first - 2) * self.unit() >= 0) by (nonlinear_arith)
            requires
                first >= 2,
                self.unit() >= 0,
        ;
        assert(self.cluster_pos(first) == at);
        assert(window(src@, at, n as int) =~= src@.subrange(at, at + n));
        assert(src.fetch(at, n as int) == Some(src@.subrange(at, at + n)));
    }

    proof fn lemma_file_chain(&self, src: Source, chain: Seq<u32>, len: int, i: int, b: Seq<u8>)
        requires
            self.wf(),
            self.is_chain(src, chain),
            0 <= i < chain.len(),
            b.len() == i * self.unit(),
            self.is_from(src, chain, b),
            b.len() < len,
        ensures
            self.chained(src, chain[i], len, Self::before(chain, i), b) matches Some(d) && self.is_from(
                src,
                chain,
                d,
            ) && d.len() == smaller(len, chain.len() * self.unit()),
        decreases chain.len() - i,
    {
        self.lemma_link(src, chain, i);
        Self::lemma_before(chain, i);
        let u = self.unit();
        let n = smaller(len - b.len(), u);
        self.lemma_one_more(src, chain, i, n, b);
        assert((i + 1) * u <= chain.len() * u) by (nonlinear_arith)
            requires
                i + 1 <= chain.len(),
                u > 0,
        ;
        let at = self.place(chain[i]);
        let d = src@.subrange(at, at + n);
        assert(window(src@, at, n) =~= d);
        assert(src.fetch(self.cluster_pos(chain[i]), n) == Some(d)) by {
            assert(!src.faulty(at, n));
        }
        if i + 1 < chain.len() {
            Self::lemma_before(chain, i + 1);
            if (b + d).len() < len {
                self.lemma_file_chain(src, chain, len, i + 1, b + d);
            } else {
                assert(self.chained(src, chain[i + 1], len, Self::before(chain, i + 1), b + d) == Some(
                    b + d,
                ));
            }
        }
    }

    /// What is read of a deleted file that has a chain of clusters which is long enough is their bytes, in the order of
    /// the chain, as many as the file had.
    pub proof fn law_chained_file<F: Fn(&Vec<u8>, &Vec<u8>) -> bool>(
        &self,
        src: Source,
        bitmap: Option<Seq<u8>>,
        follows: F,
        f: crate::exfat::undelete::DeletedView,
        chain: Seq<u32>,
        r: Option<Seq<u8>>,
    )
        requires
            self.wf(),
            self.is_chain(src, chain),
            !f.no_fat_chain,
            f.first_cluster == chain[0],
            0 < f.data_length <= chain.len() * self.unit(),
            self.reads(src, bitmap, follows, f, r),
        ensures
            r matches Some(d) && d.len() == f.data_length && self.is_from(src, chain, d),
    {
        Self::lemma_before(chain, 0);
        assert(0 * self.unit() == 0) by (nonlinear_arith);
        self.lemma_file_chain(src, chain, f.data_length as int, 0, Seq::empty());
    }
}

} // verus!
