//! What holds of every scan.

use crate::bytes::{capped, larger};
use crate::carver::engine::{
    enough, file_name, settled, signature_at, with_file, FileRecord, Run, ScanState, Verdict,
};
use crate::carver::scan::fresh_state;
use crate::hash::sha256;
use vstd::prelude::*;

verus! {

/// A recovered file is one that the bytes at a position between `from` and `to` announce; it lies in the
/// scan, keeps to the size limits and to the alignment, and its digest is that of its bytes.
pub open spec fn is_sound(c: Run, f: FileRecord, from: int, to: int) -> bool {
    &&& exists|pos: int|
        from <= pos < to && (#[trigger] c.candidate(pos) matches Some(x) && x.1 == f.offset && x.2
            == f.size)
    &&& 0 <= f.offset
    &&& 0 < f.size
    &&& f.offset + f.size <= c.end
    &&& f.size >= c.opts.min_size
    &&& c.opts.max_size matches Some(max) ==> f.size <= max
    &&& c.opts.align > 1 ==> f.offset % c.opts.align as int == 0
    &&& f.digest == sha256(c.s.subrange(f.offset, f.offset + f.size))
}

/// What the sizes of files add up to.
pub open spec fn total_size(list: Seq<FileRecord>) -> int
    decreases list.len(),
{
    if list.len() == 0 {
        0
    } else {
        total_size(list.drop_last()) + list.last().size
    }
}

/// Between two states one file more was recovered, which the bytes at `pos` announce.
pub open spec fn gains(c: Run, st: ScanState, next: ScanState, pos: int) -> bool {
    let f = next.tally.list.last();
    &&& next.tally.list == st.tally.list.push(f)
    &&& is_sound(c, f, pos, pos + 1)
    &&& f.name == file_name(st.tally.files as nat, f.offset as nat, f.ext, c.opts.organize)
    &&& next.tally.files == capped(st.tally.files + 1)
    &&& next.tally.bytes == capped(st.tally.bytes + f.size)
    &&& next.full == enough(c.opts, next.tally)
    &&& c.opts.dedup ==> !st.seen.contains(f.digest) && next.seen == st.seen.insert(f.digest)
    &&& !c.opts.dedup ==> next.seen == st.seen
    &&& !c.opts.allow_nested ==> f.offset >= st.skip_until && (next.skip_until == f.offset + f.size
        || next.skip_until == st.skip_until)
    &&& next.skip_until == st.skip_until || next.skip_until == f.offset + f.size
    &&& (!c.opts.allow_nested && (forall|k: int|
        0 <= k < c.sigs.len() ==> !(#[trigger] c.sigs[k]).volume)) ==> next.skip_until == f.offset
        + f.size
}

/// Between two states no file was recovered.
pub open spec fn stays(c: Run, st: ScanState, next: ScanState) -> bool {
    &&& next.tally.list == st.tally.list
    &&& next.tally.files == st.tally.files
    &&& next.tally.bytes == st.tally.bytes
    &&& next.seen == st.seen
    &&& next.full ==> st.full || enough(c.opts, next.tally)
}

/// The bytes of a signature are those of one of the signatures.
proof fn lemma_signature_at(c: Run, pos: int, k: int)
    requires
        0 <= k,
    ensures
        signature_at(c.sigs, c.s, c.end, pos, k) matches Some(j) ==> k <= j < c.sigs.len(),
    decreases c.sigs.len() - k,
{
    if k < c.sigs.len() {
        lemma_signature_at(c, pos, k + 1);
    }
}

/// At every position one file is recovered or none, and where files may start never goes back. Candidates
/// are rejected only where headers are checked, and count as duplicates or as too large only where
/// duplicates are dropped or sizes are capped.
pub proof fn law_step(c: Run, st: ScanState, pos: int, v: Verdict)
    ensures
        gains(c, st, c.after(st, pos, v), pos) || stays(c, st, c.after(st, pos, v)),
        c.after(st, pos, v).skip_until >= st.skip_until,
        !c.opts.validate ==> c.after(st, pos, v).tally.rejected == st.tally.rejected,
        !c.opts.dedup ==> c.after(st, pos, v).tally.duplicates == st.tally.duplicates,
        c.opts.max_size is None ==> c.after(st, pos, v).tally.large == st.tally.large,
{
    reveal(Run::after);
    match c.candidate(pos) {
        Some((k, start, len)) if c.eligible(st, start) => {
            lemma_signature_at(c, pos, 0);
            let sig = c.sigs[k];
            let next = settled(c.s, c.opts, st, sig, start, len, v);
            let d = sha256(c.s.subrange(start, start + len));
            if c.opts.max_size matches Some(max) && len > max {
            } else if c.opts.validate && !v.accept {
            } else if c.opts.dedup && st.seen.contains(d) {
                assert(st.seen.insert(d) =~= st.seen);
            } else {
                let f = next.tally.list.last();
                assert(next.tally == with_file(c.s, c.opts, st.tally, v.ext, start, len));
                assert(next.tally.list =~= st.tally.list.push(f));
                assert(c.candidate(pos) matches Some(x) && x.1 == f.offset && x.2 == f.size);
            }
        },
        _ => {},
    }
}

/// Every file of a scan is one that the bytes of the scan announce; it lies in the scan, keeps to the size
/// limits and to the alignment, and its digest is that of its bytes.
pub proof fn law_files_sound(
    c: Run,
    seen: Set<Seq<u8>>,
    from: int,
    to: int,
    v: Map<int, Verdict>,
)
    ensures
        ({
            let list = c.scanned(fresh_state(seen), from, to, v).tally.list;
            forall|i: int| 0 <= i < list.len() ==> is_sound(c, #[trigger] list[i], from, to)
        }),
    decreases to - from,
{
    if from < to {
        law_files_sound(c, seen, from, to - 1, v);
        let old = c.scanned(fresh_state(seen), from, to - 1, v);
        let st = c.scanned(fresh_state(seen), from, to, v);
        assert forall|f: FileRecord| #[trigger] is_sound(c, f, from, to - 1) implies is_sound(
            c,
            f,
            from,
            to,
        ) by {}
        if !old.full {
            law_step(c, old, to - 1, v[to - 1]);
            if gains(c, old, st, to - 1) {
                let f = st.tally.list.last();
                assert(is_sound(c, f, from, to));
                assert forall|i: int| 0 <= i < st.tally.list.len() implies is_sound(
                    c,
                    #[trigger] st.tally.list[i],
                    from,
                    to,
                ) by {
                    if i < old.tally.list.len() {
                        assert(is_sound(c, old.tally.list[i], from, to - 1));
                    }
                }
            }
        }
    }
}

/// The tally counts the files and their bytes, and files are numbered in the order in which they are found,
/// and named by number, offset and extension. No more files are recovered than were asked for, and the scan
/// is over when they are (asked for none, it still ends with the first).
pub proof fn law_files_counted(
    c: Run,
    seen: Set<Seq<u8>>,
    from: int,
    to: int,
    v: Map<int, Verdict>,
)
    requires
        to - from <= u64::MAX,
    ensures
        ({
            let st = c.scanned(fresh_state(seen), from, to, v);
            let list = st.tally.list;
            &&& st.tally.files == list.len() <= larger(to - from, 0)
            &&& st.tally.bytes == capped(total_size(list))
            &&& total_size(list) >= 0
            &&& forall|i: int|
                0 <= i < list.len() ==> (#[trigger] list[i]).name == file_name(
                    i as nat,
                    list[i].offset as nat,
                    list[i].ext,
                    c.opts.organize,
                )
            &&& match c.opts.max_files {
                Some(max) => {
                    &&& list.len() <= larger(max as int, 1)
                    &&& st.full ==> list.len() >= max
                    &&& list.len() > 0 && list.len() >= max ==> st.full
                },
                None => !st.full,
            }
        }),
    decreases to - from,
{
    if from < to {
        law_files_counted(c, seen, from, to - 1, v);
        let old = c.scanned(fresh_state(seen), from, to - 1, v);
        let st = c.scanned(fresh_state(seen), from, to, v);
        if !old.full {
            law_step(c, old, to - 1, v[to - 1]);
            if gains(c, old, st, to - 1) {
                assert(st.tally.list.drop_last() =~= old.tally.list);
            }
        }
    }
}

/// Where duplicates are dropped, no two files of a scan have the same digest, and none has that of content
/// that was recovered elsewhere.
pub proof fn law_files_distinct(
    c: Run,
    seen: Set<Seq<u8>>,
    from: int,
    to: int,
    v: Map<int, Verdict>,
)
    requires
        c.opts.dedup,
    ensures
        ({
            let st = c.scanned(fresh_state(seen), from, to, v);
            let list = st.tally.list;
            &&& seen.subset_of(st.seen)
            &&& forall|i: int|
                0 <= i < list.len() ==> !seen.contains((#[trigger] list[i]).digest)
                    && st.seen.contains(list[i].digest)
            &&& forall|i: int, j: int|
                0 <= i < j < list.len() ==> (#[trigger] list[i]).digest != (
                #[trigger] list[j]).digest
        }),
    decreases to - from,
{
    if from < to {
        law_files_distinct(c, seen, from, to - 1, v);
        let old = c.scanned(fresh_state(seen), from, to - 1, v);
        let st = c.scanned(fresh_state(seen), from, to, v);
        if !old.full {
            law_step(c, old, to - 1, v[to - 1]);
        }
    }
}

/// Unless nested files are looked for, or file systems, whose files are found in them, the files of a scan
/// come in the order in which they lie in the image, and no two overlap.
pub proof fn law_files_apart(
    c: Run,
    seen: Set<Seq<u8>>,
    from: int,
    to: int,
    v: Map<int, Verdict>,
)
    requires
        !c.opts.allow_nested,
        forall|k: int| 0 <= k < c.sigs.len() ==> !(#[trigger] c.sigs[k]).volume,
    ensures
        ({
            let st = c.scanned(fresh_state(seen), from, to, v);
            let list = st.tally.list;
            &&& forall|i: int|
                0 <= i < list.len() ==> (#[trigger] list[i]).offset + list[i].size <= st.skip_until
            &&& forall|i: int, j: int|
                0 <= i < j < list.len() ==> (#[trigger] list[i]).offset + list[i].size <= (
                #[trigger] list[j]).offset
        }),
    decreases to - from,
{
    if from < to {
        law_files_apart(c, seen, from, to - 1, v);
        let old = c.scanned(fresh_state(seen), from, to - 1, v);
        let st = c.scanned(fresh_state(seen), from, to, v);
        if !old.full {
            law_step(c, old, to - 1, v[to - 1]);
        }
    }
}

} // verus!
