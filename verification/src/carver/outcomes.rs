//! What holds of the outcomes of two scans.

use crate::carver::checkpoint::{checkpoint_text, nothing_saved, saved_in, with_lines};
use crate::carver::engine::{
    approves, digests, files_under, law_scan_in_parts, lemma_same_types, may_answer, outcome,
    record, tally, type_counts, CarveOptions, CarveStats, Checkpoint, ProgressSink, Run, ScanState,
    Tally, Verdict, HEADER_LEN, HEAD_LEN,
};
use crate::carver::restore::{
    alike, is_listable, is_one_line, law_checkpoint_restores, law_completed_scan,
    law_counts_restored, law_resumed_scan, lemma_scanned_alike,
};
use crate::carver::scan::{
    blocked_at, broke_off, carved, chunk_read, fails_at, first_pos, first_state, fresh_state,
    got_through, lemma_full, lemma_max_offset, lemma_max_reach_sign, reports, run_of, scan_end, scan_start,
    unread, Scan,
};
use crate::signatures::Signature;
use crate::source::Source;
use vstd::prelude::*;
use vstd::utf8::*;

verus! {

/// Options under which the same is looked for: they differ at most in where files are written, in whether they are, in
/// whether progress is reported, and in checkpoints.
pub open spec fn same_aim(a: CarveOptions, b: CarveOptions) -> bool {
    &&& a.start == b.start
    &&& a.end == b.end
    &&& a.min_size == b.min_size
    &&& a.max_size == b.max_size
    &&& a.max_files == b.max_files
    &&& a.allow_nested == b.allow_nested
    &&& a.validate == b.validate
    &&& a.dedup == b.dedup
    &&& a.organize == b.organize
    &&& a.align == b.align
}

/// Options under which a scan finds the same: they differ at most in where files are written, in whether they
/// are, and in whether progress is reported.
pub open spec fn same_search(a: CarveOptions, b: CarveOptions) -> bool {
    &&& same_aim(a, b)
    &&& a.resume == b.resume
    &&& a.checkpoint is Some == b.checkpoint is Some
}

/// Two scans over the same image, by the same signatures, under options that do not differ in what is found.
spec fn same_run(c: Run, d: Run) -> bool {
    &&& c.s == d.s
    &&& c.sigs == d.sigs
    &&& c.end == d.end
    &&& same_aim(c.opts, d.opts)
}

/// Two states that differ at most in digests that nothing is held against.
spec fn near(a: ScanState, b: ScanState, dedup: bool) -> bool {
    &&& a.skip_until == b.skip_until
    &&& a.tally == b.tally
    &&& a.full == b.full
    &&& dedup ==> a.seen == b.seen
}

/// The bytes at a position announce the same file to both scans.
proof fn lemma_same_candidate(c: Run, d: Run, pos: int)
    requires
        same_run(c, d),
    ensures
        c.candidate(pos) == d.candidate(pos),
{
    reveal(Run::length_at);
}

/// Two scans that are given the same answers find the same.
proof fn lemma_near(
    c: Run,
    d: Run,
    s: ScanState,
    t: ScanState,
    from: int,
    to: int,
    v: Map<int, Verdict>,
)
    requires
        same_run(c, d),
        near(s, t, c.opts.dedup),
    ensures
        near(c.scanned(s, from, to, v), d.scanned(t, from, to, v), c.opts.dedup),
    decreases to - from,
{
    if from < to {
        lemma_near(c, d, s, t, from, to - 1, v);
        lemma_same_candidate(c, d, to - 1);
        reveal(Run::after);
    }
}

/// Two scans go over the same chunks.
proof fn lemma_same_chunks(c: Run, d: Run, from: int, n: nat)
    requires
        same_run(c, d),
    ensures
        c.chunks_end(from, n) == d.chunks_end(from, n),
    decreases n,
{
    if n > 0 {
        lemma_same_chunks(c, d, from, (n - 1) as nat);
    }
}

/// The sink is told the same of two scans that differ in nothing that matters.
proof fn lemma_same_reports(
    source: Source,
    active: Seq<Signature>,
    opts: CarveOptions,
    other: CarveOptions,
    seed: Seq<[u8; 32]>,
    other_seed: Seq<[u8; 32]>,
    saved: Option<Checkpoint>,
    n: nat,
    v: Map<int, Verdict>,
)
    requires
        same_search(opts, other),
        opts.dedup ==> digests(seed) == digests(other_seed),
    ensures
        reports(source, active, opts, seed, saved, n, v) == reports(
            source,
            active,
            other,
            other_seed,
            saved,
            n,
            v,
        ),
{
    let c = run_of(source, active, opts);
    let d = run_of(source, active, other);
    let s = first_state(opts, seed, saved);
    let t = first_state(other, other_seed, saved);
    let from = first_pos(opts, source@.len() as int, saved);
    lemma_same_chunks(c, d, from, n);
    lemma_near(c, d, s, t, from, c.chunks_end(from, n), v);
    assert forall|m: nat| #[trigger] c.chunks_end(from, m) == d.chunks_end(from, m) by {
        lemma_same_chunks(c, d, from, m);
    }
    assert(reports(source, active, opts, seed, saved, n, v) =~= reports(
        source,
        active,
        other,
        other_seed,
        saved,
        n,
        v,
    ));
}

/// Whatever one call may come to, so may one that differs in nothing that matters.
proof fn lemma_may_come_to<
    P: ProgressSink,
    A: Fn(&Signature, &Vec<u8>) -> bool,
    K: Fn(&str, &Vec<u8>) -> Option<String>,
>(
    source: Source,
    active: Seq<Signature>,
    opts: CarveOptions,
    other: CarveOptions,
    progress: P,
    accepts: A,
    classify: K,
    seed: Seq<[u8; 32]>,
    other_seed: Seq<[u8; 32]>,
    saved: Option<Checkpoint>,
    n: nat,
    v: Map<int, Verdict>,
    stats: CarveStats,
)
    requires
        same_search(opts, other),
        opts.dedup ==> digests(seed) == digests(other_seed),
        carved(source, active, opts, progress, accepts, classify, seed, saved, n, v, stats),
    ensures
        carved(source, active, other, progress, accepts, classify, other_seed, saved, n, v, stats),
{
    let size = source@.len() as int;
    let c = run_of(source, active, opts);
    let d = run_of(source, active, other);
    let s = first_state(opts, seed, saved);
    let t = first_state(other, other_seed, saved);
    let from = first_pos(opts, size, saved);
    assert(first_pos(other, size, saved) == from);
    assert(near(s, t, opts.dedup));
    assert forall|p: int| from <= p < d.chunks_end(from, n) implies #[trigger] d.answered(
        accepts,
        classify,
        d.scanned(t, from, p, v),
        p,
        v[p],
    ) by {
        lemma_same_chunks(c, d, from, n);
        assert(c.answered(accepts, classify, c.scanned(s, from, p, v), p, v[p]));
        lemma_near(c, d, s, t, from, p, v);
        lemma_same_candidate(c, d, p);
    }
    assert forall|m: nat| m < n implies #[trigger] d.chunks_end(from, m) < d.end && !d.scanned(
        t,
        from,
        d.chunks_end(from, m),
        v,
    ).full by {
        lemma_same_chunks(c, d, from, m);
        assert(c.chunks_end(from, m) < c.end);
        lemma_near(c, d, s, t, from, c.chunks_end(from, m), v);
    }
    lemma_same_chunks(c, d, from, n);
    lemma_near(c, d, s, t, from, c.chunks_end(from, n), v);
    if n > 0 {
        lemma_same_chunks(c, d, from, (n - 1) as nat);
    }
    lemma_same_reports(source, active, opts, other, seed, other_seed, saved, n, v);
}

/// What a scan may come to does not depend on where files are written, on whether they are (a dry run may come to
/// what a real one may), on whether progress is reported, nor, unless duplicates are dropped, on content that
/// was recovered elsewhere.
pub proof fn law_what_matters<
    P: ProgressSink,
    A: Fn(&Signature, &Vec<u8>) -> bool,
    K: Fn(&str, &Vec<u8>) -> Option<String>,
>(
    source: Source,
    active: Seq<Signature>,
    opts: CarveOptions,
    other: CarveOptions,
    progress: P,
    accepts: A,
    classify: K,
    seed: Seq<[u8; 32]>,
    other_seed: Seq<[u8; 32]>,
    saved: Option<Checkpoint>,
    n: nat,
    v: Map<int, Verdict>,
    stats: CarveStats,
)
    requires
        same_search(opts, other),
        opts.dedup ==> digests(seed) == digests(other_seed),
    ensures
        carved(source, active, opts, progress, accepts, classify, seed, saved, n, v, stats)
            == carved(
            source,
            active,
            other,
            progress,
            accepts,
            classify,
            other_seed,
            saved,
            n,
            v,
            stats,
        ),
{
    if carved(source, active, opts, progress, accepts, classify, seed, saved, n, v, stats) {
        lemma_may_come_to(
            source,
            active,
            opts,
            other,
            progress,
            accepts,
            classify,
            seed,
            other_seed,
            saved,
            n,
            v,
            stats,
        );
    }
    if carved(
        source,
        active,
        other,
        progress,
        accepts,
        classify,
        other_seed,
        saved,
        n,
        v,
        stats,
    ) {
        lemma_may_come_to(
            source,
            active,
            other,
            opts,
            progress,
            accepts,
            classify,
            other_seed,
            seed,
            saved,
            n,
            v,
            stats,
        );
    }
}

/// What an answer says.
pub open spec fn answer_view(r: Option<String>) -> Option<Seq<char>> {
    match r {
        Some(e) => Some(e@),
        None => None,
    }
}

/// `accepts`, `classify` and the sink give the same answer whenever they are asked the same.
pub open spec fn steady<
    P: ProgressSink,
    A: Fn(&Signature, &Vec<u8>) -> bool,
    K: Fn(&str, &Vec<u8>) -> Option<String>,
>(progress: P, accepts: A, classify: K) -> bool {
    &&& forall|sig: &Signature, g: &Vec<u8>, h: &Vec<u8>, a: bool, b: bool|
        g@ == h@ && #[trigger] call_ensures(accepts, (sig, g), a) && #[trigger] call_ensures(
            accepts,
            (sig, h),
            b,
        ) ==> a == b
    &&& forall|e: &str, g: &Vec<u8>, h: &Vec<u8>, a: Option<String>, b: Option<String>|
        g@ == h@ && #[trigger] call_ensures(classify, (e, g), a) && #[trigger] call_ensures(
            classify,
            (e, h),
            b,
        ) ==> answer_view(a) == answer_view(b)
    &&& !(may_answer(progress, true) && may_answer(progress, false))
}

/// One position of a scan leads to one state.
proof fn lemma_same_step<
    P: ProgressSink,
    A: Fn(&Signature, &Vec<u8>) -> bool,
    K: Fn(&str, &Vec<u8>) -> Option<String>,
>(
    c: Run,
    progress: P,
    accepts: A,
    classify: K,
    st: ScanState,
    pos: int,
    v: Verdict,
    w: Verdict,
)
    requires
        steady(progress, accepts, classify),
        !st.full,
        c.answered(accepts, classify, st, pos, v),
        c.answered(accepts, classify, st, pos, w),
    ensures
        c.after(st, pos, v) == c.after(st, pos, w),
{
    reveal(Run::after);
    match c.candidate(pos) {
        Some((k, start, len)) if c.eligible(st, start) && !c.is_over(len) => {
            let sig = c.sigs[k];
            let header = c.beginning(start, len, HEADER_LEN as int);
            let head = c.beginning(start, len, HEAD_LEN as int);
            if c.opts.validate {
                let g = choose|h: &Vec<u8>| h@ == header && call_ensures(accepts, (&sig, h), v.accept);
                let h = choose|h: &Vec<u8>| h@ == header && call_ensures(accepts, (&sig, h), w.accept);
                assert(call_ensures(accepts, (&sig, g), v.accept));
                assert(call_ensures(accepts, (&sig, h), w.accept));
                assert(v.accept == w.accept);
            }
            if !c.opts.validate || v.accept {
                assert(files_under(classify, sig, head, v.ext));
                assert(files_under(classify, sig, head, w.ext));
                assert(v.ext == w.ext);
            }
        },
        _ => {},
    }
}

/// A scan that is given steady answers goes one way.
proof fn lemma_one_way<
    P: ProgressSink,
    A: Fn(&Signature, &Vec<u8>) -> bool,
    K: Fn(&str, &Vec<u8>) -> Option<String>,
>(
    c: Run,
    progress: P,
    accepts: A,
    classify: K,
    st: ScanState,
    from: int,
    to: int,
    v: Map<int, Verdict>,
    w: Map<int, Verdict>,
)
    requires
        steady(progress, accepts, classify),
        c.heard(accepts, classify, st, from, to, v),
        c.heard(accepts, classify, st, from, to, w),
    ensures
        c.scanned(st, from, to, v) == c.scanned(st, from, to, w),
    decreases to - from,
{
    if from < to {
        lemma_one_way(c, progress, accepts, classify, st, from, to - 1, v, w);
        let before = c.scanned(st, from, to - 1, v);
        assert(c.answered(accepts, classify, c.scanned(st, from, to - 1, v), to - 1, v[to - 1]));
        assert(c.answered(accepts, classify, c.scanned(st, from, to - 1, w), to - 1, w[to - 1]));
        if !before.full {
            lemma_same_step(c, progress, accepts, classify, before, to - 1, v[to - 1], w[to - 1]);
        }
    }
}

/// More chunks reach further.
proof fn lemma_chunks_grow(c: Run, from: int, n: nat, m: nat)
    requires
        from <= c.end,
        n <= m,
    ensures
        from <= c.chunks_end(from, n) <= c.chunks_end(from, m) <= c.end,
    decreases m,
{
    lemma_max_offset(c.sigs, c.sigs.len() as int);
    lemma_max_reach_sign(c.sigs, c.sigs.len() as int);
    if n < m {
        lemma_chunks_grow(c, from, n, (m - 1) as nat);
    } else if m > 0 {
        lemma_chunks_grow(c, from, (n - 1) as nat, (m - 1) as nat);
    }
}

/// Of two runs with steady answers neither goes on where the other has ended.
proof fn lemma_no_longer<
    P: ProgressSink,
    A: Fn(&Signature, &Vec<u8>) -> bool,
    K: Fn(&str, &Vec<u8>) -> Option<String>,
>(
    source: Source,
    active: Seq<Signature>,
    opts: CarveOptions,
    progress: P,
    accepts: A,
    classify: K,
    seed: Seq<[u8; 32]>,
    saved: Option<Checkpoint>,
    n: nat,
    v: Map<int, Verdict>,
    stats: CarveStats,
    m: nat,
    w: Map<int, Verdict>,
    others: CarveStats,
)
    requires
        steady(progress, accepts, classify),
        carved(source, active, opts, progress, accepts, classify, seed, saved, n, v, stats),
        carved(source, active, opts, progress, accepts, classify, seed, saved, m, w, others),
    ensures
        n >= m,
{
    let size = source@.len() as int;
    let c = run_of(source, active, opts);
    let st = first_state(opts, seed, saved);
    let from = first_pos(opts, size, saved);
    if n < m {
        lemma_chunks_grow(c, from, n, m);
        lemma_one_way(c, progress, accepts, classify, st, from, c.chunks_end(from, n), v, w);
        assert(c.chunks_end(from, n) < c.end);
    }
}

/// A scan has one outcome, as long as it is given the same answers whenever it asks the same. What it recovers,
/// its counts, its counts per type and the number of bytes scanned are the same every time, and so is what the sink is
/// told.
pub proof fn law_one_outcome<
    P: ProgressSink,
    A: Fn(&Signature, &Vec<u8>) -> bool,
    K: Fn(&str, &Vec<u8>) -> Option<String>,
>(
    source: Source,
    active: Seq<Signature>,
    opts: CarveOptions,
    progress: P,
    accepts: A,
    classify: K,
    seed: Seq<[u8; 32]>,
    saved: Option<Checkpoint>,
    n: nat,
    v: Map<int, Verdict>,
    stats: CarveStats,
    m: nat,
    w: Map<int, Verdict>,
    others: CarveStats,
)
    requires
        steady(progress, accepts, classify),
        stats.wf(),
        others.wf(),
        carved(source, active, opts, progress, accepts, classify, seed, saved, n, v, stats),
        carved(source, active, opts, progress, accepts, classify, seed, saved, m, w, others),
    ensures
        outcome(stats) == outcome(others),
        reports(source, active, opts, seed, saved, n, v) == reports(
            source,
            active,
            opts,
            seed,
            saved,
            m,
            w,
        ),
{
    let size = source@.len() as int;
    let c = run_of(source, active, opts);
    let st = first_state(opts, seed, saved);
    let from = first_pos(opts, size, saved);
    lemma_no_longer(
        source,
        active,
        opts,
        progress,
        accepts,
        classify,
        seed,
        saved,
        n,
        v,
        stats,
        m,
        w,
        others,
    );
    lemma_no_longer(
        source,
        active,
        opts,
        progress,
        accepts,
        classify,
        seed,
        saved,
        m,
        w,
        others,
        n,
        v,
        stats,
    );
    lemma_one_way(c, progress, accepts, classify, st, from, c.chunks_end(from, n), v, w);
    lemma_same_types(stats, others);
}

/// Where no read at the bytes at `pos` has run into an unreadable byte, none does when the answers are steady.
proof fn lemma_no_failure<
    P: ProgressSink,
    A: Fn(&Signature, &Vec<u8>) -> bool,
    K: Fn(&str, &Vec<u8>) -> Option<String>,
>(
    source: Source,
    c: Run,
    progress: P,
    accepts: A,
    classify: K,
    st: ScanState,
    pos: int,
    v: Verdict,
)
    requires
        steady(progress, accepts, classify),
        !st.full,
        c.answered(accepts, classify, st, pos, v),
        !unread(source, c, st, pos, v.accept),
    ensures
        !fails_at(source, c, accepts, st, pos),
{
    reveal(unread);
    if fails_at(source, c, accepts, st, pos) {
        let (k, start, len) = c.candidate(pos)->Some_0;
        let sig = c.sigs[k];
        let header = c.beginning(start, len, HEADER_LEN as int);
        assert(c.opts.validate && approves(accepts, sig, header, true));
        assert(approves(accepts, sig, header, v.accept));
        let g = choose|h: &Vec<u8>| h@ == header && call_ensures(accepts, (&sig, h), true);
        let h = choose|h: &Vec<u8>| h@ == header && call_ensures(accepts, (&sig, h), v.accept);
        assert(call_ensures(accepts, (&sig, g), true));
        assert(call_ensures(accepts, (&sig, h), v.accept));
        assert(v.accept);
    }
}

/// A scan that gets through does so every time, as long as it is given the same answers whenever it asks the same: it
/// does not run into an unreadable byte at another time.
pub proof fn law_fails_always_or_never<
    P: ProgressSink,
    A: Fn(&Signature, &Vec<u8>) -> bool,
    K: Fn(&str, &Vec<u8>) -> Option<String>,
>(
    source: Source,
    active: Seq<Signature>,
    opts: CarveOptions,
    progress: P,
    accepts: A,
    classify: K,
    seed: Seq<[u8; 32]>,
    saved: Option<Checkpoint>,
    n: nat,
    v: Map<int, Verdict>,
    stats: CarveStats,
    m: nat,
    w: Map<int, Verdict>,
)
    requires
        steady(progress, accepts, classify),
        carved(source, active, opts, progress, accepts, classify, seed, saved, n, v, stats),
        got_through(source, active, opts, seed, saved, n, v),
    ensures
        !broke_off(source, active, opts, progress, accepts, classify, seed, saved, m, w),
{
    let size = source@.len() as int;
    let c = run_of(source, active, opts);
    let st = first_state(opts, seed, saved);
    let from = first_pos(opts, size, saved);
    if broke_off(source, active, opts, progress, accepts, classify, seed, saved, m, w) {
        if n <= m {
            lemma_chunks_grow(c, from, n, m);
            lemma_one_way(c, progress, accepts, classify, st, from, c.chunks_end(from, n), v, w);
            assert(c.chunks_end(from, n) < c.end);
        } else {
            let at = c.chunks_end(from, m);
            let to = c.chunk_end(at);
            lemma_chunks_grow(c, from, m, n);
            lemma_chunks_grow(c, from, (m + 1) as nat, n);
            assert(c.chunks_end(from, (m + 1) as nat) == to);
            lemma_one_way(c, progress, accepts, classify, st, from, at, v, w);
            let half = c.scanned(st, from, at, v);
            assert(!source.faulty(at, chunk_read(c, at)));
            let (p, u) = choose|p: int, u: Map<int, Verdict>|
                at <= p < to && #[trigger] blocked_at(source, c, accepts, classify, half, at, p, u);
            assert(blocked_at(source, c, accepts, classify, half, at, p, u));
            assert forall|q: int| at <= q < p implies #[trigger] c.answered(
                accepts,
                classify,
                c.scanned(half, at, q, v),
                q,
                v[q],
            ) by {
                law_scan_in_parts(c, st, from, at, q, v);
                assert(c.answered(accepts, classify, c.scanned(st, from, q, v), q, v[q]));
            }
            lemma_one_way(c, progress, accepts, classify, half, at, p, u, v);
            law_scan_in_parts(c, st, from, at, p, v);
            let there = c.scanned(st, from, p, v);
            assert(c.answered(accepts, classify, there, p, v[p]));
            assert(!unread(source, c, there, p, v[p].accept));
            lemma_no_failure(source, c, progress, accepts, classify, there, p, v[p]);
        }
    }
}

/// Unless duplicates are dropped, a scan that is given digests of content that was recovered elsewhere has the
/// outcome of one that is given others, or none, and the sink is told the same.
pub proof fn law_seed_without_dedup<
    P: ProgressSink,
    A: Fn(&Signature, &Vec<u8>) -> bool,
    K: Fn(&str, &Vec<u8>) -> Option<String>,
>(
    source: Source,
    active: Seq<Signature>,
    opts: CarveOptions,
    progress: P,
    accepts: A,
    classify: K,
    seed: Seq<[u8; 32]>,
    other_seed: Seq<[u8; 32]>,
    saved: Option<Checkpoint>,
    n: nat,
    v: Map<int, Verdict>,
    stats: CarveStats,
    m: nat,
    w: Map<int, Verdict>,
    others: CarveStats,
)
    requires
        !opts.dedup,
        steady(progress, accepts, classify),
        stats.wf(),
        others.wf(),
        carved(source, active, opts, progress, accepts, classify, seed, saved, n, v, stats),
        carved(source, active, opts, progress, accepts, classify, other_seed, saved, m, w, others),
    ensures
        outcome(stats) == outcome(others),
        reports(source, active, opts, seed, saved, n, v) == reports(
            source,
            active,
            opts,
            other_seed,
            saved,
            m,
            w,
        ),
{
    law_what_matters(
        source,
        active,
        opts,
        opts,
        progress,
        accepts,
        classify,
        other_seed,
        seed,
        saved,
        m,
        w,
        others,
    );
    lemma_same_reports(source, active, opts, opts, other_seed, seed, saved, m, w);
    law_one_outcome(
        source,
        active,
        opts,
        progress,
        accepts,
        classify,
        seed,
        saved,
        n,
        v,
        stats,
        m,
        w,
        others,
    );
}

/// A dry run has the outcome of a real one, in every field, and the sink is told the same.
pub proof fn law_dry_run<
    P: ProgressSink,
    A: Fn(&Signature, &Vec<u8>) -> bool,
    K: Fn(&str, &Vec<u8>) -> Option<String>,
>(
    source: Source,
    active: Seq<Signature>,
    opts: CarveOptions,
    dry: CarveOptions,
    progress: P,
    accepts: A,
    classify: K,
    seed: Seq<[u8; 32]>,
    saved: Option<Checkpoint>,
    n: nat,
    v: Map<int, Verdict>,
    stats: CarveStats,
    m: nat,
    w: Map<int, Verdict>,
    others: CarveStats,
)
    requires
        dry == (CarveOptions { dry_run: true, ..opts }),
        steady(progress, accepts, classify),
        stats.wf(),
        others.wf(),
        carved(source, active, opts, progress, accepts, classify, seed, saved, n, v, stats),
        carved(source, active, dry, progress, accepts, classify, seed, saved, m, w, others),
    ensures
        outcome(stats) == outcome(others),
        reports(source, active, opts, seed, saved, n, v) == reports(
            source,
            active,
            dry,
            seed,
            saved,
            m,
            w,
        ),
{
    law_what_matters(
        source,
        active,
        dry,
        opts,
        progress,
        accepts,
        classify,
        seed,
        seed,
        saved,
        m,
        w,
        others,
    );
    lemma_same_reports(source, active, dry, opts, seed, seed, saved, m, w);
    law_one_outcome(
        source,
        active,
        opts,
        progress,
        accepts,
        classify,
        seed,
        saved,
        n,
        v,
        stats,
        m,
        w,
        others,
    );
}

/// Resuming a scan that was finished, from the checkpoint that was written of it, does not fail and recovers nothing
/// new: the numbers of files, of bytes, of rejected candidates and of duplicates are those that it had, and so are the
/// files, where all of them can be listed. (A checkpoint does not say how many files were too large.)
pub proof fn law_resumed_when_finished<
    P: ProgressSink,
    A: Fn(&Signature, &Vec<u8>) -> bool,
    K: Fn(&str, &Vec<u8>) -> Option<String>,
>(
    source: Source,
    active: Seq<Signature>,
    known: Seq<Signature>,
    opts: CarveOptions,
    progress: P,
    accepts: A,
    classify: K,
    seed: Seq<[u8; 32]>,
    scan: Scan,
    saved: Checkpoint,
    n: nat,
    v: Map<int, Verdict>,
    stats: CarveStats,
)
    requires
        opts.resume && opts.checkpoint is Some,
        scan.pos >= scan_end(opts, source@.len() as int),
        forall|i: int|
            0 <= i < scan.stats.files@.len() ==> is_one_line(record(#[trigger] scan.stats.files@[i])),
        saved_in(saved) == with_lines(
            known,
            nothing_saved(),
            encode_utf8(checkpoint_text(scan, opts.dedup)),
            0,
        ),
        carved(
            source,
            active,
            opts,
            progress,
            accepts,
            classify,
            seed,
            Some(saved),
            n,
            v,
            stats,
        ),
        stats.wf(),
        scan.stats.wf(),
    ensures
        tally(stats) == (Tally { large: 0, list: tally(stats).list, ..tally(scan.stats) }),
        tally(stats).list == tally(saved.stats).list,
        (forall|i: int|
            0 <= i < scan.stats.files@.len() ==> is_listable(
                known,
                record(#[trigger] scan.stats.files@[i]),
            )) ==> {
            &&& tally(stats).list == tally(scan.stats).list
            &&& type_counts(stats.per_type@) == type_counts(scan.stats.per_type@)
        },
        stats.bytes_scanned == saved.stats.bytes_scanned,
        forall|m: nat, w: Map<int, Verdict>|
            !#[trigger] broke_off(
                source,
                active,
                opts,
                progress,
                accepts,
                classify,
                seed,
                Some(saved),
                m,
                w,
            ),
{
    let size = source@.len() as int;
    let c = run_of(source, active, opts);
    law_counts_restored(known, scan, opts.dedup);
    law_completed_scan(
        c,
        saved,
        seed,
        size,
        n,
        v,
        may_answer(progress, true),
        stats,
    );
    if forall|i: int|
        0 <= i < scan.stats.files@.len() ==> is_listable(
            known,
            record(#[trigger] scan.stats.files@[i]),
        ) {
        law_checkpoint_restores(known, scan, opts.dedup);
        lemma_same_types(stats, scan.stats);
    }
    let from = first_pos(opts, size, Some(saved));
    assert(c.chunks_end(from, 0) == from);
}

/// Two scans whose states are alike are alike still after they are given the same answers.
proof fn lemma_alike(
    c: Run,
    d: Run,
    s: ScanState,
    t: ScanState,
    i: int,
    j: int,
    from: int,
    to: int,
    v: Map<int, Verdict>,
)
    requires
        same_run(c, d),
        alike(s, t, i, j, c.opts.dedup),
    ensures
        alike(c.scanned(s, from, to, v), d.scanned(t, from, to, v), i, j, c.opts.dedup),
{
    lemma_scanned_alike(c, s, t, i, j, from, to, v);
    lemma_same_states(c, d, t, from, to, v);
}

/// What one of two scans whose states are alike hears, the other may hear.
proof fn lemma_heard_alike<
    A: Fn(&Signature, &Vec<u8>) -> bool,
    K: Fn(&str, &Vec<u8>) -> Option<String>,
>(
    c: Run,
    d: Run,
    accepts: A,
    classify: K,
    s: ScanState,
    t: ScanState,
    i: int,
    j: int,
    from: int,
    to: int,
    v: Map<int, Verdict>,
)
    requires
        same_run(c, d),
        alike(s, t, i, j, c.opts.dedup),
        c.heard(accepts, classify, s, from, to, v),
    ensures
        d.heard(accepts, classify, t, from, to, v),
{
    assert forall|p: int| from <= p < to implies #[trigger] d.answered(
        accepts,
        classify,
        d.scanned(t, from, p, v),
        p,
        v[p],
    ) by {
        assert(c.answered(accepts, classify, c.scanned(s, from, p, v), p, v[p]));
        lemma_alike(c, d, s, t, i, j, from, p, v);
        lemma_same_candidate(c, d, p);
    }
}

/// Chunks and the chunks after them.
proof fn lemma_chunks_add(c: Run, from: int, m: nat, n: nat)
    ensures
        c.chunks_end(c.chunks_end(from, m), n) == c.chunks_end(from, m + n),
    decreases n,
{
    if n > 0 {
        lemma_chunks_add(c, from, m, (n - 1) as nat);
    }
}

/// What a run that is never asked to stop ends at: it is full, or there is nothing left to scan, and that was not so
/// after fewer chunks.
spec fn ends_at(c: Run, st: ScanState, from: int, n: nat, v: Map<int, Verdict>) -> bool {
    &&& c.scanned(st, from, c.chunks_end(from, n), v).full || c.chunks_end(from, n) >= c.end
    &&& forall|m: nat|
        m < n ==> #[trigger] c.chunks_end(from, m) < c.end && !c.scanned(
            st,
            from,
            c.chunks_end(from, m),
            v,
        ).full
}

/// A scan that was resumed, and one that was not interrupted: what the two come to is alike, as what the checkpoint gives
/// back is like what had been found.
proof fn lemma_resumed_outcome<
    P: ProgressSink,
    A: Fn(&Signature, &Vec<u8>) -> bool,
    K: Fn(&str, &Vec<u8>) -> Option<String>,
>(
    source: Source,
    active: Seq<Signature>,
    known: Seq<Signature>,
    opts: CarveOptions,
    again: CarveOptions,
    progress: P,
    accepts: A,
    classify: K,
    seed: Seq<[u8; 32]>,
    scan: Scan,
    m: nat,
    u: Map<int, Verdict>,
    saved: Checkpoint,
    n: nat,
    w: Map<int, Verdict>,
    stats: CarveStats,
    k: nat,
    v: Map<int, Verdict>,
    whole: CarveStats,
    i: int,
    j: int,
)
    requires
        steady(progress, accepts, classify),
        !may_answer(progress, true),
        !opts.resume,
        again == (CarveOptions { resume: true, ..opts }),
        opts.checkpoint is Some,
        forall|i: int|
            0 <= i < scan.stats.files@.len() ==> is_one_line(record(#[trigger] scan.stats.files@[i])),
        ({
            let c = run_of(source, active, opts);
            let from = scan_start(opts, source@.len() as int);
            &&& scan.pos == c.chunks_end(from, m)
            &&& c.heard(accepts, classify, fresh_state(digests(seed)), from, scan.pos as int, u)
            &&& scan.state() == c.scanned(fresh_state(digests(seed)), from, scan.pos as int, u)
            &&& !scan.full
        }),
        saved_in(saved) == with_lines(
            known,
            nothing_saved(),
            encode_utf8(checkpoint_text(scan, opts.dedup)),
            0,
        ),
        carved(
            source,
            active,
            again,
            progress,
            accepts,
            classify,
            seed,
            Some(saved),
            n,
            w,
            stats,
        ),
        carved(source, active, opts, progress, accepts, classify, seed, None, k, v, whole),
        0 <= i <= tally(saved.stats).list.len(),
        0 <= j <= tally(scan.stats).list.len(),
        tally(saved.stats).list.skip(i) == tally(scan.stats).list.skip(j),
    ensures
        tally(stats) == (Tally {
            large: tally(stats).large,
            list: tally(stats).list,
            ..tally(whole)
        }),
        tally(stats).list.skip(i) == tally(whole).list.skip(j),
{
    let size = source@.len() as int;
    let c = run_of(source, active, opts);
    let d = run_of(source, active, again);
    let st = fresh_state(digests(seed));
    let from = scan_start(opts, size);
    let pos = scan.pos as int;
    let dedup = opts.dedup;
    law_counts_restored(known, scan, dedup);
    lemma_chunks_grow(c, from, 0, m);
    lemma_same_states(c, d, st, from, pos, u);
    law_resumed_scan(d, scan, saved, seed, size, pos, u, i, j);
    let first = first_state(again, seed, Some(saved));
    assert(alike(first, scan.state(), i, j, dedup));
    // The resumed scan, as one from where the interrupted scan was.
    lemma_same_chunks(c, d, pos, n);
    lemma_heard_alike(
        d,
        c,
        accepts,
        classify,
        first,
        scan.state(),
        i,
        j,
        pos,
        c.chunks_end(pos, n),
        w,
    );
    lemma_alike(d, c, first, scan.state(), i, j, pos, c.chunks_end(pos, n), w);
    lemma_chunks_add(c, from, m, n);
    assert(ends_at(c, scan.state(), pos, n, w)) by {
        assert forall|h: nat| h < n implies #[trigger] c.chunks_end(pos, h) < c.end && !c.scanned(
            scan.state(),
            pos,
            c.chunks_end(pos, h),
            w,
        ).full by {
            lemma_same_chunks(c, d, pos, h);
            assert(d.chunks_end(pos, h) < d.end);
            lemma_alike(d, c, first, scan.state(), i, j, pos, c.chunks_end(pos, h), w);
        }
    }
    assert(ends_at(c, st, from, k, v));
    lemma_goes_on(c, progress, accepts, classify, st, from, m, u, n, w, k, v);
}

/// A scan that was interrupted between two chunks, and is resumed from the checkpoint that was written of it, finds what
/// one that was not interrupted finds: from there on the same files under the same names, and in all the same numbers of
/// files, of bytes, of rejected candidates and of duplicates. Where all the files that it had found can be listed, its
/// list is the same too. (A checkpoint does not say how many files were too large.)
pub proof fn law_resumed_outcome<
    P: ProgressSink,
    A: Fn(&Signature, &Vec<u8>) -> bool,
    K: Fn(&str, &Vec<u8>) -> Option<String>,
>(
    source: Source,
    active: Seq<Signature>,
    known: Seq<Signature>,
    opts: CarveOptions,
    again: CarveOptions,
    progress: P,
    accepts: A,
    classify: K,
    seed: Seq<[u8; 32]>,
    scan: Scan,
    m: nat,
    u: Map<int, Verdict>,
    saved: Checkpoint,
    n: nat,
    w: Map<int, Verdict>,
    stats: CarveStats,
    k: nat,
    v: Map<int, Verdict>,
    whole: CarveStats,
)
    requires
        steady(progress, accepts, classify),
        !may_answer(progress, true),
        !opts.resume,
        again == (CarveOptions { resume: true, ..opts }),
        opts.checkpoint is Some,
        forall|i: int|
            0 <= i < scan.stats.files@.len() ==> is_one_line(record(#[trigger] scan.stats.files@[i])),
        ({
            let c = run_of(source, active, opts);
            let from = scan_start(opts, source@.len() as int);
            &&& scan.pos == c.chunks_end(from, m)
            &&& c.heard(accepts, classify, fresh_state(digests(seed)), from, scan.pos as int, u)
            &&& scan.state() == c.scanned(fresh_state(digests(seed)), from, scan.pos as int, u)
            &&& !scan.full
        }),
        saved_in(saved) == with_lines(
            known,
            nothing_saved(),
            encode_utf8(checkpoint_text(scan, opts.dedup)),
            0,
        ),
        carved(
            source,
            active,
            again,
            progress,
            accepts,
            classify,
            seed,
            Some(saved),
            n,
            w,
            stats,
        ),
        carved(source, active, opts, progress, accepts, classify, seed, None, k, v, whole),
        stats.wf(),
        whole.wf(),
    ensures
        tally(stats) == (Tally {
            large: tally(stats).large,
            list: tally(stats).list,
            ..tally(whole)
        }),
        tally(stats).list.skip(tally(saved.stats).list.len() as int) == tally(whole).list.skip(
            scan.stats.files@.len() as int,
        ),
        (forall|i: int|
            0 <= i < scan.stats.files@.len() ==> is_listable(
                known,
                record(#[trigger] scan.stats.files@[i]),
            )) ==> {
            &&& tally(stats).list == tally(whole).list
            &&& type_counts(stats.per_type@) == type_counts(whole.per_type@)
        },
{
    let before = tally(saved.stats).list;
    let found = tally(scan.stats).list;
    assert(before.skip(before.len() as int) =~= found.skip(found.len() as int));
    lemma_resumed_outcome(
        source, active, known, opts, again, progress, accepts, classify, seed, scan, m, u, saved,
        n, w, stats, k, v, whole, before.len() as int, found.len() as int,
    );
    if forall|i: int|
        0 <= i < scan.stats.files@.len() ==> is_listable(
            known,
            record(#[trigger] scan.stats.files@[i]),
        ) {
        law_checkpoint_restores(known, scan, opts.dedup);
        lemma_resumed_outcome(
            source, active, known, opts, again, progress, accepts, classify, seed, scan, m, u,
            saved, n, w, stats, k, v, whole, 0, 0,
        );
        assert(tally(stats).list.skip(0) =~= tally(stats).list);
        assert(tally(whole).list.skip(0) =~= tally(whole).list);
        lemma_same_types(stats, whole);
    }
}

/// A scan goes through the same states whatever its options are that do not bear on what is looked for.
proof fn lemma_same_states(c: Run, d: Run, st: ScanState, from: int, to: int, v: Map<int, Verdict>)
    requires
        same_run(c, d),
    ensures
        c.scanned(st, from, to, v) == d.scanned(st, from, to, v),
    decreases to - from,
{
    if from < to {
        lemma_same_states(c, d, st, from, to - 1, v);
        lemma_same_candidate(c, d, to - 1);
        reveal(Run::after);
    }
}

/// A scan that goes on after `m` chunks ends where one that goes over all of them does, in the same state.
proof fn lemma_goes_on<
    P: ProgressSink,
    A: Fn(&Signature, &Vec<u8>) -> bool,
    K: Fn(&str, &Vec<u8>) -> Option<String>,
>(
    c: Run,
    progress: P,
    accepts: A,
    classify: K,
    st: ScanState,
    from: int,
    m: nat,
    u: Map<int, Verdict>,
    n: nat,
    w: Map<int, Verdict>,
    k: nat,
    v: Map<int, Verdict>,
)
    requires
        steady(progress, accepts, classify),
        from <= c.end,
        c.heard(accepts, classify, st, from, c.chunks_end(from, m), u),
        !c.scanned(st, from, c.chunks_end(from, m), u).full,
        ({
            let pos = c.chunks_end(from, m);
            let half = c.scanned(st, from, pos, u);
            &&& c.heard(accepts, classify, half, pos, c.chunks_end(pos, n), w)
            &&& ends_at(c, half, pos, n, w)
        }),
        c.heard(accepts, classify, st, from, c.chunks_end(from, k), v),
        ends_at(c, st, from, k, v),
    ensures
        ({
            let pos = c.chunks_end(from, m);
            c.scanned(c.scanned(st, from, pos, u), pos, c.chunks_end(pos, n), w) == c.scanned(
                st,
                from,
                c.chunks_end(from, k),
                v,
            )
        }),
{
    let pos = c.chunks_end(from, m);
    let half = c.scanned(st, from, pos, u);
    lemma_chunks_add(c, from, m, n);
    lemma_chunks_grow(c, from, m, m + n);
    if k < m {
        let at = c.chunks_end(from, k);
        lemma_chunks_grow(c, from, k, m);
        lemma_one_way(c, progress, accepts, classify, st, from, at, u, v);
        if c.scanned(st, from, at, u).full {
            lemma_full(c, st, from, at, pos, u);
        }
        assert(at == pos == c.end);
        if n > 0 {
            assert(c.chunks_end(pos, 0) < c.end);
        }
    } else {
        // The part of the whole scan that the other one goes over too, from where that one begins.
        lemma_chunks_grow(c, from, m, k);
        lemma_one_way(c, progress, accepts, classify, st, from, pos, u, v);
        let both = if m + n <= k {
            m + n
        } else {
            k
        };
        let to = c.chunks_end(from, both);
        lemma_chunks_grow(c, from, m, both);
        lemma_chunks_grow(c, from, both, m + n);
        lemma_chunks_grow(c, from, both, k);
        assert forall|q: int| pos <= q < to implies #[trigger] c.answered(
            accepts,
            classify,
            c.scanned(half, pos, q, v),
            q,
            v[q],
        ) by {
            law_scan_in_parts(c, st, from, pos, q, v);
            assert(c.answered(accepts, classify, c.scanned(st, from, q, v), q, v[q]));
        }
        lemma_one_way(c, progress, accepts, classify, half, pos, to, v, w);
        law_scan_in_parts(c, st, from, pos, to, v);
        if m + n < k {
            assert(c.chunks_end(from, m + n) < c.end);
        } else if k < m + n {
            lemma_chunks_add(c, from, m, (k - m) as nat);
            assert(c.chunks_end(pos, (k - m) as nat) < c.end);
        }
    }
}

} // verus!
