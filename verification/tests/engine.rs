use std::cell::Cell;
use unearth::carver::checkpoint::parse_hex32;
use unearth::carver::generic::find_footer;
use unearth::carver::{
    carve, carve_seeded, read_checkpoint, CarveOptions, CarveStats, Checkpoint, NoProgress,
    ProgressSink, Scan,
};
use unearth::hash::digest;
use unearth::signatures::{Extent, Signature};
use unearth::source::{Fault, ReadError, Source};

fn options() -> CarveOptions {
    CarveOptions {
        output_dir: "out".to_string(),
        start: 0,
        end: None,
        min_size: 0,
        max_size: None,
        max_files: None,
        allow_nested: false,
        validate: true,
        dedup: false,
        progress: false,
        checkpoint: None,
        resume: false,
        organize: false,
        dry_run: false,
        align: 1,
    }
}

fn any(_sig: &Signature<'_>, _header: &Vec<u8>) -> bool {
    true
}

fn unknown(_ext: &str, _head: &Vec<u8>) -> Option<String> {
    None
}

fn scan_all(
    src: &Source,
    sigs: &[Signature<'_>],
    opts: &CarveOptions,
    saved: Option<Checkpoint>,
) -> Result<CarveStats, ReadError> {
    carve(src, sigs, opts, &NoProgress, &any, &unknown, saved)
}

fn fixed(ext: &'static str, magic: &'static [u8], size: u64) -> Signature<'static> {
    Signature {
        name: ext,
        ext,
        magic,
        magic_offset: 0,
        secondary: None,
        extent: Extent::Fixed { size },
        max_size: 1 << 20,
        volume: false,
    }
}

/// An image of `total` zeros with the given bytes at the given places.
fn image(total: usize, parts: &[(usize, &[u8])]) -> Vec<u8> {
    let mut v = vec![0u8; total];
    for (at, bytes) in parts {
        v[*at..*at + bytes.len()].copy_from_slice(bytes);
    }
    v
}

fn offsets(files: &[unearth::carver::CarvedFile]) -> Vec<(u64, u64)> {
    files.iter().map(|f| (f.offset, f.size)).collect()
}

#[test]
fn carves_files_with_names_digests_and_counts() {
    let data = image(200, &[(10, b"AAAA1"), (60, b"BBBB"), (100, b"AAAA2")]);
    let src = Source::new(data.clone());
    let sigs = [fixed("aaa", b"AAAA", 16), fixed("bbb", b"BBBB", 8)];
    let stats = scan_all(&src, &sigs, &options(), None).unwrap();
    assert_eq!(offsets(&stats.files), vec![(10, 16), (60, 8), (100, 16)]);
    assert_eq!(stats.files[0].name, "00000000_0x0000000000000a.aaa");
    assert_eq!(stats.files[1].name, "00000001_0x0000000000003c.bbb");
    assert_eq!(stats.files[2].name, "00000002_0x00000000000064.aaa");
    assert_eq!(stats.files[0].sha256, digest(&data[10..26].to_vec()));
    assert_eq!(stats.files_recovered, 3);
    assert_eq!(stats.bytes_recovered, 16 + 8 + 16);
    assert_eq!(stats.bytes_scanned, 200);
    assert_eq!(stats.rejected, 0);
    let counts: Vec<(&str, u64)> = stats
        .per_type
        .iter()
        .map(|t| (t.ext.as_str(), t.count))
        .collect();
    assert_eq!(counts, vec![("aaa", 2), ("bbb", 1)]);
}

#[test]
fn the_first_signature_wins_and_files_do_not_overlap() {
    // The second header lies inside the first file.
    let src = Source::new(image(100, &[(0, b"AAAA"), (8, b"AAAA"), (40, b"AAAA")]));
    let sigs = [fixed("one", b"AAAA", 16), fixed("two", b"AA", 4)];
    let stats = scan_all(&src, &sigs, &options(), None).unwrap();
    assert_eq!(offsets(&stats.files), vec![(0, 16), (40, 16)]);
    assert!(stats.files.iter().all(|f| f.ext == "one"));

    // Looking for nested files finds it, and every other match too.
    let mut opts = options();
    opts.allow_nested = true;
    let only = [fixed("one", b"AAAA", 16)];
    let stats = scan_all(&src, &only, &opts, None).unwrap();
    assert_eq!(offsets(&stats.files), vec![(0, 16), (8, 16), (40, 16)]);
}

#[test]
fn a_file_past_the_end_of_the_scan_is_not_carved() {
    let src = Source::new(image(50, &[(40, b"AAAA")]));
    let sigs = [fixed("aaa", b"AAAA", 16)];
    let stats = scan_all(&src, &sigs, &options(), None).unwrap();
    assert!(stats.files.is_empty());
    // Nor is one that only the end of the scan cuts off, or that starts before it.
    let src = Source::new(image(100, &[(10, b"AAAA"), (40, b"AAAA")]));
    let mut opts = options();
    opts.start = 11;
    opts.end = Some(55);
    let stats = scan_all(&src, &sigs, &opts, None).unwrap();
    assert!(stats.files.is_empty());
    assert_eq!(stats.bytes_scanned, 44);
}

#[test]
fn size_limits_and_alignment() {
    let src = Source::new(image(
        2048,
        &[(0, b"SMAL"), (512, b"LARG"), (600, b"SMAL"), (1024, b"SMAL")],
    ));
    let sigs = [fixed("s", b"SMAL", 8), fixed("l", b"LARG", 256)];
    let mut opts = options();
    opts.max_size = Some(100);
    let stats = scan_all(&src, &sigs, &opts, None).unwrap();
    // What lies in the file that is too large is passed over with it.
    assert_eq!(offsets(&stats.files), vec![(0, 8), (1024, 8)]);
    assert_eq!(stats.skipped_large, 1);

    let mut opts = options();
    opts.min_size = 9;
    let stats = scan_all(&src, &sigs, &opts, None).unwrap();
    assert_eq!(offsets(&stats.files), vec![(512, 256)]);

    let mut opts = options();
    opts.align = 1024;
    let stats = scan_all(&src, &sigs, &opts, None).unwrap();
    assert_eq!(offsets(&stats.files), vec![(0, 8), (1024, 8)]);
}

#[test]
fn stops_after_as_many_files_as_were_asked_for() {
    let src = Source::new(image(200, &[(0, b"AAAA"), (50, b"AAAA"), (100, b"AAAA")]));
    let sigs = [fixed("aaa", b"AAAA", 16)];
    let mut opts = options();
    opts.max_files = Some(2);
    let stats = scan_all(&src, &sigs, &opts, None).unwrap();
    assert_eq!(offsets(&stats.files), vec![(0, 16), (50, 16)]);
    assert_eq!(stats.bytes_scanned, 0);
    // Asked for none, the scan still ends with the first.
    opts.max_files = Some(0);
    let stats = scan_all(&src, &sigs, &opts, None).unwrap();
    assert_eq!(stats.files_recovered, 1);
}

#[test]
fn duplicates_are_dropped_when_asked() {
    let src = Source::new(image(200, &[(0, b"AAAA"), (50, b"AAAA"), (100, b"AAAAx")]));
    let sigs = [fixed("aaa", b"AAAA", 16)];
    let stats = scan_all(&src, &sigs, &options(), None).unwrap();
    assert_eq!(stats.files_recovered, 3);
    let mut opts = options();
    opts.dedup = true;
    let stats = scan_all(&src, &sigs, &opts, None).unwrap();
    assert_eq!(offsets(&stats.files), vec![(0, 16), (100, 16)]);
    assert_eq!(stats.duplicates, 1);
    assert_ne!(stats.files[0].sha256, stats.files[1].sha256);

    // Content that was recovered elsewhere is not recovered again.
    let seed = vec![stats.files[0].sha256];
    let stats = carve_seeded(&src, &sigs, &opts, &NoProgress, &any, &unknown, seed.clone(), None);
    let stats = stats.unwrap();
    assert_eq!(offsets(&stats.files), vec![(100, 16)]);
    assert_eq!(stats.duplicates, 2);
    // That has no effect unless duplicates are dropped.
    opts.dedup = false;
    let stats = carve_seeded(&src, &sigs, &opts, &NoProgress, &any, &unknown, seed, None).unwrap();
    assert_eq!(stats.files_recovered, 3);
}

/// Accepts headers that go on with a full stop.
fn full_stop(_sig: &Signature<'_>, header: &Vec<u8>) -> bool {
    header[4] == b'.'
}

/// Tells archives by their sixth byte.
fn by_content(ext: &str, head: &Vec<u8>) -> Option<String> {
    assert_eq!(ext, "zip");
    if head[5] == b'd' {
        Some("docx".to_string())
    } else {
        None
    }
}

#[test]
fn unsound_candidates_are_rejected_and_archives_are_filed_by_content() {
    let src = Source::new(image(
        200,
        &[(0, b"ZIPP!"), (4, b"ZIPP.d"), (50, b"ZIPP.x"), (100, b"AAAA.d")],
    ));
    let sigs = [fixed("zip", b"ZIPP", 16), fixed("aaa", b"AAAA", 16)];
    let mut opts = options();
    opts.organize = true;
    let stats = carve(&src, &sigs, &opts, &NoProgress, &full_stop, &by_content, None).unwrap();
    // A rejected candidate does not hide what lies in it.
    assert_eq!(offsets(&stats.files), vec![(4, 16), (50, 16), (100, 16)]);
    assert_eq!(stats.rejected, 1);
    let names: Vec<&str> = stats.files.iter().map(|f| f.name.as_str()).collect();
    assert_eq!(
        names,
        vec![
            "docx/00000000_0x00000000000004.docx",
            "zip/00000001_0x00000000000032.zip",
            "aaa/00000002_0x00000000000064.aaa",
        ]
    );
    // Without the check the first one hides the second.
    opts.validate = false;
    let stats = carve(&src, &sigs, &opts, &NoProgress, &full_stop, &by_content, None).unwrap();
    assert_eq!(offsets(&stats.files), vec![(0, 16), (50, 16), (100, 16)]);
    assert_eq!(stats.rejected, 0);
}

#[test]
fn files_in_a_file_system_image_are_still_found() {
    let mut vol = fixed("img", b"VOLU", 100);
    vol.volume = true;
    assert!(vol.is_volume());
    let src = Source::new(image(200, &[(0, b"VOLU"), (20, b"AAAA")]));
    let sigs = [vol, fixed("aaa", b"AAAA", 16)];
    let stats = scan_all(&src, &sigs, &options(), None).unwrap();
    assert_eq!(offsets(&stats.files), vec![(0, 100), (20, 16)]);
}

#[test]
fn magic_offsets_and_second_bytes() {
    let mut sig = fixed("tar", b"ustar", 64);
    sig.magic_offset = 20;
    sig.secondary = Some((8, b"ok"));
    let src = Source::new(image(
        300,
        // Too early in the image; without its second bytes; complete.
        &[(5, b"ustar   ok"), (60, b"ustar"), (120, b"ustar   ok")],
    ));
    let stats = scan_all(&src, &[sig], &options(), None).unwrap();
    assert_eq!(offsets(&stats.files), vec![(100, 64)]);
}

/// Wants to stop after a number of looks.
struct Patience {
    left: Cell<u32>,
    begun: Cell<u64>,
    last: Cell<u64>,
    finished: Cell<u64>,
}

impl ProgressSink for Patience {
    fn begin(&self, total: u64) {
        self.begun.set(total);
    }

    fn update(&self, scanned: u64) {
        self.last.set(scanned);
    }

    fn finish(&self, scanned: u64) {
        self.finished.set(scanned);
    }

    fn cancelled(&self) -> bool {
        if self.left.get() == 0 {
            return true;
        }
        self.left.set(self.left.get() - 1);
        false
    }
}

fn patience(left: u32) -> Patience {
    Patience {
        left: Cell::new(left),
        begun: Cell::new(0),
        last: Cell::new(u64::MAX),
        finished: Cell::new(u64::MAX),
    }
}

#[test]
fn a_cancelled_scan_returns_what_it_has() {
    let src = Source::new(image(100, &[(0, b"AAAA")]));
    let sigs = [fixed("aaa", b"AAAA", 16)];
    let p = patience(0);
    let stats = carve(&src, &sigs, &options(), &p, &any, &unknown, None).unwrap();
    assert!(stats.files.is_empty());
    assert_eq!((p.begun.get(), p.last.get(), p.finished.get()), (100, 0, 0));
    let p = patience(1);
    let stats = carve(&src, &sigs, &options(), &p, &any, &unknown, None).unwrap();
    assert_eq!(stats.files_recovered, 1);
    assert_eq!((p.begun.get(), p.last.get(), p.finished.get()), (100, 100, 100));
}

const CHUNK: usize = 8 * 1024 * 1024;

#[test]
fn a_magic_across_two_chunks_is_found_and_a_resumed_scan_goes_on() {
    let data = image(
        CHUNK + 4096,
        &[(100, b"AAAA"), (CHUNK - 2, b"AAAA"), (CHUNK + 2000, b"AAAAz")],
    );
    let src = Source::new(data);
    let sigs = [fixed("aaa", b"AAAA", 16)];
    let mut opts = options();
    opts.dedup = true;
    opts.checkpoint = Some("scan.ckpt".to_string());
    let whole = scan_all(&src, &sigs, &opts, None).unwrap();
    assert_eq!(
        offsets(&whole.files),
        vec![(100, 16), (CHUNK as u64 + 2000, 16)]
    );
    assert_eq!(whole.duplicates, 1);

    // Stop after the first chunk, write the checkpoint, and go on from it.
    let mut scan = Scan::begin(&src, &opts, Vec::new(), None);
    assert!(!scan.done());
    assert!(scan.advance(&src, &sigs, &opts, &any, &unknown).is_ok());
    assert_eq!(scan.pos, CHUNK as u64);
    assert!(!scan.checkpoint_due(0));
    let text = scan.checkpoint(true);
    let saved = read_checkpoint(text.as_bytes(), &sigs).unwrap();
    assert_eq!(saved.pos, CHUNK as u64);
    assert_eq!(saved.skip_until, CHUNK as u64 + 14);
    assert_eq!(saved.seen, scan.seen);
    opts.resume = true;
    let rest = scan_all(&src, &sigs, &opts, Some(saved)).unwrap();
    assert_eq!(offsets(&rest.files), offsets(&whole.files));
    assert_eq!(rest.duplicates, 1);
    assert_eq!(rest.files_recovered, 2);
    assert_eq!(rest.files[1].name, whole.files[1].name);
    assert_eq!(rest.bytes_scanned, whole.bytes_scanned);
}

#[test]
fn a_checkpoint_is_written_line_by_line() {
    let src = Source::new(image(100, &[(0, b"AAAA")]));
    let sigs = [fixed("aaa", b"AAAA", 16)];
    let mut scan = Scan::begin(&src, &options(), Vec::new(), None);
    assert!(scan.advance(&src, &sigs, &options(), &any, &unknown).is_ok());
    assert!(scan.done());
    let text = scan.checkpoint(false);
    let hex: String = scan.stats.files[0]
        .sha256
        .iter()
        .map(|b| format!("{:02x}", b))
        .collect();
    assert_eq!(
        text,
        format!(
            "# unearth scan checkpoint v1\npos 100\nend 100\nskip_until 16\nfiles 1\nbytes 16\n\
             rejected 0\nduplicates 0\nfile aaa 0 16 {hex} 00000000_0x00000000000000.aaa\n"
        )
    );
    // On a completed scan a later resume is a no-op.
    let saved = read_checkpoint(text.as_bytes(), &sigs).unwrap();
    let mut opts = options();
    opts.checkpoint = Some("c".to_string());
    opts.resume = true;
    let stats = scan_all(&src, &sigs, &opts, Some(saved)).unwrap();
    assert_eq!(stats.files_recovered, 1);
    assert_eq!(stats.files.len(), 1);
}

#[test]
fn checkpoints_are_read_leniently() {
    let sigs = [fixed("aaa", b"AAAA", 16)];
    let zeros = "0".repeat(64);
    let text = format!(
        "\u{a0} pos 7 \r\n# pos 9\npos x\nskip_until +12\nfiles many\nbytes 5 6\nrejected 3\nseen {z}\n\
         seen 12\nfile aaa 1 2 {z} a name with spaces\nfile zzz 1 2 {z} n\nfile aaa 1 2 {z}\nwhat 1\nfiles 2",
        z = zeros
    );
    let c = read_checkpoint(text.as_bytes(), &sigs).unwrap();
    assert_eq!(c.pos, 7);
    assert_eq!(c.skip_until, 12);
    assert_eq!(c.stats.files_recovered, 2);
    assert_eq!(c.stats.bytes_recovered, 5);
    assert_eq!(c.stats.rejected, 3);
    assert_eq!(c.stats.duplicates, 0);
    assert_eq!(c.seen, vec![[0u8; 32]]);
    assert_eq!(c.stats.files.len(), 1);
    assert_eq!(c.stats.files[0].name, "a name with spaces");
    assert_eq!((c.stats.files[0].offset, c.stats.files[0].size), (1, 2));
    assert_eq!(c.stats.per_type.len(), 1);
    // What is no text is no checkpoint.
    assert!(read_checkpoint(&[0x70, 0xFF], &sigs).is_none());
    assert!(read_checkpoint(b"", &sigs).is_some());
}

#[test]
fn an_unreadable_byte_ends_the_scan() {
    let fault = Fault { start: 70, end: 72 };
    let src = Source::with_faults(image(100, &[(0, b"AAAA")]), vec![fault]);
    let sigs = [fixed("aaa", b"AAAA", 16)];
    let err = scan_all(&src, &sigs, &options(), None);
    assert_eq!(err.err(), Some(ReadError { offset: 70 }));
    // Up to there it can be scanned.
    let mut opts = options();
    opts.end = Some(70);
    let stats = scan_all(&src, &sigs, &opts, None).unwrap();
    assert_eq!(stats.files_recovered, 1);
}

#[test]
fn digests_are_sixty_four_digits_and_nothing_else() {
    let text = "00112233445566778899AABBccddeeff".repeat(2);
    let d = parse_hex32(text.as_bytes()).unwrap();
    assert_eq!(d[..4], [0x00, 0x11, 0x22, 0x33]);
    assert_eq!(d[10..16], [0xAA, 0xBB, 0xCC, 0xDD, 0xEE, 0xFF]);
    assert_eq!(d[..16], d[16..]);
    assert_eq!(parse_hex32("+0".repeat(32).as_bytes()), None);
    assert_eq!(parse_hex32("0g".repeat(32).as_bytes()), None);
    assert_eq!(parse_hex32(&text.as_bytes()[1..]), None);
    // Nor is such a line taken in.
    let sigs = [fixed("aaa", b"AAAA", 16)];
    let line = format!("seen {}\n", "+0".repeat(32));
    assert!(read_checkpoint(line.as_bytes(), &sigs).unwrap().seen.is_empty());
}

fn counts(s: &CarveStats) -> Vec<(String, u64)> {
    s.per_type.iter().map(|t| (t.ext.clone(), t.count)).collect()
}

#[test]
fn types_are_counted_in_their_order() {
    let src = Source::new(image(
        400,
        &[(0, b"ZZZZ"), (50, b"MMMM"), (100, b"AAAA"), (150, b"MMMM"), (200, b"BBBB")],
    ));
    let sigs = [
        fixed("zip9", b"ZZZZ", 8),
        fixed("m", b"MMMM", 8),
        fixed("aaa", b"AAAA", 8),
        fixed("aa", b"BBBB", 8),
        fixed("never", b"NNNN", 8),
    ];
    let stats = scan_all(&src, &sigs, &options(), None).unwrap();
    let expected = [("aa", 1), ("aaa", 1), ("m", 2), ("zip9", 1)];
    assert_eq!(counts(&stats), expected.map(|(e, n)| (e.to_string(), n)).to_vec());
}

/// Always wants to stop.
struct Halt;

impl ProgressSink for Halt {
    fn cancelled(&self) -> bool {
        true
    }
}

#[test]
fn a_scan_that_is_cancelled_at_once_finds_nothing() {
    let src = Source::new(image(100, &[(0, b"AAAA")]));
    let sigs = [fixed("aaa", b"AAAA", 16)];
    let stats = carve(&src, &sigs, &options(), &Halt, &any, &unknown, None).unwrap();
    assert!(stats.files.is_empty() && stats.per_type.is_empty());
    assert_eq!((stats.files_recovered, stats.bytes_recovered, stats.bytes_scanned), (0, 0, 0));
}

/// Two outcomes are the same in every field.
fn assert_same(a: &CarveStats, b: &CarveStats) {
    assert_eq!(a.bytes_scanned, b.bytes_scanned);
    assert_eq!(a.files_recovered, b.files_recovered);
    assert_eq!(a.bytes_recovered, b.bytes_recovered);
    assert_eq!(a.rejected, b.rejected);
    assert_eq!(a.duplicates, b.duplicates);
    assert_eq!(a.skipped_large, b.skipped_large);
    assert_eq!(counts(a), counts(b));
    assert_eq!(a.files.len(), b.files.len());
    for (f, g) in a.files.iter().zip(&b.files) {
        assert_eq!((&f.name, &f.ext, f.offset, f.size), (&g.name, &g.ext, g.offset, g.size));
        assert_eq!(f.sha256, g.sha256);
    }
}

#[test]
fn what_is_not_asked_for_makes_no_difference() {
    let src = Source::new(image(300, &[(0, b"AAAA"), (50, b"AAAA"), (100, b"BBBB"), (160, b"LARG")]));
    let sigs = [fixed("b", b"BBBB", 8), fixed("a", b"AAAA", 16), fixed("l", b"LARG", 90)];
    let mut opts = options();
    opts.max_size = Some(50);
    let plain = scan_all(&src, &sigs, &opts, None).unwrap();
    assert_eq!((plain.files_recovered, plain.skipped_large), (3, 1));
    // A run again, with no content that was recovered elsewhere, and with some.
    for seed in [Vec::new(), vec![plain.files[0].sha256]] {
        let again = carve_seeded(&src, &sigs, &opts, &NoProgress, &any, &unknown, seed, None);
        assert_same(&again.unwrap(), &plain);
    }
    // A dry run.
    opts.dry_run = true;
    assert_same(&scan_all(&src, &sigs, &opts, None).unwrap(), &plain);
    opts.dedup = true;
    let dry = scan_all(&src, &sigs, &opts, None).unwrap();
    opts.dry_run = false;
    opts.output_dir = "elsewhere".to_string();
    opts.progress = true;
    let real = scan_all(&src, &sigs, &opts, None).unwrap();
    assert_same(&dry, &real);
    assert_eq!(real.duplicates, 1);
}

#[test]
fn resuming_a_finished_scan_recovers_nothing_new() {
    let src = Source::new(image(300, &[(0, b"AAAA"), (50, b"AAAA"), (100, b"BBBB"), (160, b"LARG")]));
    let sigs = [fixed("b", b"BBBB", 8), fixed("a", b"AAAA", 16), fixed("l", b"LARG", 90)];
    let mut opts = options();
    opts.max_size = Some(50);
    opts.dedup = true;
    opts.checkpoint = Some("c".to_string());
    let mut scan = Scan::begin(&src, &opts, Vec::new(), None);
    while !scan.done() {
        assert!(scan.advance(&src, &sigs, &opts, &any, &unknown).is_ok());
    }
    let saved = read_checkpoint(scan.checkpoint(true).as_bytes(), &sigs).unwrap();
    opts.resume = true;
    let again = scan_all(&src, &sigs, &opts, Some(saved)).unwrap();
    assert_eq!(offsets(&again.files), offsets(&scan.stats.files));
    assert_eq!(
        (again.files_recovered, again.bytes_recovered, again.rejected, again.duplicates),
        (2, 24, 0, 1)
    );
    assert_eq!(scan.stats.duplicates, 1);
    assert_eq!(counts(&again), counts(&scan.stats));
    // A checkpoint does not say how many files were too large.
    assert_eq!((scan.stats.skipped_large, again.skipped_large), (1, 0));
}

/// Files archives under a type that no signature has.
fn novel(_ext: &str, _head: &Vec<u8>) -> Option<String> {
    Some("two words ".to_string())
}

#[test]
fn counts_are_restored_of_files_that_cannot_be_listed() {
    let src = Source::new(image(300, &[(0, b"AAAA"), (50, b"AAAA"), (100, b"BBBB")]));
    let sigs = [fixed("b", b"BBBB", 8), fixed("zip", b"AAAA", 16)];
    let mut opts = options();
    opts.dedup = true;
    opts.checkpoint = Some("c".to_string());
    let mut scan = Scan::begin(&src, &opts, Vec::new(), None);
    while !scan.done() {
        assert!(scan.advance(&src, &sigs, &opts, &any, &novel).is_ok());
    }
    assert_eq!(scan.stats.files[0].ext, "two words ");
    let saved = read_checkpoint(scan.checkpoint(true).as_bytes(), &sigs).unwrap();
    assert_eq!((saved.pos, saved.skip_until), (300, 108));
    opts.resume = true;
    let again = carve(&src, &sigs, &opts, &NoProgress, &any, &novel, Some(saved)).unwrap();
    assert_eq!(
        (again.files_recovered, again.bytes_recovered, again.rejected, again.duplicates),
        (2, 24, 0, 1)
    );
    assert_eq!(offsets(&again.files), vec![(100, 8)]);
}

#[test]
fn names_of_all_kinds_are_restored() {
    let src = Source::new(image(100, &[(0, b"AAAA")]));
    let sigs = [fixed("aaa", b"AAAA", 16), fixed("\u{fc}", b"BBBB", 16)];
    let mut scan = Scan::begin(&src, &options(), Vec::new(), None);
    assert!(scan.advance(&src, &sigs, &options(), &any, &unknown).is_ok());
    for name in ["a name  with\tspaces", " \u{20ac} \u{1F600}", "\u{a0}x\u{2028}\u{e4}", "\rx", "+"] {
        for ext in ["aaa", "\u{fc}"] {
            scan.stats.files[0].name = name.to_string();
            scan.stats.files[0].ext = ext.to_string();
            let saved = read_checkpoint(scan.checkpoint(false).as_bytes(), &sigs).unwrap();
            assert_eq!(saved.stats.files.len(), 1);
            assert_eq!(saved.stats.files[0].name, name);
            assert_eq!(saved.stats.files[0].ext, ext);
            assert_eq!(saved.stats.files[0].sha256, scan.stats.files[0].sha256);
        }
    }
    // White space at the end of a line is not part of it.
    scan.stats.files[0].ext = "aaa".to_string();
    scan.stats.files[0].name = "x\u{2003}".to_string();
    let saved = read_checkpoint(scan.checkpoint(false).as_bytes(), &sigs).unwrap();
    assert_eq!(saved.stats.files[0].name, "x");
}

#[test]
fn a_footer_is_searched_for_window_by_window() {
    const WINDOW: usize = 1 << 20;
    let at = |faults: Vec<Fault>, marker: usize, total: usize| {
        let src = Source::with_faults(image(total, &[(marker, b"%%EOF\r\n")]), faults);
        find_footer(&src, 0, b"%%EOF", 2, src.size())
    };
    let one = |start: u64| vec![Fault { start, end: start + 1 }];
    assert_eq!(at(vec![], 10, 100), Ok(Some(17)));
    // A byte of the window in which the marker is, behind it or not.
    assert_eq!(at(one(90), 10, 100), Err(ReadError { offset: 90 }));
    // The last window reaches as far as a marker that begins in it could.
    let next = (WINDOW + 4) as u64;
    assert_eq!(at(one(next), 10, 2 * WINDOW), Ok(Some(17)));
    assert_eq!(at(one(next - 1), 10, 2 * WINDOW), Err(ReadError { offset: next - 1 }));
    // A marker across two windows is found in the first of them, and what follows it is read.
    let across = WINDOW - 1;
    assert_eq!(at(vec![], across, 2 * WINDOW), Ok(Some(across as u64 + 7)));
    assert_eq!(at(one(next), across, 2 * WINDOW), Err(ReadError { offset: next }));
    assert_eq!(at(one(next + 1), across, 2 * WINDOW), Err(ReadError { offset: next + 1 }));
    assert_eq!(at(one(next + 2), across, 2 * WINDOW), Ok(Some(across as u64 + 7)));
    // In the second window.
    assert_eq!(at(one(5), WINDOW + 100, 2 * WINDOW), Err(ReadError { offset: 5 }));
    assert_eq!(at(vec![], WINDOW + 100, 2 * WINDOW), Ok(Some(WINDOW as u64 + 107)));
    // Nowhere: all of it is read.
    assert_eq!(at(one(99), 3, 100).is_err(), true);
    let src = Source::with_faults(vec![0; 3], one(2));
    assert_eq!(find_footer(&src, 0, b"%%EOF", 2, 3), Err(ReadError { offset: 2 }));
    assert_eq!(find_footer(&src, 0, b"%%EOF", 2, 2), Ok(None));
}

#[test]
fn a_scan_fails_only_at_bytes_that_it_looks_at() {
    let far = Signature {
        extent: Extent::HeaderSizeLe32 { offset: 60 },
        ..fixed("far", b"FFFF", 0)
    };
    let sigs = [fixed("aaa", b"AAAA", 40), far];
    let fault = || vec![Fault { start: 81, end: 82 }];
    let mut opts = options();
    opts.end = Some(50);
    // The size of the second file lies behind the end of the scan, and cannot be read.
    let src = Source::with_faults(image(200, &[(20, b"FFFF")]), fault());
    assert_eq!(scan_all(&src, &sigs, &opts, None).err(), Some(ReadError { offset: 81 }));
    // It is not looked for in a file that was found, unless nested files are.
    let data = image(200, &[(0, b"AAAA"), (20, b"FFFF")]);
    let src = Source::with_faults(data.clone(), fault());
    assert_eq!(offsets(&scan_all(&src, &sigs, &opts, None).unwrap().files), vec![(0, 40)]);
    opts.allow_nested = true;
    assert_eq!(scan_all(&src, &sigs, &opts, None).err(), Some(ReadError { offset: 81 }));
    // Nor where files have to be aligned, nor after as many files as were asked for.
    opts.align = 512;
    assert_eq!(scan_all(&src, &sigs, &opts, None).unwrap().files_recovered, 1);
    opts.align = 1;
    opts.max_files = Some(1);
    assert_eq!(scan_all(&src, &sigs, &opts, None).unwrap().files_recovered, 1);
    // Nor when the scan is to stop.
    let halted = carve(&src, &sigs, &opts, &Halt, &any, &unknown, None).unwrap();
    assert_eq!(halted.files_recovered, 0);
}
