//! Scan checkpoints: what is written down of a scan so that it can be resumed.

use crate::bytes::{find_byte, is_bytes, is_text, text_at, token_end};
use crate::carver::engine::{
    record, records, tally, CarveStats, CarvedFile, Checkpoint, FileRecord, Tally,
};
use crate::carver::scan::{fresh_state, Scan};
use crate::signatures::Signature;
use crate::strings::{hex_text, numeral, push_hex, push_numeral, utf8_string};
use crate::text::{digit, digit_of, number_in, parse_number, trim, trimmed};
use crate::utf8::is_utf8;
use vstd::prelude::*;
use vstd::string::*;
use vstd::utf8::*;

verus! {

/// The line that gives a number.
pub open spec fn number_line(tag: Seq<char>, v: nat) -> Seq<char> {
    tag + " "@ + numeral(v, 10, 1) + "\n"@
}

/// The lines that give digests.
pub open spec fn seen_lines(seen: Seq<[u8; 32]>) -> Seq<char>
    decreases seen.len(),
{
    if seen.len() == 0 {
        Seq::empty()
    } else {
        seen_lines(seen.drop_last()) + ("seen "@ + hex_text(seen.last()@) + "\n"@)
    }
}

/// The line that gives a recovered file.
pub open spec fn file_line(f: FileRecord) -> Seq<char> {
    "file "@ + f.ext + " "@ + numeral(f.offset as nat, 10, 1) + " "@ + numeral(f.size as nat, 10, 1)
        + " "@ + hex_text(f.digest) + " "@ + f.name + "\n"@
}

/// The lines that give recovered files.
pub open spec fn file_lines(list: Seq<FileRecord>) -> Seq<char>
    decreases list.len(),
{
    if list.len() == 0 {
        Seq::empty()
    } else {
        file_lines(list.drop_last()) + file_line(list.last())
    }
}

/// The lines that give the position, the skip boundary and the counts of a scan.
pub open spec fn count_lines(scan: Scan) -> Seq<char> {
    number_line("pos"@, scan.pos as nat) + number_line("end"@, scan.end as nat) + number_line(
        "skip_until"@,
        scan.skip_until as nat,
    ) + number_line("files"@, scan.stats.files_recovered as nat) + number_line(
        "bytes"@,
        scan.stats.bytes_recovered as nat,
    ) + number_line("rejected"@, scan.stats.rejected as nat) + number_line(
        "duplicates"@,
        scan.stats.duplicates as nat,
    )
}

/// The checkpoint of a scan: the position, the skip boundary, the running tally, the digests (when
/// duplicates are dropped), and the files, so that a resumed run's report stays complete.
pub open spec fn checkpoint_text(scan: Scan, dedup: bool) -> Seq<char> {
    "# unearth scan checkpoint v1\n"@ + count_lines(scan) + (if dedup {
        seen_lines(scan.seen@)
    } else {
        Seq::empty()
    }) + file_lines(records(scan.stats.files@))
}

/// Write a line that gives a number.
fn push_number_line(s: &mut String, tag: &str, v: u64)
    ensures
        final(s)@ == old(s)@ + number_line(tag@, v as nat),
{
    s.append(tag);
    s.append(" ");
    push_numeral(s, v, 10, 1);
    s.append("\n");
    assert(s@ =~= old(s)@ + number_line(tag@, v as nat));
}

/// The line that gives a recovered file.
fn line_of(f: &CarvedFile) -> (s: String)
    ensures
        s@ == file_line(record(*f)),
{
    let mut s = String::from_str("file ");
    s.append(f.ext.as_str());
    s.append(" ");
    push_numeral(&mut s, f.offset, 10, 1);
    s.append(" ");
    push_numeral(&mut s, f.size, 10, 1);
    s.append(" ");
    push_hex(&mut s, &f.sha256);
    s.append(" ");
    s.append(f.name.as_str());
    s.append("\n");
    s
}

impl Scan {
    /// The checkpoint of the scan.
    pub fn checkpoint(&self, dedup: bool) -> (r: String)
        ensures
            r@ == checkpoint_text(*self, dedup),
    {
        let mut s = String::from_str("# unearth scan checkpoint v1\n");
        push_number_line(&mut s, "pos", self.pos);
        push_number_line(&mut s, "end", self.end);
        push_number_line(&mut s, "skip_until", self.skip_until);
        push_number_line(&mut s, "files", self.stats.files_recovered);
        push_number_line(&mut s, "bytes", self.stats.bytes_recovered);
        push_number_line(&mut s, "rejected", self.stats.rejected);
        push_number_line(&mut s, "duplicates", self.stats.duplicates);
        assert(s@ =~= "# unearth scan checkpoint v1\n"@ + count_lines(*self));
        if dedup {
            let ghost head = s@;
            let mut i: usize = 0;
            assert(s@ =~= head + seen_lines(self.seen@.take(0)));
            while i < self.seen.len()
                invariant
                    i <= self.seen@.len(),
                    s@ == head + seen_lines(self.seen@.take(i as int)),
                decreases self.seen@.len() - i,
            {
                s.append("seen ");
                push_hex(&mut s, &self.seen[i]);
                s.append("\n");
                i += 1;
                assert(self.seen@.take(i as int).drop_last() =~= self.seen@.take(i - 1));
                assert(s@ =~= head + seen_lines(self.seen@.take(i as int)));
            }
            assert(self.seen@.take(i as int) =~= self.seen@);
        }
        let ghost head = s@;
        let ghost list = records(self.stats.files@);
        let mut i: usize = 0;
        assert(s@ =~= head + file_lines(list.take(0)));
        while i < self.stats.files.len()
            invariant
                i <= self.stats.files@.len(),
                list == records(self.stats.files@),
                s@ == head + file_lines(list.take(i as int)),
            decreases self.stats.files@.len() - i,
        {
            let f = &self.stats.files[i];
            let line = line_of(f);
            s.append(line.as_str());
            i += 1;
            assert(list.take(i as int).drop_last() =~= list.take(i - 1));
            assert(list.take(i as int).last() == record(*f));
            assert(s@ =~= head + (file_lines(list.take(i - 1)) + file_line(record(*f))));
        }
        assert(list.take(i as int) =~= list);
        assert(s@ =~= checkpoint_text(*self, dedup));
        s
    }
}

/// The words of a line, of which there are `n` at most: the last holds the rest of the line.
pub open spec fn words(l: Seq<u8>, i: int, n: nat) -> Seq<Seq<u8>>
    decreases n,
{
    let e = token_end(l, i, 0x20);
    if n <= 1 || e >= l.len() {
        seq![l.subrange(i, l.len() as int)]
    } else {
        seq![l.subrange(i, e)] + words(l, e + 1, (n - 1) as nat)
    }
}

/// A word is the text `t`.
pub open spec fn is_word(w: Seq<u8>, t: Seq<char>) -> bool {
    w.len() == t.len() && text_at(w, 0, t)
}

/// The bytes that hexadecimal digits give, two for each.
pub open spec fn hex_bytes(w: Seq<u8>, n: int) -> Option<Seq<u8>> {
    if w.len() != 2 * n {
        None
    } else if forall|i: int| 0 <= i < n ==> #[trigger] hex_byte(w, i) is Some {
        Some(Seq::new(n as nat, |i: int| hex_byte(w, i)->Some_0 as u8))
    } else {
        None
    }
}

/// What the two hexadecimal digits of a byte stand for.
pub open spec fn hex_byte(w: Seq<u8>, i: int) -> Option<int> {
    match (digit(w[2 * i], 16), digit(w[2 * i + 1], 16)) {
        (Some(hi), Some(lo)) => Some(16 * hi + lo),
        _ => None,
    }
}

/// What a checkpoint says.
#[verifier::ext_equal]
pub struct Saved {
    pub pos: int,
    pub skip_until: int,
    pub seen: Seq<Seq<u8>>,
    pub tally: Tally,
}

/// The number in the second word, or else `other`.
pub open spec fn second_number(w: Seq<Seq<u8>>, other: int) -> int {
    if w.len() >= 2 && number_in(w[1], 10) is Some {
        number_in(w[1], 10)->Some_0
    } else {
        other
    }
}

/// An extension is that of one of the signatures.
pub open spec fn known_ext(known: Seq<Signature>, ext: Seq<u8>) -> bool {
    exists|k: int| 0 <= k < known.len() && encode_utf8((#[trigger] known[k]).ext@) == ext
}

/// The file that the words of a line give.
pub open spec fn file_in(known: Seq<Signature>, w: Seq<Seq<u8>>) -> Option<FileRecord> {
    if w.len() == 6 && known_ext(known, w[1]) && number_in(w[2], 10) is Some && number_in(w[3], 10) is Some
        && hex_bytes(w[4], 32) is Some && valid_utf8(w[5]) {
        Some(
            FileRecord {
                name: decode_utf8(w[5]),
                ext: decode_utf8(w[1]),
                offset: number_in(w[2], 10)->Some_0,
                size: number_in(w[3], 10)->Some_0,
                digest: hex_bytes(w[4], 32)->Some_0,
            },
        )
    } else {
        None
    }
}

/// What is known after a line of a checkpoint. A line that cannot be understood says nothing.
pub open spec fn with_line(known: Seq<Signature>, p: Saved, line: Seq<u8>) -> Saved {
    let w = words(trimmed(line), 0, 6);
    let t = p.tally;
    if is_word(w[0], "pos"@) {
        Saved { pos: second_number(w, p.pos), ..p }
    } else if is_word(w[0], "skip_until"@) {
        Saved { skip_until: second_number(w, p.skip_until), ..p }
    } else if is_word(w[0], "files"@) {
        Saved { tally: Tally { files: second_number(w, 0), ..t }, ..p }
    } else if is_word(w[0], "bytes"@) {
        Saved { tally: Tally { bytes: second_number(w, 0), ..t }, ..p }
    } else if is_word(w[0], "rejected"@) {
        Saved { tally: Tally { rejected: second_number(w, 0), ..t }, ..p }
    } else if is_word(w[0], "duplicates"@) {
        Saved { tally: Tally { duplicates: second_number(w, 0), ..t }, ..p }
    } else if is_word(w[0], "seen"@) {
        match hex_bytes(w[1], 32) {
            Some(d) if w.len() >= 2 => Saved { seen: p.seen.push(d), ..p },
            _ => p,
        }
    } else if is_word(w[0], "file"@) {
        match file_in(known, w) {
            Some(f) => Saved { tally: Tally { list: t.list.push(f), ..t }, ..p },
            None => p,
        }
    } else {
        p
    }
}

/// What is known after the lines of a checkpoint from `i` on.
pub open spec fn with_lines(known: Seq<Signature>, p: Saved, s: Seq<u8>, i: int) -> Saved
    decreases s.len() - i,
{
    let e = token_end(s, i, 0x0A);
    let next = with_line(known, p, s.subrange(i, e));
    if i < 0 || e < i || e >= s.len() {
        next
    } else {
        with_lines(known, next, s, e + 1)
    }
}

/// What is known before a checkpoint is read.
pub open spec fn nothing_saved() -> Saved {
    Saved { pos: 0, skip_until: 0, seen: Seq::empty(), tally: fresh_state(Set::empty()).tally }
}

/// What a restored checkpoint says.
pub open spec fn saved_in(c: Checkpoint) -> Saved {
    Saved {
        pos: c.pos as int,
        skip_until: c.skip_until as int,
        seen: c.seen@.map_values(|d: [u8; 32]| d@),
        tally: tally(c.stats),
    }
}

/// What the words say.
pub open spec fn word_views(w: Seq<Vec<u8>>) -> Seq<Seq<u8>> {
    w.map_values(|x: Vec<u8>| x@)
}

/// Split a line into words.
fn split_words(l: &[u8], n: usize) -> (r: Vec<Vec<u8>>)
    ensures
        word_views(r@) == words(l@, 0, n as nat),
        r@.len() >= 1,
{
    let mut r: Vec<Vec<u8>> = Vec::new();
    let mut i: usize = 0;
    let mut left: usize = n;
    while left > 1
        invariant
            i <= l.len(),
            words(l@, 0, n as nat) == word_views(r@) + words(l@, i as int, left as nat),
        decreases left,
    {
        match find_byte(l, i, 0x20) {
            Some(e) => {
                let ghost before = r@;
                let word = vstd::slice::slice_to_vec(&l[i..e]);
                r.push(word);
                assert(word_views(r@) =~= word_views(before).push(l@.subrange(i as int, e as int)));
                assert(word_views(before) + words(l@, i as int, left as nat) =~= word_views(r@)
                    + words(l@, e + 1, (left - 1) as nat));
                i = e + 1;
                left = left - 1;
            },
            None => {
                assert(words(l@, i as int, left as nat) == words(l@, i as int, 1));
                left = 1;
            },
        }
    }
    let ghost before = r@;
    let word = vstd::slice::slice_to_vec(&l[i..l.len()]);
    r.push(word);
    assert(words(l@, i as int, left as nat) == seq![l@.subrange(i as int, l@.len() as int)]);
    assert(word_views(r@) =~= word_views(before) + seq![l@.subrange(i as int, l@.len() as int)]);
    r
}

/// Whether a word is the text `t`.
fn word_is(w: &Vec<u8>, t: &str) -> (r: bool)
    ensures
        r == is_word(w@, t@),
{
    w.len() == t.unicode_len() && is_text(w, 0, t)
}

/// Parse 64 hexadecimal digits into a digest.
pub fn parse_hex32(w: &[u8]) -> (r: Option<[u8; 32]>)
    ensures
        match r {
            Some(d) => hex_bytes(w@, 32) == Some(d@),
            None => hex_bytes(w@, 32) is None,
        },
{
    if w.len() != 64 {
        return None;
    }
    let mut out: [u8; 32] = [0u8; 32];
    let mut i: usize = 0;
    while i < 32
        invariant
            i <= 32,
            w@.len() == 64,
            forall|k: int| 0 <= k < i ==> #[trigger] hex_byte(w@, k) == Some(out@[k] as int),
        decreases 32 - i,
    {
        assert(hex_bytes(w@, 32) is Some ==> hex_byte(w@, i as int) is Some);
        let hi: u64 = match digit_of(w[2 * i], 16) {
            Some(d) => d,
            None => {
                return None;
            },
        };
        let lo: u64 = match digit_of(w[2 * i + 1], 16) {
            Some(d) => d,
            None => {
                return None;
            },
        };
        out[i] = (16 * hi + lo) as u8;
        i += 1;
    }
    assert(hex_bytes(w@, 32)->Some_0 =~= out@);
    Some(out)
}

/// The number in the second word, or else `other`.
fn number_or(w: &Vec<Vec<u8>>, other: u64) -> (r: u64)
    ensures
        r == second_number(word_views(w@), other as int),
{
    if w.len() >= 2 {
        if let Some(v) = parse_number(w[1].as_slice(), 10) {
            return v;
        }
    }
    other
}

/// Whether an extension is that of one of the signatures.
fn is_known_ext(known: &[Signature], ext: &Vec<u8>) -> (r: bool)
    ensures
        r == known_ext(known@, ext@),
{
    let mut k: usize = 0;
    while k < known.len()
        invariant
            k <= known.len(),
            forall|j: int| 0 <= j < k ==> encode_utf8((#[trigger] known@[j]).ext@) != ext@,
        decreases known.len() - k,
    {
        let b = known[k].ext.as_bytes();
        if b.len() == ext.len() && is_bytes(ext, 0, b) {
            assert(ext@.subrange(0, b@.len() as int) =~= ext@);
            assert(encode_utf8(known@[k as int].ext@) == ext@);
            return true;
        }
        proof {
            if encode_utf8(known@[k as int].ext@) == ext@ {
                assert(ext@.subrange(0, b@.len() as int) =~= b@);
            }
        }
        k += 1;
    }
    false
}

/// The file that the words of a line give.
fn read_file(known: &[Signature], w: &Vec<Vec<u8>>) -> (r: Option<CarvedFile>)
    ensures
        match r {
            Some(f) => file_in(known@, word_views(w@)) == Some(record(f)),
            None => file_in(known@, word_views(w@)) is None,
        },
{
    if w.len() != 6 || !is_known_ext(known, &w[1]) || !is_utf8(w[5].as_slice()) {
        return None;
    }
    let offset: u64 = match parse_number(w[2].as_slice(), 10) {
        Some(v) => v,
        None => {
            return None;
        },
    };
    let size: u64 = match parse_number(w[3].as_slice(), 10) {
        Some(v) => v,
        None => {
            return None;
        },
    };
    let sha256 = match parse_hex32(w[4].as_slice()) {
        Some(d) => d,
        None => {
            return None;
        },
    };
    proof {
        let k = choose|k: int|
            0 <= k < known@.len() && encode_utf8((#[trigger] known@[k]).ext@) == w@[1]@;
        encode_utf8_valid_utf8(known@[k].ext@);
    }
    let ext = utf8_string(vstd::slice::slice_to_vec(w[1].as_slice()));
    let name = utf8_string(vstd::slice::slice_to_vec(w[5].as_slice()));
    Some(CarvedFile { name, ext, offset, size, sha256 })
}

impl Checkpoint {
    /// Take in a line.
    fn read_line(&mut self, known: &[Signature], line: &[u8])
        requires
            old(self).stats.wf(),
        ensures
            final(self).stats.wf(),
            final(self).stats.bytes_scanned == old(self).stats.bytes_scanned,
            saved_in(*final(self)) == with_line(known@, saved_in(*old(self)), line@),
    {
        let w = split_words(trim(line), 6);
        let ghost before = saved_in(*self);
        assert(word_views(w@)[0] == w@[0]@);
        if word_is(&w[0], "pos") {
            self.pos = number_or(&w, self.pos);
        } else if word_is(&w[0], "skip_until") {
            self.skip_until = number_or(&w, self.skip_until);
        } else if word_is(&w[0], "files") {
            self.stats.files_recovered = number_or(&w, 0);
        } else if word_is(&w[0], "bytes") {
            self.stats.bytes_recovered = number_or(&w, 0);
        } else if word_is(&w[0], "rejected") {
            self.stats.rejected = number_or(&w, 0);
        } else if word_is(&w[0], "duplicates") {
            self.stats.duplicates = number_or(&w, 0);
        } else if word_is(&w[0], "seen") {
            if w.len() >= 2 {
                assert(word_views(w@)[1] == w@[1]@);
                if let Some(d) = parse_hex32(w[1].as_slice()) {
                    self.seen.push(d);
                    assert(saved_in(*self).seen =~= before.seen.push(d@));
                }
            }
        } else if word_is(&w[0], "file") {
            if let Some(f) = read_file(known, &w) {
                self.stats.list_file(f);
            }
        }
        assert(saved_in(*self) =~= with_line(known@, before, line@));
    }
}

/// Read a scan checkpoint leniently: lines that cannot be understood are skipped (so a truncated file
/// degrades gracefully). Returns `None` only if the file is no text at all, in which case the caller starts
/// a fresh scan.
pub fn read_checkpoint(bytes: &[u8], known: &[Signature]) -> (r: Option<Checkpoint>)
    ensures
        match r {
            Some(c) => {
                &&& valid_utf8(bytes@)
                &&& saved_in(c) == with_lines(known@, nothing_saved(), bytes@, 0)
                &&& c.stats.wf()
                &&& c.stats.bytes_scanned == 0
            },
            None => !valid_utf8(bytes@),
        },
{
    if !is_utf8(bytes) {
        return None;
    }
    let mut c = Checkpoint { pos: 0, skip_until: 0, seen: Vec::new(), stats: CarveStats::empty() };
    assert(saved_in(c) =~= nothing_saved());
    let mut i: usize = 0;
    loop
        invariant
            i <= bytes.len(),
            valid_utf8(bytes@),
            c.stats.wf(),
            c.stats.bytes_scanned == 0,
            with_lines(known@, nothing_saved(), bytes@, 0) == with_lines(
                known@,
                saved_in(c),
                bytes@,
                i as int,
            ),
        decreases bytes.len() - i,
    {
        match find_byte(bytes, i, 0x0A) {
            Some(e) => {
                c.read_line(known, &bytes[i..e]);
                i = e + 1;
            },
            None => {
                c.read_line(known, &bytes[i..bytes.len()]);
                return Some(c);
            },
        }
    }
}

} // verus!
