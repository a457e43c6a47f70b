//! Signature carving: where the image is cut into chunks, which file
//! candidates a chunk holds, how candidates from overlapping chunks are
//! merged and counted, and what a recovery copies and records.

use vstd::prelude::*;

use crate::disk_reader::{image_window, DiskImageReader, DiskReaderError, SECTOR_SIZE};
use crate::file_types::{FileSignature, FileType, all_file_types, lemma_type_code_distinct, type_code, max_size_of, min_size_of, get_all_signatures, get_max_footer_length, get_max_header_length, is_signature_of};
use crate::fs_parser::{ClusterChain, FileSystemParser, FileSystemType, FsError, FsParser, SmartCarver, create_filesystem_parser, parser_found_chain, parser_of_image};
use crate::recovery::{CopyJob, MAX_BLOCK};
use crate::simd_search::occurs_at;
use vstd::seq_lib::lemma_seq_contains_after_push;

verus! {

/// A file found in the image.
#[derive(Debug, Clone)]
pub struct MatchResult {
    pub file_type: FileType,
    pub start_offset: u64,
    pub end_offset: u64,
    pub size: u64,
    pub md5_hash: Option<String>,
    pub sha256_hash: Option<String>,
    pub recovered: bool,
    pub output_path: Option<std::path::PathBuf>,
    pub sector_start: u64,
    pub sector_end: u64,
    pub fs_rebuilt: bool,
    pub is_fragmented: bool,
    pub cluster_count: u64,
    pub fs_type: FileSystemType,
}

/// Counts kept during a carving run.
#[derive(Debug, Clone)]
pub struct CarveStats {
    pub total_bytes_processed: u64,
    pub total_matches: usize,
    /// How many files of each type were found, by type number (see
    /// [`FileType::code`]).
    pub matches_by_type: std::collections::HashMap<u64, usize>,
    pub successful_recoveries: usize,
    pub failed_recoveries: usize,
    pub fs_rebuilt_count: usize,
    pub fragmented_count: usize,
    pub contiguous_count: usize,
    pub detected_fs: FileSystemType,
}

/// The count kept for `t` in `counts` (0 where none is kept).
pub open spec fn type_count(counts: Map<u64, usize>, t: FileType) -> int {
    if counts.contains_key(type_code(t)) {
        counts[type_code(t)] as int
    } else {
        0
    }
}

/// Every number in `counts` stands for a type.
pub open spec fn counts_keyed_by_type(counts: Map<u64, usize>) -> bool {
    forall|k: u64| #[trigger] counts.contains_key(k) ==> k < 30
}

impl CarveStats {
    /// Nothing processed, nothing found, no file system detected.
    pub open spec fn is_fresh(&self) -> bool {
        &&& self.total_bytes_processed == 0
        &&& self.total_matches == 0
        &&& self.matches_by_type@ == Map::<u64, usize>::empty()
        &&& self.successful_recoveries == 0
        &&& self.failed_recoveries == 0
        &&& self.fs_rebuilt_count == 0
        &&& self.fragmented_count == 0
        &&& self.contiguous_count == 0
        &&& self.detected_fs == FileSystemType::Unknown
    }

    /// Nothing processed, nothing found.
    pub fn new() -> (s: Self)
        ensures
            s.is_fresh(),
    {
        CarveStats {
            total_bytes_processed: 0,
            total_matches: 0,
            matches_by_type: std::collections::HashMap::new(),
            successful_recoveries: 0,
            failed_recoveries: 0,
            fs_rebuilt_count: 0,
            fragmented_count: 0,
            contiguous_count: 0,
            detected_fs: FileSystemType::Unknown,
        }
    }

    /// Records that `bytes_processed` bytes of the image have been scanned.
    pub fn update(&mut self, bytes_processed: u64)
        ensures
            *final(self) == (CarveStats { total_bytes_processed: bytes_processed, ..*old(self) }),
    {
        self.total_bytes_processed = bytes_processed;
    }

    /// Counts one more file of type `file_type`.
    pub fn add_match(&mut self, file_type: FileType)
        requires
            counts_keyed_by_type(old(self).matches_by_type@),
            old(self).total_matches < usize::MAX,
            type_count(old(self).matches_by_type@, file_type) < usize::MAX,
        ensures
            counts_keyed_by_type(final(self).matches_by_type@),
            final(self).total_matches == old(self).total_matches + 1,
            forall|u: FileType| type_count(final(self).matches_by_type@, u)
                == type_count(old(self).matches_by_type@, u) + if u == file_type { 1int } else { 0int },
            *final(self) == (CarveStats { total_matches: final(self).total_matches, matches_by_type: final(self).matches_by_type, ..*old(self) }),
    {
        self.total_matches = self.total_matches + 1;
        bump_type_count(&mut self.matches_by_type, file_type);
    }
}

/// Adds one to the count of `t` in `counts` (keeping 1 for it where none
/// is kept); returns the new count.
pub(crate) fn bump_type_count(counts: &mut std::collections::HashMap<u64, usize>, t: FileType) -> (c: usize)
    requires
        counts_keyed_by_type(old(counts)@),
        type_count(old(counts)@, t) < usize::MAX,
    ensures
        counts_keyed_by_type(final(counts)@),
        c == type_count(old(counts)@, t) + 1,
        forall|u: FileType| type_count(final(counts)@, u)
            == type_count(old(counts)@, u) + if u == t { 1int } else { 0int },
{
    broadcast use vstd::std_specs::hash::group_hash_axioms;
    let code = t.code();
    let c = match counts.get(&code) {
        Some(v) => *v + 1,
        None => 1,
    };
    counts.insert(code, c);
    proof {
        assert forall|u: FileType| type_count(counts@, u)
            == type_count(old(counts)@, u) + if u == t { 1int } else { 0int } by {
            lemma_type_code_distinct(u, t);
        }
        assert forall|k: u64| #[trigger] counts@.contains_key(k) implies k < 30 by {
            lemma_type_code_distinct(t, t);
            if k != code {
                assert(old(counts)@.contains_key(k));
            }
        }
    }
    c
}

/// Settings of a carving run.
#[derive(Debug, Clone)]
pub struct CarverConfig {
    pub chunk_size: usize,
    pub overlap_size: usize,
    pub thread_count: usize,
    pub min_match_interval: u64,
    pub output_dir: std::path::PathBuf,
    pub calculate_hashes: bool,
    pub sector_aligned: bool,
    pub selected_types: Option<Vec<FileType>>,
    pub use_filesystem_metadata: bool,
    pub partition_offset: u64,
    pub fs_fallback: bool,
}

/// Calls `num_cpus::get`: the number of logical CPUs available, at least 1.
#[verifier::external_body]
fn available_cpus() -> (n: usize)
    ensures
        n >= 1,
{
    num_cpus::get()
}

/// The path that `PathBuf::from` makes of the text `s`.
pub uninterp spec fn path_of_text(s: Seq<char>) -> std::path::PathBuf;

/// Calls `PathBuf::from` on `s`: the path of that text, the same for the
/// same text.
#[verifier::external_body]
fn path_from(s: &str) -> (p: std::path::PathBuf)
    ensures
        p == path_of_text(s@),
{
    std::path::PathBuf::from(s)
}

/// `n` is a power of two.
pub open spec fn is_power_of_two(n: int) -> bool
    decreases n,
{
    if n <= 0 {
        false
    } else if n == 1 {
        true
    } else {
        n % 2 == 0 && is_power_of_two(n / 2)
    }
}

/// The smallest power of two that is at least `n`.
pub fn next_power_of_two(n: usize) -> (p: usize)
    requires
        n <= usize::MAX / 2 + 1,
    ensures
        p >= n,
        is_power_of_two(p as int),
        p == 1 || p / 2 < n,
{
    let mut p: usize = 1;
    while p < n
        invariant
            is_power_of_two(p as int),
            p == 1 || p / 2 < n,
            n <= usize::MAX / 2 + 1,
        decreases usize::MAX - p,
    {
        proof {
            assert((p * 2) / 2 == p);
            assert((p * 2) % 2 == 0);
        }
        p = p * 2;
    }
    p
}

/// Bytes that consecutive chunks share: the longest signature part plus
/// 4096, rounded up to a power of two.
pub fn default_overlap_size() -> (r: usize)
    ensures
        r >= 4104,
        is_power_of_two(r as int),
        r / 2 < 4104,
{
    let max_header = get_max_header_length();
    let max_footer = get_max_footer_length();
    let longest = if max_header > max_footer { max_header } else { max_footer };
    next_power_of_two(longest + 4096)
}

impl Default for CarverConfig {
    /// 64 MiB chunks that overlap by [`default_overlap_size`] bytes, one
    /// thread per CPU, 512-byte deduplication interval, `./recovered`,
    /// hashes on, sector alignment on, every type, file-system metadata on
    /// at offset 0 with fallback to plain carving.
    fn default() -> (c: Self)
        ensures
            c.chunk_size == 67108864,
            c.overlap_size >= 4104,
            is_power_of_two(c.overlap_size as int),
            c.overlap_size / 2 < 4104,
            c.thread_count >= 1,
            c.min_match_interval == 512,
            c.calculate_hashes,
            c.sector_aligned,
            c.selected_types is None,
            c.use_filesystem_metadata,
            c.partition_offset == 0,
            c.fs_fallback,
            c.output_dir == path_of_text("./recovered"@),
    {
        CarverConfig {
            chunk_size: 64 * 1024 * 1024,
            overlap_size: default_overlap_size(),
            thread_count: available_cpus(),
            min_match_interval: 512,
            output_dir: path_from("./recovered"),
            calculate_hashes: true,
            sector_aligned: true,
            selected_types: None,
            use_filesystem_metadata: true,
            partition_offset: 0,
            fs_fallback: true,
        }
    }
}

/// The signatures of `sigs` whose type `selected` names (all of them when
/// `selected` is `None`), in order.
pub open spec fn selected_signatures(sigs: Seq<FileSignature>, selected: Option<Seq<FileType>>) -> Seq<FileSignature>
    decreases sigs.len(),
{
    if sigs.len() == 0 {
        Seq::empty()
    } else {
        let rest = selected_signatures(sigs.drop_last(), selected);
        match selected {
            None => rest.push(sigs.last()),
            Some(types) => if types.contains(sigs.last().file_type) {
                rest.push(sigs.last())
            } else {
                rest
            },
        }
    }
}

/// Whether `types` holds `t`.
fn contains_type(types: &Vec<FileType>, t: FileType) -> (r: bool)
    ensures
        r == types@.contains(t),
{
    let mut i: usize = 0;
    while i < types.len()
        invariant
            i <= types@.len(),
            forall|k: int| 0 <= k < i ==> types@[k] != t,
        decreases types@.len() - i,
    {
        if types[i] == t {
            return true;
        }
        i = i + 1;
    }
    false
}

/// The signatures a carver scans for: those of `all` whose type is
/// selected, in order.
pub fn select_signatures(all: &Vec<FileSignature>, selected: &Option<Vec<FileType>>) -> (sigs: Vec<FileSignature>)
    ensures
        sigs@ == selected_signatures(all@, match selected {
            Some(v) => Some(v@),
            None => None,
        }),
{
    let ghost sel = match selected {
        Some(v) => Some(v@),
        None => None,
    };
    let mut sigs: Vec<FileSignature> = Vec::new();
    let mut i: usize = 0;
    while i < all.len()
        invariant
            i <= all@.len(),
            sel == (match selected {
                Some(v) => Some(v@),
                None => None::<Seq<FileType>>,
            }),
            sigs@ == selected_signatures(all@.take(i as int), sel),
        decreases all@.len() - i,
    {
        proof { assert(all@.take(i + 1).drop_last() =~= all@.take(i as int)); }
        let keep = match selected {
            Some(types) => contains_type(types, all[i].file_type),
            None => true,
        };
        if keep {
            sigs.push(all[i]);
        }
        i = i + 1;
    }
    proof { assert(all@.take(i as int) =~= all@); }
    sigs
}

/// `offsets` are the starts of the chunks that cover `total` bytes with
/// chunks of `chunk` bytes, each starting `chunk - overlap` bytes after the
/// previous one, the last being the first that reaches the end.
pub open spec fn is_chunk_plan(offsets: Seq<u64>, total: int, chunk: int, overlap: int) -> bool {
    &&& (offsets.len() == 0 <==> total == 0)
    &&& forall|k: int| 0 <= k < offsets.len() ==> #[trigger] offsets[k] == k * (chunk - overlap)
    &&& forall|k: int| 0 <= k < offsets.len() - 1 ==> #[trigger] offsets[k] + chunk < total
    &&& offsets.len() > 0 ==> offsets.last() < total && offsets.last() + chunk >= total
}

/// Start offsets of the chunks a scan reads (see [`is_chunk_plan`]).
pub fn chunk_offsets(total_size: u64, chunk_size: u64, overlap: u64) -> (offsets: Vec<u64>)
    requires
        chunk_size > overlap,
    ensures
        is_chunk_plan(offsets@, total_size as int, chunk_size as int, overlap as int),
{
    let mut offsets: Vec<u64> = Vec::new();
    let mut current: u64 = 0;
    let step = chunk_size - overlap;
    while current < total_size
        invariant
            step == chunk_size - overlap,
            step > 0,
            current as int == offsets@.len() * step,
            forall|k: int| 0 <= k < offsets@.len() ==> #[trigger] offsets@[k] == k * step,
            forall|k: int| 0 <= k < offsets@.len() ==> #[trigger] offsets@[k] + chunk_size < total_size,
            offsets@.len() == 0 || current < total_size,
        decreases total_size - current,
    {
        offsets.push(current);
        if current as u128 + chunk_size as u128 >= total_size as u128 {
            return offsets;
        }
        proof {
            assert(offsets@[offsets@.len() - 1] == current);
            assert((offsets@.len() - 1) * step + step == offsets@.len() * step) by (nonlinear_arith);
        }
        current = current + step;
    }
    offsets
}

/// The chunks of a plan cover the image: every byte lies in the chunk of
/// some planned offset.
pub proof fn lemma_chunk_plan_covers(offsets: Seq<u64>, total: int, chunk: int, overlap: int, p: int)
    requires
        is_chunk_plan(offsets, total, chunk, overlap),
        0 <= overlap < chunk,
        0 <= p < total,
    ensures
        exists|k: int| 0 <= k < offsets.len() && #[trigger] offsets[k] <= p < offsets[k] + chunk,
{
    let step = chunk - overlap;
    let q = p / step;
    vstd::arithmetic::div_mod::lemma_fundamental_div_mod(p, step);
    assert(p == step * q + p % step);
    assert(0 <= p % step < step);
    assert(q >= 0) by (nonlinear_arith) requires p >= 0, step > 0, q == p / step;
    let last = offsets.len() - 1;
    assert(offsets.len() > 0);
    if q < last {
        assert(offsets[q] == q * step);
        assert(q * step <= p) by (nonlinear_arith) requires p == step * q + p % step, p % step >= 0;
        assert(p < q * step + step) by (nonlinear_arith) requires p == step * q + p % step, p % step < step;
        assert(offsets[q] <= p < offsets[q] + chunk);
    } else {
        assert(offsets[last] == last * step);
        assert(last * step <= q * step) by (nonlinear_arith) requires last <= q, step > 0;
        assert(q * step <= p) by (nonlinear_arith) requires p == step * q + p % step, p % step >= 0;
        assert(offsets[last] <= p < offsets[last] + chunk);
    }
}

/// A range of the image no longer than the overlap lies whole inside the
/// window read for some planned chunk (the chunk with `overlap` bytes on
/// both sides, clipped to the image), so a file that short is never split
/// between chunks.
pub proof fn lemma_chunk_windows_hold_short_ranges(offsets: Seq<u64>, total: int, chunk: int, overlap: int, a: int, len: int)
    requires
        is_chunk_plan(offsets, total, chunk, overlap),
        0 <= overlap < chunk,
        0 <= a,
        0 < len <= overlap,
        a + len <= total,
    ensures
        exists|k: int| 0 <= k < offsets.len() && {
            let window_start = if #[trigger] offsets[k] >= overlap { offsets[k] - overlap } else { 0 };
            let window_end = if offsets[k] + chunk + overlap < total { offsets[k] + chunk + overlap } else { total };
            &&& window_start <= a
            &&& a + len <= window_end
        },
{
    lemma_chunk_plan_covers(offsets, total, chunk, overlap, a);
    let k = choose|k: int| 0 <= k < offsets.len() && #[trigger] offsets[k] <= a < offsets[k] + chunk;
    assert(offsets[k] <= a < offsets[k] + chunk);
}

/// Reads the chunk at `offset` of `size` bytes together with `overlap`
/// bytes on both sides, clipped to the image (`total_size` bytes); returns
/// the bytes read and the range `[start, end)` they cover: the image's bytes
/// there, the whole range unless the image ends first.
pub fn read_chunk_with_overlap<R: DiskImageReader>(
    reader: &mut R,
    offset: u64,
    size: u64,
    overlap: u64,
    total_size: u64,
) -> (res: Result<(Vec<u8>, u64, u64), DiskReaderError>)
    requires
        offset <= total_size,
        offset + size + overlap <= u64::MAX,
    ensures
        final(reader).image() == old(reader).image(),
        res matches Ok((buf, start, end)) ==> {
            &&& start == (if offset >= overlap { offset - overlap } else { 0 })
            &&& end == start + buf@.len()
            &&& end <= (if offset + size + overlap < total_size { offset + size + overlap } else { total_size as int })
            &&& buf@ == image_window(old(reader).image(), start as int, buf@.len() as int)
            &&& (end == (if offset + size + overlap < total_size { offset + size + overlap } else { total_size as int })
                || end >= old(reader).image().len())
        },
{
    let actual_start = if offset >= overlap { offset - overlap } else { 0 };
    let reach = offset + size + overlap;
    let actual_end = if reach < total_size { reach } else { total_size };
    let actual_size = actual_end - actual_start;
    let mut buffer: Vec<u8> = vec![0u8; actual_size as usize];
    let bytes_read = match reader.read_offset(actual_start, actual_size, buffer.as_mut_slice()) {
        Ok(n) => n,
        Err(e) => return Err(e),
    };
    let mut got: u64 = bytes_read as u64;
    if (buffer.len() as u64) < got {
        got = buffer.len() as u64;
    }
    if actual_size < got {
        got = actual_size;
    }
    buffer.truncate(got as usize);
    proof {
        assert(buffer@ =~= image_window(old(reader).image(), actual_start as int, got as int));
    }
    Ok((buffer, actual_start, actual_start + got))
}


// ---------------------------------------------------------------------------
// Substring search
// ---------------------------------------------------------------------------

/// The first position at or after `from` at which `p` occurs in `h`.
pub open spec fn first_occurrence_from(h: Seq<u8>, p: Seq<u8>, from: int) -> Option<int>
    decreases h.len() + 1 - from,
{
    if from < 0 || from > h.len() {
        None
    } else if occurs_at(h, p, from) {
        Some(from)
    } else {
        first_occurrence_from(h, p, from + 1)
    }
}

/// The positions `memmem::find_iter` reports for `p` in `h` from `from` on:
/// found left to right, each search resuming right after the previous
/// occurrence (an empty `p` occurs at every position up to `h.len()`).
pub open spec fn greedy_occurrences(h: Seq<u8>, p: Seq<u8>, from: int) -> Seq<int>
    decreases h.len() + 1 - from,
{
    if from < 0 || from > h.len() {
        Seq::empty()
    } else if p.len() == 0 {
        seq![from] + greedy_occurrences(h, p, from + 1)
    } else {
        match first_occurrence_from(h, p, from) {
            None => Seq::empty(),
            Some(i) => if i >= from && i + p.len() <= h.len() {
                seq![i] + greedy_occurrences(h, p, i + p.len())
            } else {
                Seq::empty()
            },
        }
    }
}

/// A first occurrence is an occurrence, at or after where the search began,
/// with none before it.
pub proof fn lemma_first_occurrence(h: Seq<u8>, p: Seq<u8>, from: int)
    requires
        0 <= from,
    ensures
        first_occurrence_from(h, p, from) matches Some(i) ==> from <= i && occurs_at(h, p, i)
            && forall|j: int| from <= j < i ==> !occurs_at(h, p, j),
        first_occurrence_from(h, p, from) is None ==> forall|j: int| from <= j ==> !occurs_at(h, p, j),
    decreases h.len() + 1 - from,
{
    if !(from < 0 || from > h.len()) && !occurs_at(h, p, from) {
        lemma_first_occurrence(h, p, from + 1);
    }
}

/// The greedy occurrences are occurrences, in strictly increasing order,
/// none before `from`.
pub proof fn lemma_greedy_occurrences(h: Seq<u8>, p: Seq<u8>, from: int)
    requires
        0 <= from,
    ensures
        forall|k: int| 0 <= k < greedy_occurrences(h, p, from).len() ==>
            from <= #[trigger] greedy_occurrences(h, p, from)[k] && occurs_at(h, p, greedy_occurrences(h, p, from)[k]),
        forall|k: int, l: int| 0 <= k < l < greedy_occurrences(h, p, from).len() ==>
            #[trigger] greedy_occurrences(h, p, from)[k] < #[trigger] greedy_occurrences(h, p, from)[l],
    decreases h.len() + 1 - from,
{
    if from < 0 || from > h.len() {
    } else if p.len() == 0 {
        lemma_greedy_occurrences(h, p, from + 1);
        let rest = greedy_occurrences(h, p, from + 1);
        let g = greedy_occurrences(h, p, from);
        assert(g == seq![from] + rest);
        assert(h.subrange(from, from) =~= p);
        assert forall|k: int| 0 <= k < g.len() implies from <= #[trigger] g[k] && occurs_at(h, p, g[k]) by {
            if k > 0 {
                assert(g[k] == rest[k - 1]);
            }
        }
        assert forall|k: int, l: int| 0 <= k < l < g.len() implies #[trigger] g[k] < #[trigger] g[l] by {
            assert(g[l] == rest[l - 1]);
            if k > 0 {
                assert(g[k] == rest[k - 1]);
            }
        }
    } else {
        lemma_first_occurrence(h, p, from);
        if let Some(i) = first_occurrence_from(h, p, from) {
            if i >= from && i + p.len() <= h.len() {
                lemma_greedy_occurrences(h, p, i + p.len());
                let rest = greedy_occurrences(h, p, i + p.len());
                let g = greedy_occurrences(h, p, from);
                assert(g == seq![i] + rest);
                assert forall|k: int| 0 <= k < g.len() implies from <= #[trigger] g[k] && occurs_at(h, p, g[k]) by {
                    if k > 0 {
                        assert(g[k] == rest[k - 1]);
                    }
                }
                assert forall|k: int, l: int| 0 <= k < l < g.len() implies #[trigger] g[k] < #[trigger] g[l] by {
                    assert(g[l] == rest[l - 1]);
                    if k > 0 {
                        assert(g[k] == rest[k - 1]);
                    }
                }
            }
        }
    }
}

/// Calls `memchr::memmem::Finder::find_iter` for `needle` over `haystack`
/// and collects the positions it reports.
#[verifier::external_body]
fn find_iter_positions(haystack: &[u8], needle: &[u8]) -> (r: Vec<usize>)
    ensures
        r@.len() == greedy_occurrences(haystack@, needle@, 0).len(),
        forall|k: int| 0 <= k < r@.len() ==> r@[k] == #[trigger] greedy_occurrences(haystack@, needle@, 0)[k],
{
    memchr::memmem::Finder::new(needle).find_iter(haystack).collect()
}

/// Calls `memchr::memmem::Finder::find` for `needle` in `haystack`: the
/// first occurrence.
#[verifier::external_body]
fn find_first_position(haystack: &[u8], needle: &[u8]) -> (r: Option<usize>)
    ensures
        r matches Some(i) ==> first_occurrence_from(haystack@, needle@, 0) == Some(i as int),
        r is None ==> first_occurrence_from(haystack@, needle@, 0) is None,
{
    memchr::memmem::Finder::new(needle).find(haystack)
}

// ---------------------------------------------------------------------------
// Candidates in a chunk
// ---------------------------------------------------------------------------

/// Where the file whose header lies at `hp` in a chunk ends, if it is kept.
///
/// The chunk `buf` covers image bytes from `bstart`; `bend` is the end of
/// what was read. With `aligned`, a header more than 64 bytes into a sector
/// is skipped. A footer searched from `min_size` to `max_size` bytes after
/// the header ends the file just after it; without one the file runs for
/// `max_size` bytes, cut at `bend`. Files outside the type's size range are
/// dropped.
pub open spec fn candidate_end(buf: Seq<u8>, bstart: int, bend: int, sig: FileSignature, hp: int, aligned: bool) -> Option<int> {
    let gs = bstart + hp;
    if aligned && gs % 512 != 0 && gs % 512 > 64 {
        None
    } else {
        let ss = hp + sig.min_size;
        let se = if hp + sig.max_size < buf.len() { hp + sig.max_size } else { buf.len() as int };
        let footer_end: Option<int> = match sig.footer {
            Some(f) => if ss < se {
                match first_occurrence_from(buf.subrange(ss, se), f@, 0) {
                    Some(fp) => Some(gs + (ss - hp) + fp + f@.len()),
                    None => None,
                }
            } else {
                None
            },
            None => None,
        };
        let end = match footer_end {
            Some(e) => e,
            None => if bend < gs + sig.max_size { bend } else { gs + sig.max_size },
        };
        if end - gs < sig.min_size || end - gs > sig.max_size {
            None
        } else {
            Some(end)
        }
    }
}

/// A file of a type with a footer ends just after the first footer that
/// lies wholly within the chunk between `min_size` and `max_size` bytes
/// after its header (where the alignment setting keeps the header).
pub proof fn lemma_candidate_ends_after_first_footer(
    buf: Seq<u8>,
    bstart: int,
    bend: int,
    sig: FileSignature,
    hp: int,
    aligned: bool,
    p: int,
)
    requires
        0 <= hp,
        !(aligned && (bstart + hp) % 512 != 0 && (bstart + hp) % 512 > 64),
        sig.footer is Some,
        sig.footer->0@.len() > 0,
        hp + sig.min_size <= p,
        p + sig.footer->0@.len() <= hp + sig.max_size,
        p + sig.footer->0@.len() <= buf.len(),
        occurs_at(buf, sig.footer->0@, p),
        forall|q: int| hp + sig.min_size <= q < p ==> !occurs_at(buf, sig.footer->0@, q),
    ensures
        candidate_end(buf, bstart, bend, sig, hp, aligned) == Some(bstart + p + sig.footer->0@.len()),
{
    let f = sig.footer->0@;
    let ss = hp + sig.min_size;
    let se = if hp + sig.max_size < buf.len() { hp + sig.max_size } else { buf.len() as int };
    let sub = buf.subrange(ss, se);
    lemma_first_occurrence(sub, f, 0);
    assert(sub.subrange(p - ss, p - ss + f.len()) =~= buf.subrange(p, p + f.len()));
    assert(occurs_at(sub, f, p - ss));
    let j = first_occurrence_from(sub, f, 0)->0;
    assert(first_occurrence_from(sub, f, 0) is Some);
    if j < p - ss {
        assert(sub.subrange(j, j + f.len()) =~= buf.subrange(ss + j, ss + j + f.len()));
        assert(occurs_at(buf, f, ss + j));
    }
    assert(j == p - ss);
}

/// A file with no footer in reach (its type has none, or none lies wholly
/// within the chunk between `min_size` and `max_size` bytes after its
/// header) runs for `max_size` bytes, cut where the read part of the image
/// ends; it is kept when that leaves it at least `min_size` bytes.
pub proof fn lemma_candidate_without_footer(
    buf: Seq<u8>,
    bstart: int,
    bend: int,
    sig: FileSignature,
    hp: int,
    aligned: bool,
)
    requires
        0 <= hp,
        !(aligned && (bstart + hp) % 512 != 0 && (bstart + hp) % 512 > 64),
        sig.min_size <= sig.max_size,
        sig.footer is None || forall|q: int| hp + sig.min_size <= q && q + sig.footer->0@.len() <= hp + sig.max_size
            && q + sig.footer->0@.len() <= buf.len() ==> !occurs_at(buf, sig.footer->0@, q),
    ensures
        ({
            let end = if bend < bstart + hp + sig.max_size { bend } else { bstart + hp + sig.max_size };
            candidate_end(buf, bstart, bend, sig, hp, aligned)
                == if end - (bstart + hp) >= sig.min_size { Some(end) } else { None::<int> }
        }),
{
    if sig.footer is Some {
        let f = sig.footer->0@;
        let ss = hp + sig.min_size;
        let se = if hp + sig.max_size < buf.len() { hp + sig.max_size } else { buf.len() as int };
        if ss < se {
            let sub = buf.subrange(ss, se);
            lemma_first_occurrence(sub, f, 0);
            if first_occurrence_from(sub, f, 0) is Some {
                let j = first_occurrence_from(sub, f, 0)->0;
                assert(sub.subrange(j, j + f.len()) =~= buf.subrange(ss + j, ss + j + f.len()));
                assert(occurs_at(buf, f, ss + j));
            }
        }
    }
}

/// The kept candidates `(start, end)` among header positions `hps`, in order.
pub open spec fn kept_candidates(buf: Seq<u8>, bstart: int, bend: int, sig: FileSignature, aligned: bool, hps: Seq<int>) -> Seq<(int, int)>
    decreases hps.len(),
{
    if hps.len() == 0 {
        Seq::empty()
    } else {
        let rest = kept_candidates(buf, bstart, bend, sig, aligned, hps.drop_last());
        match candidate_end(buf, bstart, bend, sig, hps.last(), aligned) {
            Some(e) => rest.push((bstart + hps.last(), e)),
            None => rest,
        }
    }
}

/// The kept candidates of signature `sig` in the chunk.
pub open spec fn signature_candidates(buf: Seq<u8>, bstart: int, bend: int, sig: FileSignature, aligned: bool) -> Seq<(int, int)> {
    kept_candidates(buf, bstart, bend, sig, aligned, greedy_occurrences(buf, sig.header@, 0))
}

/// The match record of a file of type `t` spanning `[start, end)`.
pub open spec fn match_record(t: FileType, start: int, end: int) -> MatchResult {
    MatchResult {
        file_type: t,
        start_offset: start as u64,
        end_offset: end as u64,
        size: (end - start) as u64,
        md5_hash: None,
        sha256_hash: None,
        recovered: false,
        output_path: None,
        sector_start: (start / 512) as u64,
        sector_end: (end / 512) as u64,
        fs_rebuilt: false,
        is_fragmented: false,
        cluster_count: 0,
        fs_type: FileSystemType::Unknown,
    }
}

/// `t` is ordered by start, then by signature index, without repeats.
pub open spec fn triples_sorted(t: Seq<(u64, u64, usize)>) -> bool {
    forall|k: int, l: int| 0 <= k < l < t.len() ==> (#[trigger] t[k]).0 < (#[trigger] t[l]).0 || (t[k].0 == t[l].0 && t[k].2 < t[l].2)
}

/// The end of a kept candidate, as `candidate_end` gives it.
fn candidate_end_exec(buffer: &[u8], buffer_start: u64, buffer_end: u64, sig: &FileSignature, hp: usize, aligned: bool) -> (r: Option<u64>)
    requires
        hp <= buffer@.len(),
        buffer_start + buffer@.len() + sig.max_size <= u64::MAX,
        buffer_end >= buffer_start + buffer@.len(),
    ensures
        r matches Some(e) ==> candidate_end(buffer@, buffer_start as int, buffer_end as int, *sig, hp as int, aligned) == Some(e as int),
        r is None ==> candidate_end(buffer@, buffer_start as int, buffer_end as int, *sig, hp as int, aligned) is None,
{
    if sig.min_size > sig.max_size {
        return None;
    }
    let n = buffer.len();
    let gs = buffer_start + hp as u64;
    if aligned {
        let sector_offset = gs % SECTOR_SIZE;
        if sector_offset != 0 && sector_offset > 64 {
            return None;
        }
    }
    let mut end: u64 = 0;
    let mut found = false;
    let ghost ss_spec = hp + sig.min_size;
    if let Some(footer) = sig.footer {
        let ss = hp as u64 + sig.min_size;
        let se = if (hp as u64 + sig.max_size) < n as u64 { hp as u64 + sig.max_size } else { n as u64 };
        if ss < se {
            let window = vstd::slice::slice_subrange(buffer, ss as usize, se as usize);
            if let Some(fp) = find_first_position(window, footer) {
                proof { lemma_first_occurrence(window@, footer@, 0); }
                end = gs + (ss - hp as u64) + fp as u64 + footer.len() as u64;
                found = true;
            }
        }
    }
    if !found {
        end = if buffer_end < gs + sig.max_size { buffer_end } else { gs + sig.max_size };
    }
    let size = end - gs;
    if size < sig.min_size || size > sig.max_size {
        None
    } else {
        Some(end)
    }
}

/// Merges the kept candidates `b` of signature `b_index` into `a`, which
/// holds those of earlier signatures; the result is ordered by start, then
/// by signature index.
fn merge_candidates(a: Vec<(u64, u64, usize)>, b: &Vec<(u64, u64)>, b_index: usize) -> (out: Vec<(u64, u64, usize)>)
    requires
        triples_sorted(a@),
        forall|k: int| 0 <= k < a@.len() ==> (#[trigger] a@[k]).2 < b_index,
        forall|k: int, l: int| 0 <= k < l < b@.len() ==> (#[trigger] b@[k]).0 < (#[trigger] b@[l]).0,
        forall|k: int| 0 <= k < a@.len() ==> (#[trigger] a@[k]).0 <= a@[k].1,
        forall|k: int| 0 <= k < b@.len() ==> (#[trigger] b@[k]).0 <= b@[k].1,
    ensures
        forall|k: int| 0 <= k < out@.len() ==> (#[trigger] out@[k]).0 <= out@[k].1,
        triples_sorted(out@),
        forall|k: int| 0 <= k < out@.len() ==> (#[trigger] out@[k]).2 <= b_index,
        forall|x: (u64, u64, usize)| #[trigger] out@.contains(x) <==> (a@.contains(x) || (x.2 == b_index && b@.contains((x.0, x.1)))),
{
    let mut out: Vec<(u64, u64, usize)> = Vec::new();
    let mut i: usize = 0;
    let mut j: usize = 0;
    while i < a.len() || j < b.len()
        invariant
            i <= a@.len(),
            j <= b@.len(),
            triples_sorted(a@),
            forall|k: int| 0 <= k < a@.len() ==> (#[trigger] a@[k]).2 < b_index,
            forall|k: int, l: int| 0 <= k < l < b@.len() ==> (#[trigger] b@[k]).0 < (#[trigger] b@[l]).0,
            forall|k: int| 0 <= k < a@.len() ==> (#[trigger] a@[k]).0 <= a@[k].1,
            forall|k: int| 0 <= k < b@.len() ==> (#[trigger] b@[k]).0 <= b@[k].1,
            forall|k: int| 0 <= k < out@.len() ==> (#[trigger] out@[k]).0 <= out@[k].1,
            triples_sorted(out@),
            forall|k: int| 0 <= k < out@.len() ==> (#[trigger] out@[k]).2 <= b_index,
            forall|x: (u64, u64, usize)| #[trigger] out@.contains(x) <==> (a@.take(i as int).contains(x)
                || (x.2 == b_index && b@.take(j as int).contains((x.0, x.1)))),
            out@.len() > 0 && i < a@.len() ==> (out@.last().0 < a@[i as int].0
                || (out@.last().0 == a@[i as int].0 && out@.last().2 < a@[i as int].2)),
            out@.len() > 0 && j < b@.len() ==> (out@.last().0 < b@[j as int].0
                || (out@.last().0 == b@[j as int].0 && out@.last().2 < b_index)),
        decreases a@.len() - i + b@.len() - j,
    {
        let take_a = if i < a.len() && j < b.len() {
            a[i].0 <= b[j].0
        } else {
            i < a.len()
        };
        let ghost old_out = out@;
        if take_a {
            let x = a[i];
            out.push(x);
            proof {
                assert(a@.take(i + 1) =~= a@.take(i as int).push(x));
                assert(out@ =~= old_out.push(x));
                assert forall|k: int, l: int| 0 <= k < l < out@.len() implies (#[trigger] out@[k]).0 < (#[trigger] out@[l]).0
                    || (out@[k].0 == out@[l].0 && out@[k].2 < out@[l].2) by {
                    if l == out@.len() - 1 {
                        if k < old_out.len() - 1 {
                            assert(old_out[k].0 < old_out.last().0 || (old_out[k].0 == old_out.last().0 && old_out[k].2 < old_out.last().2));
                        }
                    }
                }
                assert forall|y: (u64, u64, usize)| #[trigger] out@.contains(y) <==> (a@.take(i + 1).contains(y)
                    || (y.2 == b_index && b@.take(j as int).contains((y.0, y.1)))) by {
                    lemma_seq_contains_after_push(old_out, x, y);
                    lemma_seq_contains_after_push(a@.take(i as int), x, y);
                }
                if i + 1 < a@.len() {
                    assert(a@[i as int].0 < a@[i + 1].0 || (a@[i as int].0 == a@[i + 1].0 && a@[i as int].2 < a@[i + 1].2));
                }
            }
            i = i + 1;
        } else {
            let y = b[j];
            let x = (y.0, y.1, b_index);
            out.push(x);
            proof {
                assert(b@.take(j + 1) =~= b@.take(j as int).push(y));
                assert(out@ =~= old_out.push(x));
                assert forall|k: int, l: int| 0 <= k < l < out@.len() implies (#[trigger] out@[k]).0 < (#[trigger] out@[l]).0
                    || (out@[k].0 == out@[l].0 && out@[k].2 < out@[l].2) by {
                    if l == out@.len() - 1 {
                        if k < old_out.len() - 1 {
                            assert(old_out[k].0 < old_out.last().0 || (old_out[k].0 == old_out.last().0 && old_out[k].2 < old_out.last().2));
                        }
                    }
                }
                assert forall|z: (u64, u64, usize)| #[trigger] out@.contains(z) <==> (a@.take(i as int).contains(z)
                    || (z.2 == b_index && b@.take(j + 1).contains((z.0, z.1)))) by {
                    lemma_seq_contains_after_push(old_out, x, z);
                    lemma_seq_contains_after_push(b@.take(j as int), y, (z.0, z.1));
                }
                if j + 1 < b@.len() {
                    assert(b@[j as int].0 < b@[j + 1].0);
                }
            }
            j = j + 1;
        }
    }
    proof {
        assert(a@.take(i as int) =~= a@);
        assert(b@.take(j as int) =~= b@);
    }
    out
}

/// Two sequences ordered by [`triples_sorted`] that hold the same elements
/// are equal.
proof fn lemma_sorted_triples_unique(a: Seq<(u64, u64, usize)>, b: Seq<(u64, u64, usize)>)
    requires
        triples_sorted(a),
        triples_sorted(b),
        forall|x: (u64, u64, usize)| #[trigger] a.contains(x) <==> b.contains(x),
    ensures
        a == b,
    decreases a.len(),
{
    if a.len() == 0 {
        if b.len() > 0 {
            assert(b.contains(b[0]));
            assert(a.contains(b[0]));
        }
        assert(a =~= b);
    } else if b.len() == 0 {
        assert(a.contains(a[0]));
    } else {
        assert(a.contains(a[0]));
        assert(b.contains(b[0]));
        assert(a.contains(b[0]));
        let j = choose|j: int| 0 <= j < b.len() && #[trigger] b[j] == a[0];
        let i = choose|i: int| 0 <= i < a.len() && #[trigger] a[i] == b[0];
        if j > 0 {
            assert(b[0].0 < b[j].0 || (b[0].0 == b[j].0 && b[0].2 < b[j].2));
            if i > 0 {
                assert(a[0].0 < a[i].0 || (a[0].0 == a[i].0 && a[0].2 < a[i].2));
            }
        }
        assert(a[0] == b[0]);
        let ta = a.drop_first();
        let tb = b.drop_first();
        assert forall|x: (u64, u64, usize)| #[trigger] ta.contains(x) <==> tb.contains(x) by {
            if ta.contains(x) {
                let k = choose|k: int| 0 <= k < ta.len() && #[trigger] ta[k] == x;
                assert(a[k + 1] == x);
                assert(a[0].0 < a[k + 1].0 || (a[0].0 == a[k + 1].0 && a[0].2 < a[k + 1].2));
                assert(a.contains(x));
                let m = choose|m: int| 0 <= m < b.len() && #[trigger] b[m] == x;
                if m == 0 {
                    assert(false);
                }
                assert(tb[m - 1] == x);
            }
            if tb.contains(x) {
                let k = choose|k: int| 0 <= k < tb.len() && #[trigger] tb[k] == x;
                assert(b[k + 1] == x);
                assert(b[0].0 < b[k + 1].0 || (b[0].0 == b[k + 1].0 && b[0].2 < b[k + 1].2));
                assert(b.contains(x));
                assert(a.contains(x));
                let m = choose|m: int| 0 <= m < a.len() && #[trigger] a[m] == x;
                if m == 0 {
                    assert(false);
                }
                assert(ta[m - 1] == x);
            }
        }
        assert(triples_sorted(ta)) by {
            assert forall|k: int, l: int| 0 <= k < l < ta.len() implies (#[trigger] ta[k]).0 < (#[trigger] ta[l]).0 || (ta[k].0 == ta[l].0 && ta[k].2 < ta[l].2) by {
                assert(ta[k] == a[k + 1] && ta[l] == a[l + 1]);
            }
        }
        assert(triples_sorted(tb)) by {
            assert forall|k: int, l: int| 0 <= k < l < tb.len() implies (#[trigger] tb[k]).0 < (#[trigger] tb[l]).0 || (tb[k].0 == tb[l].0 && tb[k].2 < tb[l].2) by {
                assert(tb[k] == b[k + 1] && tb[l] == b[l + 1]);
            }
        }
        lemma_sorted_triples_unique(ta, tb);
        assert(a =~= seq![a[0]] + ta);
        assert(b =~= seq![b[0]] + tb);
    }
}

/// The order of a chunk's candidates is determined by the chunk: the
/// records [`DiskCarver::scan_buffer`] returns are a function of the bytes,
/// where they lie in the image, the signatures and the alignment setting.
pub proof fn lemma_scan_order_unique(
    t1: Seq<(u64, u64, usize)>,
    t2: Seq<(u64, u64, usize)>,
    buf: Seq<u8>,
    bstart: int,
    bend: int,
    sigs: Seq<FileSignature>,
    aligned: bool,
)
    requires
        is_scan_order(t1, buf, bstart, bend, sigs, aligned),
        is_scan_order(t2, buf, bstart, bend, sigs, aligned),
    ensures
        t1 == t2,
{
    assert forall|x: (u64, u64, usize)| #[trigger] t1.contains(x) <==> t2.contains(x) by {
        assert(t1.contains(x) <==> (x.2 < sigs.len() && signature_candidates(buf, bstart, bend, sigs[x.2 as int], aligned).contains((x.0 as int, x.1 as int))));
        assert(t2.contains(x) <==> (x.2 < sigs.len() && signature_candidates(buf, bstart, bend, sigs[x.2 as int], aligned).contains((x.0 as int, x.1 as int))));
    }
    lemma_sorted_triples_unique(t1, t2);
}

/// The kept candidates of `sig` in the chunk, as `(start, end)` pairs in
/// increasing order of start.
fn kept_for_signature(buffer: &[u8], buffer_start: u64, buffer_end: u64, sig: &FileSignature, aligned: bool) -> (kept: Vec<(u64, u64)>)
    requires
        buffer_start + buffer@.len() + sig.max_size <= u64::MAX,
        buffer_end >= buffer_start + buffer@.len(),
    ensures
        kept@.len() == signature_candidates(buffer@, buffer_start as int, buffer_end as int, *sig, aligned).len(),
        forall|k: int| 0 <= k < kept@.len() ==> {
            let c = signature_candidates(buffer@, buffer_start as int, buffer_end as int, *sig, aligned)[k];
            (#[trigger] kept@[k]).0 == c.0 && kept@[k].1 == c.1
        },
        forall|k: int, l: int| 0 <= k < l < kept@.len() ==> (#[trigger] kept@[k]).0 < (#[trigger] kept@[l]).0,
        forall|k: int| 0 <= k < kept@.len() ==> (#[trigger] kept@[k]).0 <= kept@[k].1,
{
    let positions = find_iter_positions(buffer, sig.header);
    let ghost g = greedy_occurrences(buffer@, sig.header@, 0);
    proof { lemma_greedy_occurrences(buffer@, sig.header@, 0); }
    let ghost bs = buffer_start as int;
    let ghost be = buffer_end as int;
    let mut kept: Vec<(u64, u64)> = Vec::new();
    let mut k: usize = 0;
    while k < positions.len()
        invariant
            k <= positions@.len(),
            positions@.len() == g.len(),
            g == greedy_occurrences(buffer@, sig.header@, 0),
            bs == buffer_start,
            be == buffer_end,
            buffer_start + buffer@.len() + sig.max_size <= u64::MAX,
            buffer_end >= buffer_start + buffer@.len(),
            forall|i: int| 0 <= i < positions@.len() ==> positions@[i] == #[trigger] g[i],
            forall|i: int| 0 <= i < g.len() ==> 0 <= #[trigger] g[i] && occurs_at(buffer@, sig.header@, g[i]),
            forall|i: int, j: int| 0 <= i < j < g.len() ==> #[trigger] g[i] < #[trigger] g[j],
            kept@.len() == kept_candidates(buffer@, bs, be, *sig, aligned, g.take(k as int)).len(),
            forall|i: int| 0 <= i < kept@.len() ==> {
                let c = kept_candidates(buffer@, bs, be, *sig, aligned, g.take(k as int))[i];
                (#[trigger] kept@[i]).0 == c.0 && kept@[i].1 == c.1
            },
            forall|i: int, j: int| 0 <= i < j < kept@.len() ==> (#[trigger] kept@[i]).0 < (#[trigger] kept@[j]).0,
            forall|i: int| 0 <= i < kept@.len() ==> (#[trigger] kept@[i]).0 <= kept@[i].1,
            kept@.len() > 0 ==> k > 0 && kept@.last().0 <= buffer_start + g[k - 1],
        decreases positions@.len() - k,
    {
        let hp = positions[k];
        proof {
            assert(occurs_at(buffer@, sig.header@, g[k as int]));
            if k > 0 {
                assert(g[k - 1] < g[k as int]);
            }
        }
        let ghost before = kept@;
        let ghost hps = g.take(k + 1);
        proof {
            assert(hps.drop_last() =~= g.take(k as int));
            assert(hps.last() == g[k as int]);
        }
        match candidate_end_exec(buffer, buffer_start, buffer_end, sig, hp, aligned) {
            Some(e) => {
                let start = buffer_start + hp as u64;
                kept.push((start, e));
                proof {
                    assert forall|i: int| 0 <= i < kept@.len() implies {
                        let c = kept_candidates(buffer@, bs, be, *sig, aligned, hps)[i];
                        (#[trigger] kept@[i]).0 == c.0 && kept@[i].1 == c.1
                    } by {
                        if i < before.len() {
                            assert(kept@[i] == before[i]);
                        }
                    }
                    assert forall|i: int, j: int| 0 <= i < j < kept@.len() implies (#[trigger] kept@[i]).0 < (#[trigger] kept@[j]).0 by {
                        if j == kept@.len() - 1 {
                            if i < before.len() - 1 {
                                assert(before[i].0 < before.last().0);
                            }
                            assert(kept@[i] == before[i]);
                        } else {
                            assert(kept@[i] == before[i] && kept@[j] == before[j]);
                        }
                    }
                    assert forall|i: int| 0 <= i < kept@.len() implies (#[trigger] kept@[i]).0 <= kept@[i].1 by {
                        if i < before.len() {
                            assert(kept@[i] == before[i]);
                        }
                    }
                }
            },
            None => {},
        }
        k = k + 1;
    }
    proof { assert(g.take(k as int) =~= g); }
    kept
}

/// A record kept by [`dedup_runs`] is one of the records it was given.
proof fn lemma_dedup_runs_subset(ms: Seq<MatchResult>, r: MatchResult)
    requires
        dedup_runs(ms).contains(r),
    ensures
        ms.contains(r),
    decreases ms.len(),
{
    if ms.len() > 0 {
        let prev = dedup_runs(ms.drop_last());
        let k = choose|k: int| 0 <= k < dedup_runs(ms).len() && #[trigger] dedup_runs(ms)[k] == r;
        if prev.len() > 0 && prev.last().file_type == ms.last().file_type && prev.last().start_offset == ms.last().start_offset {
            assert(prev[k] == r);
            lemma_dedup_runs_subset(ms.drop_last(), r);
            let j = choose|j: int| 0 <= j < ms.drop_last().len() && #[trigger] ms.drop_last()[j] == r;
            assert(ms[j] == r);
        } else if k == prev.len() {
            assert(ms[ms.len() - 1] == r);
        } else {
            assert(prev[k] == r);
            lemma_dedup_runs_subset(ms.drop_last(), r);
            let j = choose|j: int| 0 <= j < ms.drop_last().len() && #[trigger] ms.drop_last()[j] == r;
            assert(ms[j] == r);
        }
    }
}

/// After a dedup, the last record kept has the type and start of the last
/// record given.
proof fn lemma_dedup_runs_last(ms: Seq<MatchResult>)
    requires
        ms.len() > 0,
    ensures
        dedup_runs(ms).len() > 0,
        dedup_runs(ms).last().file_type == ms.last().file_type,
        dedup_runs(ms).last().start_offset == ms.last().start_offset,
{
}

/// What a dedup keeps grows with what it is given: records kept for a
/// prefix stay kept, at the same places.
proof fn lemma_dedup_runs_prefix(ms: Seq<MatchResult>, n: int)
    requires
        0 <= n <= ms.len(),
    ensures
        dedup_runs(ms.take(n)).len() <= dedup_runs(ms).len(),
        forall|j: int| 0 <= j < dedup_runs(ms.take(n)).len() ==> #[trigger] dedup_runs(ms)[j] == dedup_runs(ms.take(n))[j],
    decreases ms.len() - n,
{
    if n < ms.len() {
        lemma_dedup_runs_prefix(ms, n + 1);
        assert(ms.take(n + 1).drop_last() =~= ms.take(n));
    } else {
        assert(ms.take(n) =~= ms);
    }
}

/// A dedup drops a record only where the record just before it has the
/// same type and the same start: every other record given is kept.
pub proof fn lemma_dedup_runs_keeps(ms: Seq<MatchResult>, i: int)
    requires
        0 <= i < ms.len(),
        i == 0 || ms[i - 1].file_type != ms[i].file_type || ms[i - 1].start_offset != ms[i].start_offset,
    ensures
        dedup_runs(ms).contains(ms[i]),
{
    let p = ms.take(i + 1);
    assert(p.drop_last() =~= ms.take(i));
    assert(p.last() == ms[i]);
    if i > 0 {
        lemma_dedup_runs_last(ms.take(i));
        assert(ms.take(i).last() == ms[i - 1]);
    }
    let d = dedup_runs(p);
    assert(d.last() == ms[i]);
    lemma_dedup_runs_prefix(ms, i + 1);
    assert(dedup_runs(ms)[d.len() - 1] == ms[i]);
}

/// Nothing a dedup drops is lost: for every record given, a record of the
/// same type and the same start is kept.
pub proof fn lemma_dedup_runs_complete(ms: Seq<MatchResult>, i: int)
    requires
        0 <= i < ms.len(),
    ensures
        exists|j: int| 0 <= j < dedup_runs(ms).len() && (#[trigger] dedup_runs(ms)[j]).file_type == ms[i].file_type
            && dedup_runs(ms)[j].start_offset == ms[i].start_offset,
{
    let p = ms.take(i + 1);
    assert(p.last() == ms[i]);
    lemma_dedup_runs_last(p);
    let d = dedup_runs(p);
    lemma_dedup_runs_prefix(ms, i + 1);
    assert(dedup_runs(ms)[d.len() - 1] == d.last());
}

/// Completeness of a chunk scan: every kept candidate of every signature is
/// reported, as a record of that signature's type that starts where the
/// candidate starts. Two files of one type at different offsets are both
/// reported.
pub proof fn lemma_scan_results_complete(
    t: Seq<(u64, u64, usize)>,
    buf: Seq<u8>,
    bstart: int,
    bend: int,
    sigs: Seq<FileSignature>,
    aligned: bool,
    k: int,
    c: (int, int),
)
    requires
        is_scan_order(t, buf, bstart, bend, sigs, aligned),
        0 <= k < sigs.len() <= usize::MAX,
        signature_candidates(buf, bstart, bend, sigs[k], aligned).contains(c),
        0 <= c.0 <= u64::MAX,
        0 <= c.1 <= u64::MAX,
    ensures
        exists|r: MatchResult| #[trigger] dedup_runs(scan_records(t, sigs)).contains(r)
            && r.file_type == sigs[k].file_type && r.start_offset == c.0,
{
    let x = (c.0 as u64, c.1 as u64, k as usize);
    assert(x.2 as int == k && (x.0 as int, x.1 as int) == c);
    assert(signature_candidates(buf, bstart, bend, sigs[x.2 as int], aligned).contains((x.0 as int, x.1 as int)));
    assert(t.contains(x));
    let i = choose|i: int| 0 <= i < t.len() && #[trigger] t[i] == x;
    let ms = scan_records(t, sigs);
    assert(ms[i] == match_record(sigs[k].file_type, c.0, c.1));
    lemma_dedup_runs_complete(ms, i);
    let j = choose|j: int| 0 <= j < dedup_runs(ms).len() && (#[trigger] dedup_runs(ms)[j]).file_type == ms[i].file_type
        && dedup_runs(ms)[j].start_offset == ms[i].start_offset;
    assert(dedup_runs(ms).contains(dedup_runs(ms)[j]));
}

/// A kept candidate lies at one of the header positions, and
/// [`candidate_end`] keeps it with its end.
proof fn lemma_kept_candidate_origin(buf: Seq<u8>, bstart: int, bend: int, sig: FileSignature, aligned: bool, hps: Seq<int>, c: (int, int))
    requires
        kept_candidates(buf, bstart, bend, sig, aligned, hps).contains(c),
    ensures
        exists|j: int| 0 <= j < hps.len() && c.0 == bstart + #[trigger] hps[j] && candidate_end(buf, bstart, bend, sig, hps[j], aligned) == Some(c.1),
    decreases hps.len(),
{
    let kc = kept_candidates(buf, bstart, bend, sig, aligned, hps);
    let rest = kept_candidates(buf, bstart, bend, sig, aligned, hps.drop_last());
    let k = choose|k: int| 0 <= k < kc.len() && #[trigger] kc[k] == c;
    let last = hps.len() - 1;
    if candidate_end(buf, bstart, bend, sig, hps[last], aligned) is Some && k == rest.len() {
        assert(c.0 == bstart + hps[last]);
    } else {
        assert(rest[k] == c);
        assert(rest.contains(c));
        lemma_kept_candidate_origin(buf, bstart, bend, sig, aligned, hps.drop_last(), c);
        let j = choose|j: int| 0 <= j < hps.drop_last().len() && c.0 == bstart + #[trigger] hps.drop_last()[j]
            && candidate_end(buf, bstart, bend, sig, hps.drop_last()[j], aligned) == Some(c.1);
        assert(hps.drop_last()[j] == hps[j]);
    }
}

/// What [`candidate_end`] keeps has a size within the type's bounds and,
/// with alignment, a start at most 64 bytes into its sector.
proof fn lemma_candidate_end_bounds(buf: Seq<u8>, bstart: int, bend: int, sig: FileSignature, hp: int, aligned: bool)
    requires
        candidate_end(buf, bstart, bend, sig, hp, aligned) is Some,
    ensures
        ({
            let e = candidate_end(buf, bstart, bend, sig, hp, aligned)->0;
            &&& sig.min_size <= e - (bstart + hp) <= sig.max_size
            &&& aligned ==> ((bstart + hp) % 512 == 0 || (bstart + hp) % 512 <= 64)
        }),
{
}

/// Every file a chunk scan reports starts at an occurrence of the header of
/// a signature of its type inside the chunk, at a position the alignment
/// setting admits (within 64 bytes of a sector start), has a size within
/// that signature's bounds, ends at its start plus its size, and lies in the
/// sectors its offsets fall in.
pub proof fn lemma_scan_results_sound(
    t: Seq<(u64, u64, usize)>,
    buf: Seq<u8>,
    bstart: int,
    bend: int,
    sigs: Seq<FileSignature>,
    aligned: bool,
    r: MatchResult,
)
    requires
        0 <= bstart,
        is_scan_order(t, buf, bstart, bend, sigs, aligned),
        dedup_runs(scan_records(t, sigs)).contains(r),
    ensures
        exists|k: int| 0 <= k < sigs.len() && {
            let sig = #[trigger] sigs[k];
            &&& sig.file_type == r.file_type
            &&& occurs_at(buf, sig.header@, r.start_offset - bstart)
            &&& sig.min_size <= r.size <= sig.max_size
        },
        r.end_offset == r.start_offset + r.size,
        r.sector_start == r.start_offset / 512,
        r.sector_end == r.end_offset / 512,
        aligned ==> (r.start_offset % 512 == 0 || r.start_offset % 512 <= 64),
        !r.recovered && !r.fs_rebuilt && r.fs_type == FileSystemType::Unknown,
{
    let ms = scan_records(t, sigs);
    lemma_dedup_runs_subset(ms, r);
    let i = choose|i: int| 0 <= i < ms.len() && #[trigger] ms[i] == r;
    let x = t[i];
    assert(t.contains(x));
    let sig = sigs[x.2 as int];
    let cands = signature_candidates(buf, bstart, bend, sig, aligned);
    assert(cands.contains((x.0 as int, x.1 as int)));
    let g = greedy_occurrences(buf, sig.header@, 0);
    lemma_kept_candidate_origin(buf, bstart, bend, sig, aligned, g, (x.0 as int, x.1 as int));
    let j = choose|j: int| 0 <= j < g.len() && x.0 == bstart + #[trigger] g[j]
        && candidate_end(buf, bstart, bend, sig, g[j], aligned) == Some(x.1 as int);
    lemma_greedy_occurrences(buf, sig.header@, 0);
    assert(occurs_at(buf, sig.header@, g[j]));
    lemma_candidate_end_bounds(buf, bstart, bend, sig, g[j], aligned);
    assert(r == match_record(sig.file_type, x.0 as int, x.1 as int));
    assert(sigs[x.2 as int].file_type == r.file_type);
}

/// Pairs of `u64` that agree with pairs of integers, position by position,
/// hold the same pairs.
proof fn lemma_pairs_contains(kept: Seq<(u64, u64)>, cands: Seq<(int, int)>)
    requires
        kept.len() == cands.len(),
        forall|k: int| 0 <= k < kept.len() ==> (#[trigger] kept[k]).0 == cands[k].0 && kept[k].1 == cands[k].1,
    ensures
        forall|a: u64, b: u64| #[trigger] kept.contains((a, b)) <==> cands.contains((a as int, b as int)),
{
    assert forall|a: u64, b: u64| #[trigger] kept.contains((a, b)) <==> cands.contains((a as int, b as int)) by {
        if kept.contains((a, b)) {
            let k = choose|k: int| 0 <= k < kept.len() && #[trigger] kept[k] == (a, b);
            assert(cands[k] == (a as int, b as int));
        }
        if cands.contains((a as int, b as int)) {
            let k = choose|k: int| 0 <= k < cands.len() && #[trigger] cands[k] == (a as int, b as int);
            assert(kept[k] == (a, b));
        }
    }
}

/// `t` lists every kept candidate of the chunk once, as
/// `(start, end, signature index)`, ordered by start, then by signature.
pub open spec fn is_scan_order(t: Seq<(u64, u64, usize)>, buf: Seq<u8>, bstart: int, bend: int, sigs: Seq<FileSignature>, aligned: bool) -> bool {
    &&& triples_sorted(t)
    &&& forall|x: (u64, u64, usize)| #[trigger] t.contains(x) <==> (x.2 < sigs.len()
        && signature_candidates(buf, bstart, bend, sigs[x.2 as int], aligned).contains((x.0 as int, x.1 as int)))
}

/// The match records of the candidates `t`.
pub open spec fn scan_records(t: Seq<(u64, u64, usize)>, sigs: Seq<FileSignature>) -> Seq<MatchResult> {
    t.map_values(|x: (u64, u64, usize)| match_record(sigs[x.2 as int].file_type, x.0 as int, x.1 as int))
}

/// `ms` without the records that repeat the type and start of the record
/// kept just before them.
pub open spec fn dedup_runs(ms: Seq<MatchResult>) -> Seq<MatchResult>
    decreases ms.len(),
{
    if ms.len() == 0 {
        Seq::empty()
    } else {
        let r = dedup_runs(ms.drop_last());
        if r.len() > 0 && r.last().file_type == ms.last().file_type && r.last().start_offset == ms.last().start_offset {
            r
        } else {
            r.push(ms.last())
        }
    }
}

/// A carver: the signatures it looks for, what it found, and the file system
/// it read, if any.
pub struct DiskCarver {
    config: CarverConfig,
    signatures: Vec<FileSignature>,
    pub stats: CarveStats,
    matches: Vec<MatchResult>,
    smart_carver: Option<SmartCarver>,
}

impl DiskCarver {
    /// Every file found in the chunk `buffer`, which covers image bytes
    /// from `buffer_start` (`buffer_end` is the end of what was read): the
    /// kept candidates of all signatures (see [`candidate_end`]), ordered by
    /// start, then by signature, a record dropped where it repeats the type
    /// and start of the one before.
    pub fn scan_buffer(
        buffer: &[u8],
        buffer_start: u64,
        buffer_end: u64,
        signatures: &[FileSignature],
        config: &CarverConfig,
    ) -> (results: Vec<MatchResult>)
        requires
            buffer_end >= buffer_start + buffer@.len(),
            forall|k: int| 0 <= k < signatures@.len() ==> buffer_start + buffer@.len() + (#[trigger] signatures@[k]).max_size <= u64::MAX,
        ensures
            exists|t: Seq<(u64, u64, usize)>| #![trigger is_scan_order(t, buffer@, buffer_start as int, buffer_end as int, signatures@, config.sector_aligned)]
                is_scan_order(t, buffer@, buffer_start as int, buffer_end as int, signatures@, config.sector_aligned)
                && results@ == dedup_runs(scan_records(t, signatures@)),
    {
        let aligned = config.sector_aligned;
        let ghost bs = buffer_start as int;
        let ghost be = buffer_end as int;
        let mut merged: Vec<(u64, u64, usize)> = Vec::new();
        let mut s: usize = 0;
        while s < signatures.len()
            invariant
                s <= signatures@.len(),
                bs == buffer_start,
                be == buffer_end,
                aligned == config.sector_aligned,
                buffer_end >= buffer_start + buffer@.len(),
                forall|k: int| 0 <= k < signatures@.len() ==> buffer_start + buffer@.len() + (#[trigger] signatures@[k]).max_size <= u64::MAX,
                triples_sorted(merged@),
                forall|k: int| 0 <= k < merged@.len() ==> (#[trigger] merged@[k]).2 < s,
                forall|k: int| 0 <= k < merged@.len() ==> (#[trigger] merged@[k]).0 <= merged@[k].1,
                forall|x: (u64, u64, usize)| #[trigger] merged@.contains(x) <==> (x.2 < s
                    && signature_candidates(buffer@, bs, be, signatures@[x.2 as int], aligned).contains((x.0 as int, x.1 as int))),
            decreases signatures@.len() - s,
        {
            let sig = &signatures[s];
            let kept = kept_for_signature(buffer, buffer_start, buffer_end, sig, aligned);
            let ghost cands = signature_candidates(buffer@, bs, be, *sig, aligned);
            proof { lemma_pairs_contains(kept@, cands); }
            let ghost before = merged@;
            merged = merge_candidates(merged, &kept, s);
            proof {
                assert forall|x: (u64, u64, usize)| #[trigger] merged@.contains(x) <==> (x.2 < s + 1
                    && signature_candidates(buffer@, bs, be, signatures@[x.2 as int], aligned).contains((x.0 as int, x.1 as int))) by {
                    if x.2 == s {
                        assert(kept@.contains((x.0, x.1)) <==> cands.contains((x.0 as int, x.1 as int)));
                        if before.contains(x) {
                            let k = choose|k: int| 0 <= k < before.len() && #[trigger] before[k] == x;
                            assert(before[k].2 < s);
                        }
                    }
                }
            }
            s = s + 1;
        }
        let mut results: Vec<MatchResult> = Vec::new();
        let mut i: usize = 0;
        while i < merged.len()
            invariant
                i <= merged@.len(),
                forall|k: int| 0 <= k < merged@.len() ==> (#[trigger] merged@[k]).2 < signatures@.len(),
                forall|k: int| 0 <= k < merged@.len() ==> (#[trigger] merged@[k]).0 <= merged@[k].1,
                results@ == dedup_runs(scan_records(merged@.take(i as int), signatures@)),
            decreases merged@.len() - i,
        {
            let (start, end, si) = merged[i];
            let file_type = signatures[si].file_type;
            let ghost prev = scan_records(merged@.take(i as int), signatures@);
            let ghost next = scan_records(merged@.take(i + 1), signatures@);
            proof {
                assert(next.drop_last() =~= prev);
                assert(next.last() == match_record(file_type, start as int, end as int));
            }
            let n = results.len();
            let repeat = n > 0 && results[n - 1].file_type == file_type && results[n - 1].start_offset == start;
            if !repeat {
                let record = MatchResult {
                    file_type: file_type,
                    start_offset: start,
                    end_offset: end,
                    size: end - start,
                    md5_hash: None,
                    sha256_hash: None,
                    recovered: false,
                    output_path: None,
                    sector_start: start / SECTOR_SIZE,
                    sector_end: end / SECTOR_SIZE,
                    fs_rebuilt: false,
                    is_fragmented: false,
                    cluster_count: 0,
                    fs_type: FileSystemType::Unknown,
                };
                results.push(record);
            }
            i = i + 1;
        }
        proof {
            assert(merged@.take(i as int) =~= merged@);
            assert(is_scan_order(merged@, buffer@, bs, be, signatures@, aligned));
        }
        results
    }
}

/// The types of `types` that `selected` names (all of them when it is
/// `None`), in order.
pub open spec fn selected_file_types(types: Seq<FileType>, selected: Option<Seq<FileType>>) -> Seq<FileType>
    decreases types.len(),
{
    if types.len() == 0 {
        Seq::empty()
    } else {
        let rest = selected_file_types(types.drop_last(), selected);
        match selected {
            None => rest.push(types.last()),
            Some(sel) => if sel.contains(types.last()) {
                rest.push(types.last())
            } else {
                rest
            },
        }
    }
}

/// Selecting signatures selects the signatures of the selected types.
proof fn lemma_selected_signatures_of(sigs: Seq<FileSignature>, types: Seq<FileType>, selected: Option<Seq<FileType>>)
    requires
        sigs.len() == types.len(),
        forall|i: int| 0 <= i < sigs.len() ==> is_signature_of(#[trigger] sigs[i], types[i]),
    ensures
        selected_signatures(sigs, selected).len() == selected_file_types(types, selected).len(),
        forall|i: int| 0 <= i < selected_signatures(sigs, selected).len() ==>
            is_signature_of(#[trigger] selected_signatures(sigs, selected)[i], selected_file_types(types, selected)[i]),
    decreases sigs.len(),
{
    if sigs.len() > 0 {
        assert forall|i: int| 0 <= i < sigs.drop_last().len() implies is_signature_of(#[trigger] sigs.drop_last()[i], types.drop_last()[i]) by {
            assert(sigs.drop_last()[i] == sigs[i] && types.drop_last()[i] == types[i]);
        }
        lemma_selected_signatures_of(sigs.drop_last(), types.drop_last(), selected);
        assert(is_signature_of(sigs[sigs.len() - 1], types[types.len() - 1]));
    }
}

/// The selected types as a sequence (`None` when every type is selected).
pub open spec fn selection_of(config: CarverConfig) -> Option<Seq<FileType>> {
    match config.selected_types {
        Some(v) => Some(v@),
        None => None,
    }
}

/// Whether `ms` holds a file of the type of `m` that starts less than
/// `interval` bytes away from it.
pub open spec fn has_near_match(ms: Seq<MatchResult>, m: MatchResult, interval: u64) -> bool {
    exists|k: int| 0 <= k < ms.len() && (#[trigger] ms[k]).file_type == m.file_type
        && (if ms[k].start_offset >= m.start_offset { ms[k].start_offset - m.start_offset } else { m.start_offset - ms[k].start_offset }) < interval
}

/// `all` followed by the files of `local`, in order, each dropped where the
/// files kept before it hold a near match of it.
pub open spec fn merged_matches(all: Seq<MatchResult>, local: Seq<MatchResult>, interval: u64) -> Seq<MatchResult>
    decreases local.len(),
{
    if local.len() == 0 {
        all
    } else {
        let prev = merged_matches(all, local.drop_last(), interval);
        if has_near_match(prev, local.last(), interval) {
            prev
        } else {
            prev.push(local.last())
        }
    }
}

/// Any two files of one type in `ms` start at least `interval` bytes apart.
pub open spec fn spaced(ms: Seq<MatchResult>, interval: u64) -> bool {
    forall|i: int, j: int| 0 <= i < j < ms.len() && (#[trigger] ms[i]).file_type == (#[trigger] ms[j]).file_type ==>
        (if ms[i].start_offset >= ms[j].start_offset { ms[i].start_offset - ms[j].start_offset } else { ms[j].start_offset - ms[i].start_offset }) >= interval
}

/// The number of files of type `t` in `ms`.
pub open spec fn count_of_type(ms: Seq<MatchResult>, t: FileType) -> int
    decreases ms.len(),
{
    if ms.len() == 0 {
        0
    } else {
        count_of_type(ms.drop_last(), t) + if ms.last().file_type == t { 1int } else { 0int }
    }
}

/// Whether `ms` holds a file of the type of `m` starting less than
/// `interval` bytes away from it.
fn find_near_match(ms: &Vec<MatchResult>, m: &MatchResult, interval: u64) -> (r: bool)
    ensures
        r == has_near_match(ms@, *m, interval),
{
    let mut k: usize = 0;
    while k < ms.len()
        invariant
            k <= ms@.len(),
            forall|i: int| 0 <= i < k ==> !((#[trigger] ms@[i]).file_type == m.file_type
                && (if ms@[i].start_offset >= m.start_offset { ms@[i].start_offset - m.start_offset } else { m.start_offset - ms@[i].start_offset }) < interval),
        decreases ms@.len() - k,
    {
        let e = &ms[k];
        let diff = if e.start_offset >= m.start_offset { e.start_offset - m.start_offset } else { m.start_offset - e.start_offset };
        if e.file_type == m.file_type && diff < interval {
            return true;
        }
        k = k + 1;
    }
    false
}

impl MatchResult {
    /// A copy of the record.
    pub fn duplicate(&self) -> (r: Self)
        ensures
            r == *self,
    {
        MatchResult {
            file_type: self.file_type,
            start_offset: self.start_offset,
            end_offset: self.end_offset,
            size: self.size,
            md5_hash: match &self.md5_hash {
                Some(h) => Some(h.clone()),
                None => None,
            },
            sha256_hash: match &self.sha256_hash {
                Some(h) => Some(h.clone()),
                None => None,
            },
            recovered: self.recovered,
            output_path: match &self.output_path {
                Some(p) => Some(p.clone()),
                None => None,
            },
            sector_start: self.sector_start,
            sector_end: self.sector_end,
            fs_rebuilt: self.fs_rebuilt,
            is_fragmented: self.is_fragmented,
            cluster_count: self.cluster_count,
            fs_type: self.fs_type,
        }
    }
}

/// `PathBuf::clone` gives the same path.
pub assume_specification[ <std::path::PathBuf as Clone>::clone ](p: &std::path::PathBuf) -> (r: std::path::PathBuf)
    ensures
        r == *p,
;

/// A copy of every record of `ms`, in order.
fn duplicate_all(ms: &Vec<MatchResult>) -> (r: Vec<MatchResult>)
    ensures
        r@ == ms@,
{
    let mut r: Vec<MatchResult> = Vec::new();
    let mut i: usize = 0;
    while i < ms.len()
        invariant
            i <= ms@.len(),
            r@ == ms@.take(i as int),
        decreases ms@.len() - i,
    {
        r.push(ms[i].duplicate());
        proof { assert(ms@.take(i + 1) =~= ms@.take(i as int).push(ms@[i as int])); }
        i = i + 1;
    }
    proof { assert(ms@.take(i as int) =~= ms@); }
    r
}

impl CarveStats {
    /// `other` holds the same counts.
    pub open spec fn same_counts(&self, other: CarveStats) -> bool {
        &&& self.total_bytes_processed == other.total_bytes_processed
        &&& self.total_matches == other.total_matches
        &&& self.matches_by_type@ == other.matches_by_type@
        &&& self.successful_recoveries == other.successful_recoveries
        &&& self.failed_recoveries == other.failed_recoveries
        &&& self.fs_rebuilt_count == other.fs_rebuilt_count
        &&& self.fragmented_count == other.fragmented_count
        &&& self.contiguous_count == other.contiguous_count
        &&& self.detected_fs == other.detected_fs
    }

    /// A copy of the counts.
    pub fn duplicate(&self) -> (r: Self)
        ensures
            r.same_counts(*self),
    {
        let counts = self.matches_by_type.clone();
        CarveStats {
            total_bytes_processed: self.total_bytes_processed,
            total_matches: self.total_matches,
            matches_by_type: counts,
            successful_recoveries: self.successful_recoveries,
            failed_recoveries: self.failed_recoveries,
            fs_rebuilt_count: self.fs_rebuilt_count,
            fragmented_count: self.fragmented_count,
            contiguous_count: self.contiguous_count,
            detected_fs: self.detected_fs,
        }
    }
}

impl DiskCarver {
    /// The settings the carver was made with.
    pub closed spec fn configured(&self) -> CarverConfig {
        self.config
    }

    /// The signatures the carver looks for.
    pub closed spec fn scanned_signatures(&self) -> Seq<FileSignature> {
        self.signatures@
    }

    /// The counts kept so far.
    pub closed spec fn counts(&self) -> CarveStats {
        self.stats
    }

    /// The files found so far.
    pub closed spec fn found(&self) -> Seq<MatchResult> {
        self.matches@
    }

    /// The file-system reader, once [`DiskCarver::init_filesystem`] ran with
    /// metadata enabled.
    pub closed spec fn smart(&self) -> Option<Option<FsParser>> {
        match self.smart_carver {
            Some(c) => Some(c@),
            None => None,
        }
    }

    /// The carver's internal consistency: counts agree with what was found.
    pub closed spec fn wf(&self) -> bool {
        &&& counts_keyed_by_type(self.stats.matches_by_type@)
        &&& self.stats.total_matches == self.matches@.len()
        &&& forall|t: FileType| type_count(self.stats.matches_by_type@, t) == #[trigger] count_of_type(self.matches@, t)
        &&& spaced(self.matches@, self.config.min_match_interval)
    }

    /// A carver for the signatures of the types that `config` selects (all
    /// types when it selects none), that has found nothing yet.
    pub fn new(config: CarverConfig) -> (c: Self)
        ensures
            c.wf(),
            c.configured() == config,
            c.scanned_signatures().len() == selected_file_types(all_file_types(), selection_of(config)).len(),
            forall|i: int| 0 <= i < c.scanned_signatures().len() ==>
                is_signature_of(#[trigger] c.scanned_signatures()[i], selected_file_types(all_file_types(), selection_of(config))[i]),
            c.found().len() == 0,
            c.smart() is None,
            c.counts().is_fresh(),
    {
        let all = get_all_signatures();
        let signatures = select_signatures(&all, &config.selected_types);
        proof { lemma_selected_signatures_of(all@, all_file_types(), selection_of(config)); }
        let c = DiskCarver {
            config,
            signatures,
            stats: CarveStats::new(),
            matches: Vec::new(),
            smart_carver: None,
        };
        proof {
            assert forall|t: FileType| type_count(c.stats.matches_by_type@, t) == #[trigger] count_of_type(c.matches@, t) by {}
        }
        c
    }

    /// With file-system metadata enabled, detects the file system at the
    /// configured partition offset and keeps its parser (recording its type
    /// in the counts); otherwise changes nothing.
    pub fn init_filesystem<R: DiskImageReader>(&mut self, reader: &mut R)
        requires
            old(self).wf(),
        ensures
            final(self).wf(),
            final(self).configured() == old(self).configured(),
            final(self).scanned_signatures() == old(self).scanned_signatures(),
            final(self).found() == old(self).found(),
            !old(self).configured().use_filesystem_metadata ==> final(self).smart() == old(self).smart()
                && final(self).counts() == old(self).counts(),
            final(reader).image() == old(reader).image(),
            old(self).configured().use_filesystem_metadata ==> (final(self).smart() matches Some(p) && {
                &&& (p matches Some(fsp) ==> fsp.kind() != FileSystemType::Unknown
                    && fsp.spec_partition_offset() == old(self).configured().partition_offset)
                &&& parser_of_image(old(reader).image(), old(self).configured().partition_offset, p)
                &&& final(self).counts() == (CarveStats { detected_fs: match p {
                        Some(fsp) => fsp.kind(),
                        None => old(self).counts().detected_fs,
                    }, ..old(self).counts() })
            }),
    {
        if self.config.use_filesystem_metadata {
            let parser = create_filesystem_parser(reader, self.config.partition_offset);
            match &parser {
                Some(p) => {
                    self.stats.detected_fs = p.fs_type();
                },
                None => {},
            }
            self.smart_carver = Some(SmartCarver::new(parser));
        }
    }

    /// Whether file-system metadata is in use.
    pub fn has_filesystem(&self) -> (r: bool)
        ensures
            r == (self.smart() matches Some(p) && p is Some),
    {
        match &self.smart_carver {
            Some(sc) => sc.has_filesystem(),
            None => false,
        }
    }

    /// A copy of the counts.
    pub fn get_stats(&self) -> (s: CarveStats)
        ensures
            s.same_counts(self.counts()),
    {
        self.stats.duplicate()
    }

    /// A copy of the files found so far.
    pub fn get_matches(&self) -> (ms: Vec<MatchResult>)
        ensures
            ms@ == self.found(),
    {
        duplicate_all(&self.matches)
    }

    /// The settings the carver was made with.
    pub fn config(&self) -> (c: &CarverConfig)
        ensures
            *c == self.configured(),
    {
        &self.config
    }

    /// The signatures the carver looks for.
    pub fn signatures(&self) -> (s: &Vec<FileSignature>)
        ensures
            s@ == self.scanned_signatures(),
    {
        &self.signatures
    }

    /// Adds the files of the chunk at `chunk_offset` to those found: each is
    /// kept unless a file of its type already kept starts less than the
    /// configured interval away from it; each kept file is counted. Then
    /// records that the image (of `total_size` bytes) was scanned up to the
    /// chunk's end, unless the counts already say more.
    pub fn record_chunk(&mut self, local: Vec<MatchResult>, chunk_offset: u64, total_size: u64)
        requires
            old(self).wf(),
            old(self).found().len() + local@.len() <= usize::MAX,
            chunk_offset <= total_size,
        ensures
            final(self).wf(),
            final(self).configured() == old(self).configured(),
            final(self).scanned_signatures() == old(self).scanned_signatures(),
            final(self).smart() == old(self).smart(),
            final(self).found() == merged_matches(old(self).found(), local@, old(self).configured().min_match_interval),
            final(self).counts().total_bytes_processed == ({
                let chunk_end = if chunk_offset + old(self).configured().chunk_size < total_size {
                    chunk_offset + old(self).configured().chunk_size
                } else {
                    total_size as int
                };
                if chunk_end > old(self).counts().total_bytes_processed { chunk_end } else { old(self).counts().total_bytes_processed as int }
            }),
            final(self).counts() == (CarveStats {
                total_bytes_processed: final(self).counts().total_bytes_processed,
                total_matches: final(self).counts().total_matches,
                matches_by_type: final(self).counts().matches_by_type,
                ..old(self).counts()
            }),
    {
        let interval = self.config.min_match_interval;
        let ghost all0 = self.matches@;
        let mut i: usize = 0;
        while i < local.len()
            invariant
                i <= local@.len(),
                interval == self.config.min_match_interval,
                all0.len() + local@.len() <= usize::MAX,
                self.matches@ == merged_matches(all0, local@.take(i as int), interval),
                self.matches@.len() <= all0.len() + i,
                counts_keyed_by_type(self.stats.matches_by_type@),
                self.stats.total_matches == self.matches@.len(),
                forall|t: FileType| type_count(self.stats.matches_by_type@, t) == #[trigger] count_of_type(self.matches@, t),
                spaced(self.matches@, interval),
                self.config == old(self).config,
                self.signatures == old(self).signatures,
                self.smart_carver == old(self).smart_carver,
                self.stats == (CarveStats {
                    total_matches: self.stats.total_matches,
                    matches_by_type: self.stats.matches_by_type,
                    ..old(self).counts()
                }),
            decreases local@.len() - i,
        {
            let m = &local[i];
            let near = find_near_match(&self.matches, m, interval);
            let ghost before = self.matches@;
            proof {
                assert(local@.take(i + 1).drop_last() =~= local@.take(i as int));
                assert(local@.take(i + 1).last() == local@[i as int]);
            }
            if !near {
                proof {
                    lemma_count_of_type_le(before, m.file_type);
                }
                let ghost counts_before = self.stats.matches_by_type@;
                self.stats.add_match(m.file_type);
                self.matches.push(m.duplicate());
                proof {
                    assert(self.matches@.drop_last() =~= before);
                    assert forall|t: FileType| type_count(self.stats.matches_by_type@, t) == #[trigger] count_of_type(self.matches@, t) by {
                        assert(type_count(counts_before, t) == count_of_type(before, t));
                        assert(count_of_type(self.matches@, t) == count_of_type(before, t) + if m.file_type == t { 1int } else { 0int });
                    }
                    assert forall|a: int, b: int| 0 <= a < b < self.matches@.len() && (#[trigger] self.matches@[a]).file_type == (#[trigger] self.matches@[b]).file_type implies
                        (if self.matches@[a].start_offset >= self.matches@[b].start_offset { self.matches@[a].start_offset - self.matches@[b].start_offset } else { self.matches@[b].start_offset - self.matches@[a].start_offset }) >= interval by {
                        if b == self.matches@.len() - 1 {
                            assert(self.matches@[a] == before[a]);
                            if !((if before[a].start_offset >= m.start_offset { before[a].start_offset - m.start_offset } else { m.start_offset - before[a].start_offset }) >= interval) {
                                assert(has_near_match(before, *m, interval));
                            }
                        } else {
                            assert(self.matches@[a] == before[a] && self.matches@[b] == before[b]);
                        }
                    }
                }
            }
            i = i + 1;
        }
        proof { assert(local@.take(i as int) =~= local@); }
        let chunk_size = self.config.chunk_size as u64;
        let chunk_end = if chunk_size < total_size - chunk_offset { chunk_offset + chunk_size } else { total_size };
        if chunk_end > self.stats.total_bytes_processed {
            self.stats.update(chunk_end);
        }
    }
}

/// A sequence holds at most as many files of a type as it has files.
proof fn lemma_count_of_type_le(ms: Seq<MatchResult>, t: FileType)
    ensures
        0 <= count_of_type(ms, t) <= ms.len(),
    decreases ms.len(),
{
    if ms.len() > 0 {
        lemma_count_of_type_le(ms.drop_last(), t);
    }
}

/// The files of a chunk read from `start`: those [`DiskCarver::scan_buffer`]
/// finds in `buf`.
pub open spec fn chunk_findings(ms: Seq<MatchResult>, buf: Seq<u8>, start: int, sigs: Seq<FileSignature>, aligned: bool) -> bool {
    exists|t: Seq<(u64, u64, usize)>| #![trigger is_scan_order(t, buf, start, start + buf.len(), sigs, aligned)]
        is_scan_order(t, buf, start, start + buf.len(), sigs, aligned) && ms == dedup_runs(scan_records(t, sigs))
}

/// First byte that the scan of the chunk at `offset` reads: `overlap`
/// bytes before it, or the image's start.
pub open spec fn chunk_read_start(offset: int, overlap: int) -> int {
    if offset >= overlap { offset - overlap } else { 0 }
}

/// Byte after the last one that the scan of the chunk at `offset` reads:
/// `overlap` bytes after its `chunk` bytes, each clipped to the image's
/// `total` bytes.
pub open spec fn chunk_read_end(offset: int, chunk: int, overlap: int, total: int) -> int {
    let reach = if offset + chunk < total { offset + chunk } else { total };
    if reach + overlap < total { reach + overlap } else { total }
}

/// `ms` is what the scan of the chunk at `offset` finds in image `img`: the
/// files found (see [`chunk_findings`]) in the image's bytes from
/// [`chunk_read_start`], all of them up to [`chunk_read_end`] unless the
/// image ends first.
pub open spec fn chunk_scan_found(
    ms: Seq<MatchResult>,
    img: Seq<u8>,
    offset: int,
    chunk: int,
    overlap: int,
    total: int,
    sigs: Seq<FileSignature>,
    aligned: bool,
) -> bool {
    exists|buf: Seq<u8>| #![trigger chunk_findings(ms, buf, chunk_read_start(offset, overlap), sigs, aligned)] {
        &&& chunk_findings(ms, buf, chunk_read_start(offset, overlap), sigs, aligned)
        &&& chunk_read_start(offset, overlap) + buf.len() <= chunk_read_end(offset, chunk, overlap, total)
        &&& buf == image_window(img, chunk_read_start(offset, overlap), buf.len() as int)
        &&& (chunk_read_start(offset, overlap) + buf.len() == chunk_read_end(offset, chunk, overlap, total)
            || chunk_read_start(offset, overlap) + buf.len() >= img.len())
    }
}

impl DiskCarver {
    /// Start offsets of the chunks a scan of `total_size` bytes reads (see
    /// [`is_chunk_plan`]).
    pub fn chunk_plan(&self, total_size: u64) -> (offsets: Vec<u64>)
        requires
            self.configured().chunk_size > self.configured().overlap_size,
        ensures
            is_chunk_plan(offsets@, total_size as int, self.configured().chunk_size as int, self.configured().overlap_size as int),
    {
        chunk_offsets(total_size, self.config.chunk_size as u64, self.config.overlap_size as u64)
    }

    /// Reads the chunk at `offset` (its configured size, clipped to the
    /// image, with the overlap on both sides) and finds the files in it.
    pub fn scan_chunk<R: DiskImageReader>(
        reader: &mut R,
        offset: u64,
        total_size: u64,
        signatures: &Vec<FileSignature>,
        config: &CarverConfig,
    ) -> (res: Result<Vec<MatchResult>, DiskReaderError>)
        requires
            offset <= total_size,
            offset + config.chunk_size + config.overlap_size <= u64::MAX,
            forall|k: int| 0 <= k < signatures@.len() ==> total_size + (#[trigger] signatures@[k]).max_size <= u64::MAX,
        ensures
            final(reader).image() == old(reader).image(),
            res matches Ok(ms) ==> chunk_scan_found(ms@, old(reader).image(), offset as int, config.chunk_size as int,
                config.overlap_size as int, total_size as int, signatures@, config.sector_aligned),
    {
        let chunk_size = config.chunk_size as u64;
        let overlap = config.overlap_size as u64;
        let chunk_end = if offset + chunk_size < total_size { offset + chunk_size } else { total_size };
        let read_size = chunk_end - offset;
        match read_chunk_with_overlap(reader, offset, read_size, overlap, total_size) {
            Ok((buffer, start, end)) => {
                let ms = DiskCarver::scan_buffer(buffer.as_slice(), start, end, signatures.as_slice(), config);
                proof {
                    let t = choose|t: Seq<(u64, u64, usize)>| #![trigger is_scan_order(t, buffer@, start as int, end as int, signatures@, config.sector_aligned)]
                        is_scan_order(t, buffer@, start as int, end as int, signatures@, config.sector_aligned)
                        && ms@ == dedup_runs(scan_records(t, signatures@));
                    assert(is_scan_order(t, buffer@, start as int, start + buffer@.len(), signatures@, config.sector_aligned));
                    assert(chunk_findings(ms@, buffer@, start as int, signatures@, config.sector_aligned));
                    assert(start == chunk_read_start(offset as int, config.overlap_size as int));
                    assert(chunk_scan_found(ms@, old(reader).image(), offset as int, config.chunk_size as int,
                        config.overlap_size as int, total_size as int, signatures@, config.sector_aligned));
                }
                Ok(ms)
            },
            Err(e) => Err(e),
        }
    }
}

/// Which copy of a found file is being made.
#[derive(Debug, Clone, Copy, PartialEq, Eq, Structural)]
pub enum CarvePhase {
    /// Through the file's cluster chain.
    Chain,
    /// As one contiguous range.
    Range,
    /// As one contiguous range, after the copy through the chain failed.
    Fallback,
}

/// What a recovery does next.
pub enum CarveAction {
    /// Copy the bytes of the job to the output file, then report how it went.
    Copy(CopyJob, CarvePhase),
    /// The record is final.
    Done,
}

/// `size`, shortened so that `start + size` fits in 64 bits.
pub open spec fn clamped_size(start: u64, size: u64) -> u64 {
    if start + size <= u64::MAX { size } else { (u64::MAX - start) as u64 }
}

/// `after` was rebuilt from a chain that parser `p` finds in image `img` for
/// the file that `before` found (see [`parser_found_chain`]): its size,
/// cluster count and fragmentation are the chain's.
pub open spec fn rebuilt_from_image(p: FsParser, img: Seq<u8>, before: MatchResult, after: MatchResult) -> bool {
    exists|c: ClusterChain| #[trigger] parser_found_chain(p, img, before.start_offset, max_size_of(before.file_type), Some(c))
        && c.runs@.len() > 0
        && after.size == c.total_bytes
        && after.cluster_count == c.total_clusters
        && after.is_fragmented == c.is_fragmented
}

/// `after` is `before` rebuilt from file-system metadata: the fields that
/// describe the chain are set, the rest kept.
pub open spec fn is_rebuilt_record(before: MatchResult, after: MatchResult, min_size: u64, fs_type: FileSystemType) -> bool {
    &&& after.fs_rebuilt
    &&& after.size >= min_size
    &&& after.end_offset == before.start_offset + after.size
    &&& after.sector_end == after.end_offset / 512
    &&& after.fs_type == fs_type
    &&& after == (MatchResult {
        fs_rebuilt: true,
        is_fragmented: after.is_fragmented,
        cluster_count: after.cluster_count,
        size: after.size,
        end_offset: after.end_offset,
        fs_type: after.fs_type,
        sector_end: after.sector_end,
        ..before
    })
}

impl DiskCarver {
    /// The copy of the `size` bytes at `offset` (shortened where the range
    /// would run past 64-bit positions), in blocks of 16 MiB.
    pub fn carve_single_file(offset: u64, size: u64, calculate_hashes: bool) -> (job: CopyJob)
        ensures
            job.wf(),
            job.extents() == seq![(offset, clamped_size(offset, size))],
            job.block_size() == MAX_BLOCK,
            job.byte_limit() == clamped_size(offset, size),
            job.hashing() == calculate_hashes,
            job.copied() == Seq::<u8>::empty(),
            forall|img: Seq<u8>| #[trigger] job.copied_from_image(img),
    {
        let len = if size <= u64::MAX - offset { size } else { u64::MAX - offset };
        CopyJob::for_range(offset, len, calculate_hashes)
    }

    /// Whether the metadata, if any, can be searched for the file that `m`
    /// found (see [`FileSystemParser::can_search`]), as
    /// [`DiskCarver::begin_recovery`] needs.
    pub fn can_begin_recovery(&self, m: &MatchResult) -> (r: bool)
        ensures
            r == (self.smart() matches Some(Some(p)) ==> p.can_search(m.start_offset)),
    {
        match &self.smart_carver {
            Some(sc) => sc.can_rebuild_at(m.start_offset),
            None => true,
        }
    }

    /// Starts the recovery of `m`. With file-system metadata, a chain the
    /// metadata gives for the file's start, nonempty and at least the type's
    /// minimum size, rebuilds the record from it and is copied first (when
    /// its extents do not fit in 64 bits, that copy counts as failed at
    /// once, see [`DiskCarver::copy_failed`]). Otherwise the file is copied as
    /// one range, or, with fallback off, left as it is.
    pub fn begin_recovery<R: DiskImageReader>(&mut self, reader: &mut R, m: &mut MatchResult) -> (action: CarveAction)
        requires
            old(self).wf(),
            old(self).smart() matches Some(Some(p)) ==> p.can_search(old(m).start_offset),
            old(self).counts().failed_recoveries < usize::MAX,
        ensures
            final(self).wf(),
            final(self).configured() == old(self).configured(),
            final(self).scanned_signatures() == old(self).scanned_signatures(),
            final(self).found() == old(self).found(),
            final(self).smart() == old(self).smart(),
            final(m).file_type == old(m).file_type,
            final(m).start_offset == old(m).start_offset,
            action matches CarveAction::Copy(job, phase) ==> {
                &&& job.wf()
                &&& job.hashing() == old(self).configured().calculate_hashes
                &&& job.copied() == Seq::<u8>::empty()
                &&& forall|img: Seq<u8>| #[trigger] job.copied_from_image(img)
                &&& final(self).counts() == old(self).counts()
                &&& phase == CarvePhase::Range ==> *final(m) == *old(m) && old(self).configured().fs_fallback
                    && job.extents() == seq![(old(m).start_offset, clamped_size(old(m).start_offset, old(m).size))]
                &&& phase != CarvePhase::Range ==> (old(self).smart() matches Some(Some(p))
                    && is_rebuilt_record(*old(m), *final(m), min_size_of(old(m).file_type), p.kind())
                    && rebuilt_from_image(p, old(reader).image(), *old(m), *final(m)))
                &&& phase == CarvePhase::Chain ==> job.byte_limit() == final(m).size
                &&& phase == CarvePhase::Fallback ==> old(self).configured().fs_fallback
                    && job.extents() == seq![(old(m).start_offset, clamped_size(old(m).start_offset, final(m).size))]
            },
            action is Done ==> !old(self).configured().fs_fallback && (
                (*final(m) == *old(m) && final(self).counts() == old(self).counts())
                || ((old(self).smart() matches Some(Some(p)) && is_rebuilt_record(*old(m), *final(m), min_size_of(old(m).file_type), p.kind())
                    && rebuilt_from_image(p, old(reader).image(), *old(m), *final(m)))
                    && final(self).counts() == (CarveStats { failed_recoveries: (old(self).counts().failed_recoveries + 1) as usize, ..old(self).counts() }))
            ),
    {
        let sig = m.file_type.get_signature();
        let mut chain_job: Option<Result<CopyJob, FsError>> = None;
        match &self.smart_carver {
            Some(sc) => {
                if sc.has_filesystem() {
                    match sc.try_rebuild_file(reader, m.start_offset, sig.max_size) {
                        Some(chain) => {
                            if !chain.is_empty() && chain.total_bytes >= sig.min_size && chain.total_bytes <= u64::MAX - m.start_offset {
                                m.fs_rebuilt = true;
                                m.is_fragmented = chain.is_fragmented;
                                m.cluster_count = chain.total_clusters;
                                m.size = chain.total_bytes;
                                m.end_offset = m.start_offset + chain.total_bytes;
                                m.fs_type = sc.fs_type();
                                m.sector_end = m.end_offset / SECTOR_SIZE;
                                chain_job = Some(sc.carve_with_cluster_chain(&chain, self.config.calculate_hashes));
                            }
                        },
                        None => {},
                    }
                }
            },
            None => {},
        }
        match chain_job {
            Some(Ok(job)) => CarveAction::Copy(job, CarvePhase::Chain),
            Some(Err(_)) => self.copy_failed(m, CarvePhase::Chain),
            None => {
                if !self.config.fs_fallback {
                    CarveAction::Done
                } else {
                    CarveAction::Copy(DiskCarver::carve_single_file(m.start_offset, m.size, self.config.calculate_hashes), CarvePhase::Range)
                }
            },
        }
    }

    /// Records that the copy of `m` made in `phase` was written to
    /// `output_path` with digests `hashes`: the record is recovered; a
    /// fallback copy drops what the chain had set; the counts of recoveries
    /// (and of rebuilt, fragmented and contiguous files) grow.
    pub fn copy_succeeded(
        &mut self,
        m: &mut MatchResult,
        phase: CarvePhase,
        hashes: (Option<String>, Option<String>),
        output_path: std::path::PathBuf,
    ) -> (action: CarveAction)
        requires
            old(self).wf(),
            old(self).counts().successful_recoveries < usize::MAX,
            old(self).counts().fs_rebuilt_count < usize::MAX,
            old(self).counts().fragmented_count < usize::MAX,
            old(self).counts().contiguous_count < usize::MAX,
        ensures
            action is Done,
            final(self).wf(),
            final(self).configured() == old(self).configured(),
            final(self).scanned_signatures() == old(self).scanned_signatures(),
            final(self).found() == old(self).found(),
            final(self).smart() == old(self).smart(),
            phase == CarvePhase::Fallback ==> *final(m) == (MatchResult {
                recovered: true,
                output_path: Some(output_path),
                md5_hash: hashes.0,
                sha256_hash: hashes.1,
                fs_rebuilt: false,
                is_fragmented: false,
                cluster_count: 0,
                fs_type: FileSystemType::Unknown,
                ..*old(m)
            }),
            phase != CarvePhase::Fallback ==> *final(m) == (MatchResult {
                recovered: true,
                output_path: Some(output_path),
                md5_hash: hashes.0,
                sha256_hash: hashes.1,
                ..*old(m)
            }),
            final(self).counts() == (CarveStats {
                successful_recoveries: (old(self).counts().successful_recoveries + 1) as usize,
                fs_rebuilt_count: if phase != CarvePhase::Fallback && old(m).fs_rebuilt {
                    (old(self).counts().fs_rebuilt_count + 1) as usize
                } else {
                    old(self).counts().fs_rebuilt_count
                },
                fragmented_count: if phase != CarvePhase::Fallback && old(m).fs_rebuilt && old(m).is_fragmented {
                    (old(self).counts().fragmented_count + 1) as usize
                } else {
                    old(self).counts().fragmented_count
                },
                contiguous_count: if phase != CarvePhase::Fallback && old(m).fs_rebuilt && !old(m).is_fragmented {
                    (old(self).counts().contiguous_count + 1) as usize
                } else {
                    old(self).counts().contiguous_count
                },
                ..old(self).counts()
            }),
    {
        m.recovered = true;
        m.output_path = Some(output_path);
        m.md5_hash = hashes.0;
        m.sha256_hash = hashes.1;
        self.stats.successful_recoveries = self.stats.successful_recoveries + 1;
        if phase == CarvePhase::Fallback {
            m.fs_rebuilt = false;
            m.is_fragmented = false;
            m.cluster_count = 0;
            m.fs_type = FileSystemType::Unknown;
        } else if m.fs_rebuilt {
            self.stats.fs_rebuilt_count = self.stats.fs_rebuilt_count + 1;
            if m.is_fragmented {
                self.stats.fragmented_count = self.stats.fragmented_count + 1;
            } else {
                self.stats.contiguous_count = self.stats.contiguous_count + 1;
            }
        }
        CarveAction::Done
    }

    /// Records that the copy of `m` made in `phase` failed: a copy through
    /// the chain is followed, with fallback on, by a copy of the file as one
    /// range; otherwise the failure is counted and the record is final.
    pub fn copy_failed(&mut self, m: &MatchResult, phase: CarvePhase) -> (action: CarveAction)
        requires
            old(self).wf(),
            old(self).counts().failed_recoveries < usize::MAX,
        ensures
            final(self).wf(),
            final(self).configured() == old(self).configured(),
            final(self).scanned_signatures() == old(self).scanned_signatures(),
            final(self).found() == old(self).found(),
            final(self).smart() == old(self).smart(),
            phase == CarvePhase::Chain && old(self).configured().fs_fallback ==> (action matches CarveAction::Copy(job, p) && {
                &&& p == CarvePhase::Fallback
                &&& job.wf()
                &&& job.extents() == seq![(m.start_offset, clamped_size(m.start_offset, m.size))]
                &&& job.hashing() == old(self).configured().calculate_hashes
                &&& job.copied() == Seq::<u8>::empty()
                &&& forall|img: Seq<u8>| #[trigger] job.copied_from_image(img)
                &&& final(self).counts() == old(self).counts()
            }),
            !(phase == CarvePhase::Chain && old(self).configured().fs_fallback) ==> action is Done
                && final(self).counts() == (CarveStats { failed_recoveries: (old(self).counts().failed_recoveries + 1) as usize, ..old(self).counts() }),
    {
        if phase == CarvePhase::Chain && self.config.fs_fallback {
            CarveAction::Copy(DiskCarver::carve_single_file(m.start_offset, m.size, self.config.calculate_hashes), CarvePhase::Fallback)
        } else {
            self.stats.failed_recoveries = self.stats.failed_recoveries + 1;
            CarveAction::Done
        }
    }
}

/// Records with the same types, position by position, count the same per
/// type.
proof fn lemma_count_of_type_same_types(a: Seq<MatchResult>, b: Seq<MatchResult>, t: FileType)
    requires
        a.len() == b.len(),
        forall|i: int| 0 <= i < a.len() ==> (#[trigger] a[i]).file_type == b[i].file_type,
    ensures
        count_of_type(a, t) == count_of_type(b, t),
    decreases a.len(),
{
    if a.len() > 0 {
        assert forall|i: int| 0 <= i < a.drop_last().len() implies (#[trigger] a.drop_last()[i]).file_type == b.drop_last()[i].file_type by {
            assert(a.drop_last()[i] == a[i] && b.drop_last()[i] == b[i]);
        }
        lemma_count_of_type_same_types(a.drop_last(), b.drop_last(), t);
        assert(a.last().file_type == b.last().file_type);
    }
}

impl DiskCarver {
    /// Replaces the records found by `carved`, the same files after their
    /// recovery (same types and starts, in the same order).
    pub fn store_carved(&mut self, carved: Vec<MatchResult>)
        requires
            old(self).wf(),
            carved@.len() == old(self).found().len(),
            forall|i: int| 0 <= i < carved@.len() ==> (#[trigger] carved@[i]).file_type == old(self).found()[i].file_type
                && carved@[i].start_offset == old(self).found()[i].start_offset,
        ensures
            final(self).wf(),
            final(self).found() == carved@,
            final(self).configured() == old(self).configured(),
            final(self).scanned_signatures() == old(self).scanned_signatures(),
            final(self).smart() == old(self).smart(),
            final(self).counts() == old(self).counts(),
    {
        let ghost before = self.matches@;
        self.matches = carved;
        proof {
            assert forall|t: FileType| type_count(self.stats.matches_by_type@, t) == #[trigger] count_of_type(self.matches@, t) by {
                lemma_count_of_type_same_types(before, self.matches@, t);
            }
            assert forall|i: int, j: int| 0 <= i < j < self.matches@.len() && (#[trigger] self.matches@[i]).file_type == (#[trigger] self.matches@[j]).file_type implies
                (if self.matches@[i].start_offset >= self.matches@[j].start_offset { self.matches@[i].start_offset - self.matches@[j].start_offset } else { self.matches@[j].start_offset - self.matches@[i].start_offset }) >= self.config.min_match_interval by {
                assert(before[i].file_type == before[j].file_type);
            }
        }
    }
}

impl DiskCarver {
    /// What a well-formed carver keeps: its per-type counts list each type
    /// once and agree with the files found, the total count is the number of
    /// files found, and no two files of one type start closer than the
    /// configured interval.
    pub proof fn lemma_wf_facts(&self)
        requires
            self.wf(),
        ensures
            counts_keyed_by_type(self.counts().matches_by_type@),
            self.counts().total_matches == self.found().len(),
            forall|t: FileType| type_count(self.counts().matches_by_type@, t) == #[trigger] count_of_type(self.found(), t),
            spaced(self.found(), self.configured().min_match_interval),
    {
    }
}

/// Merging keeps what was there: the files before a merge are its first
/// files, and merging part of a chunk's files gives a prefix of merging all
/// of them.
proof fn lemma_merged_prefix(all: Seq<MatchResult>, local: Seq<MatchResult>, interval: u64, k: int)
    requires
        0 <= k <= local.len(),
    ensures
        merged_matches(all, local.take(k), interval).len() <= merged_matches(all, local, interval).len(),
        forall|i: int| 0 <= i < merged_matches(all, local.take(k), interval).len() ==>
            #[trigger] merged_matches(all, local, interval)[i] == merged_matches(all, local.take(k), interval)[i],
    decreases local.len() - k,
{
    if k < local.len() {
        lemma_merged_prefix(all, local, interval, k + 1);
        let small = merged_matches(all, local.take(k), interval);
        let big = merged_matches(all, local.take(k + 1), interval);
        assert(local.take(k + 1).drop_last() =~= local.take(k));
        assert forall|i: int| 0 <= i < small.len() implies #[trigger] big[i] == small[i] by {}
    } else {
        assert(local.take(k) =~= local);
    }
}

/// A near match stays one when files are added after it.
proof fn lemma_near_match_extends(ms: Seq<MatchResult>, more: Seq<MatchResult>, m: MatchResult, interval: u64)
    requires
        has_near_match(ms, m, interval),
        ms.len() <= more.len(),
        forall|i: int| 0 <= i < ms.len() ==> #[trigger] more[i] == ms[i],
    ensures
        has_near_match(more, m, interval),
{
    let k = choose|k: int| 0 <= k < ms.len() && (#[trigger] ms[k]).file_type == m.file_type
        && (if ms[k].start_offset >= m.start_offset { ms[k].start_offset - m.start_offset } else { m.start_offset - ms[k].start_offset }) < interval;
    assert(more[k] == ms[k]);
}

/// After a merge, every file of the chunk has a near match among the files
/// kept (itself, when it was kept).
proof fn lemma_merged_all_near(all: Seq<MatchResult>, local: Seq<MatchResult>, interval: u64)
    requires
        interval > 0,
    ensures
        forall|j: int| 0 <= j < local.len() ==> has_near_match(merged_matches(all, local, interval), #[trigger] local[j], interval),
    decreases local.len(),
{
    if local.len() > 0 {
        let prefix = local.drop_last();
        lemma_merged_all_near(all, prefix, interval);
        let prev = merged_matches(all, prefix, interval);
        let cur = merged_matches(all, local, interval);
        assert(local.take(local.len() - 1) =~= prefix);
        lemma_merged_prefix(all, local, interval, local.len() - 1);
        assert forall|j: int| 0 <= j < local.len() implies has_near_match(cur, #[trigger] local[j], interval) by {
            if j < local.len() - 1 {
                assert(prefix[j] == local[j]);
                lemma_near_match_extends(prev, cur, local[j], interval);
            } else if has_near_match(prev, local.last(), interval) {
                lemma_near_match_extends(prev, cur, local[j], interval);
            } else {
                assert(cur[cur.len() - 1] == local[j]);
            }
        }
    }
}

/// Merging files that all have a near match changes nothing.
proof fn lemma_merged_all_known(all: Seq<MatchResult>, local: Seq<MatchResult>, interval: u64)
    requires
        forall|j: int| 0 <= j < local.len() ==> has_near_match(all, #[trigger] local[j], interval),
    ensures
        merged_matches(all, local, interval) == all,
    decreases local.len(),
{
    if local.len() > 0 {
        assert forall|j: int| 0 <= j < local.drop_last().len() implies has_near_match(all, #[trigger] local.drop_last()[j], interval) by {
            assert(local.drop_last()[j] == local[j]);
        }
        lemma_merged_all_known(all, local.drop_last(), interval);
        assert(has_near_match(all, local[local.len() - 1], interval));
    }
}

/// Recording the same files twice keeps them once: a chunk's files merged
/// again (as where chunks overlap and report a file twice) add nothing.
pub proof fn lemma_merge_idempotent(all: Seq<MatchResult>, local: Seq<MatchResult>, interval: u64)
    requires
        interval > 0,
    ensures
        merged_matches(merged_matches(all, local, interval), local, interval) == merged_matches(all, local, interval),
{
    lemma_merged_all_near(all, local, interval);
    lemma_merged_all_known(merged_matches(all, local, interval), local, interval);
}

/// `ms` is ordered by start offset.
pub open spec fn ordered_by_start(ms: Seq<MatchResult>) -> bool {
    forall|i: int, j: int| 0 <= i < j < ms.len() ==> (#[trigger] ms[i]).start_offset <= (#[trigger] ms[j]).start_offset
}

/// Dropping repeats keeps records ordered by start.
proof fn lemma_dedup_runs_ordered(ms: Seq<MatchResult>)
    requires
        ordered_by_start(ms),
    ensures
        ordered_by_start(dedup_runs(ms)),
    decreases ms.len(),
{
    if ms.len() > 0 {
        let init = ms.drop_last();
        assert(ordered_by_start(init)) by {
            assert forall|i: int, j: int| 0 <= i < j < init.len() implies (#[trigger] init[i]).start_offset <= (#[trigger] init[j]).start_offset by {
                assert(init[i] == ms[i] && init[j] == ms[j]);
            }
        }
        lemma_dedup_runs_ordered(init);
        let r = dedup_runs(init);
        let d = dedup_runs(ms);
        assert forall|i: int, j: int| 0 <= i < j < d.len() implies (#[trigger] d[i]).start_offset <= (#[trigger] d[j]).start_offset by {
            if j == r.len() && !(r.len() > 0 && r.last().file_type == ms.last().file_type && r.last().start_offset == ms.last().start_offset) {
                assert(d[i] == r[i]);
                assert(r.contains(r[i]));
                lemma_dedup_runs_subset(init, r[i]);
                let k = choose|k: int| 0 <= k < init.len() && #[trigger] init[k] == r[i];
                assert(ms[k] == r[i]);
                assert(d[j] == ms[ms.len() - 1]);
            } else {
                assert(d[i] == r[i] && d[j] == r[j]);
            }
        }
    }
}

/// The files a chunk scan reports are ordered by start offset.
pub proof fn lemma_scan_results_ordered(
    t: Seq<(u64, u64, usize)>,
    buf: Seq<u8>,
    bstart: int,
    bend: int,
    sigs: Seq<FileSignature>,
    aligned: bool,
)
    requires
        is_scan_order(t, buf, bstart, bend, sigs, aligned),
    ensures
        ordered_by_start(dedup_runs(scan_records(t, sigs))),
{
    let ms = scan_records(t, sigs);
    assert forall|i: int, j: int| 0 <= i < j < ms.len() implies (#[trigger] ms[i]).start_offset <= (#[trigger] ms[j]).start_offset by {
        assert(t[i].0 < t[j].0 || (t[i].0 == t[j].0 && t[i].2 < t[j].2));
    }
    lemma_dedup_runs_ordered(ms);
}

} // verus!
