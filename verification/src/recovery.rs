//! Copying a found file out of the image: which bytes are read, in which
//! blocks, and the digests of what was copied.

use vstd::prelude::*;

use crate::disk_reader::{image_window, read_fills, DiskImageReader, DiskReaderError};
use crate::fs_parser::{DataRun, FsError};

verus! {

/// `md5::Context`, an MD5 computation in progress, carried as an opaque
/// value.
#[verifier::external_type_specification]
#[verifier::external_body]
pub struct ExMd5Context(md5::Context);

/// A SHA-256 computation in progress (`sha2::Sha256`, whose type Verus
/// cannot be given: it is built from type-level integers).
#[verifier::external_body]
pub struct Sha256State {
    inner: sha2::Sha256,
}

/// The bytes an MD5 context has consumed.
pub uninterp spec fn md5_input(ctx: md5::Context) -> Seq<u8>;

/// The MD5 digest of `data`.
pub uninterp spec fn md5_digest(data: Seq<u8>) -> Seq<u8>;

/// The bytes a SHA-256 state has consumed.
pub uninterp spec fn sha256_input(state: Sha256State) -> Seq<u8>;

/// The SHA-256 digest of `data`.
pub uninterp spec fn sha256_digest(data: Seq<u8>) -> Seq<u8>;

/// Calls `md5::Context::new`: a context that has consumed nothing.
#[verifier::external_body]
fn md5_start() -> (ctx: md5::Context)
    ensures
        md5_input(ctx) == Seq::<u8>::empty(),
{
    md5::Context::new()
}

/// Calls `md5::Context::consume`: the context has consumed `data` too.
#[verifier::external_body]
fn md5_consume(ctx: &mut md5::Context, data: &[u8])
    ensures
        md5_input(*final(ctx)) == md5_input(*old(ctx)) + data@,
{
    ctx.consume(data)
}

/// Calls `md5::Context::compute`: the 16-byte digest of what the context
/// consumed.
#[verifier::external_body]
fn md5_finish(ctx: md5::Context) -> (d: Vec<u8>)
    ensures
        d@ == md5_digest(md5_input(ctx)),
        d@.len() == 16,
{
    ctx.compute().0.to_vec()
}

/// Calls `sha2::Sha256::new`: a state that has consumed nothing.
#[verifier::external_body]
fn sha256_start() -> (state: Sha256State)
    ensures
        sha256_input(state) == Seq::<u8>::empty(),
{
    Sha256State { inner: <sha2::Sha256 as sha2::Digest>::new() }
}

/// Calls `sha2::Digest::update`: the state has consumed `data` too.
#[verifier::external_body]
fn sha256_consume(state: &mut Sha256State, data: &[u8])
    ensures
        sha256_input(*final(state)) == sha256_input(*old(state)) + data@,
{
    sha2::Digest::update(&mut state.inner, data)
}

/// Calls `sha2::Digest::finalize`: the 32-byte digest of what the state
/// consumed.
#[verifier::external_body]
fn sha256_finish(state: Sha256State) -> (d: Vec<u8>)
    ensures
        d@ == sha256_digest(sha256_input(state)),
        d@.len() == 32,
{
    sha2::Digest::finalize(state.inner).to_vec()
}

/// The lowercase hexadecimal digit of `d` (below 16).
pub open spec fn hex_digit(d: int) -> char {
    if d < 10 {
        (('0' as int) + d) as char
    } else {
        (('a' as int) + d - 10) as char
    }
}

/// `bytes` in lowercase hexadecimal, two digits per byte.
pub open spec fn hex_lower(bytes: Seq<u8>) -> Seq<char>
    decreases bytes.len(),
{
    if bytes.len() == 0 {
        Seq::empty()
    } else {
        hex_lower(bytes.drop_last()) + seq![hex_digit(bytes.last() as int / 16), hex_digit(bytes.last() as int % 16)]
    }
}

/// Hexadecimal text has two digits per byte.
proof fn lemma_hex_lower_len(bytes: Seq<u8>)
    ensures
        hex_lower(bytes).len() == 2 * bytes.len(),
    decreases bytes.len(),
{
    if bytes.len() > 0 {
        lemma_hex_lower_len(bytes.drop_last());
    }
}

/// Calls `hex::encode`: `bytes` in lowercase hexadecimal.
#[verifier::external_body]
fn hex_encode(bytes: &[u8]) -> (s: String)
    ensures
        s@ == hex_lower(bytes@),
{
    hex::encode(bytes)
}

/// MD5 and SHA-256 of the bytes copied so far, when hashing is on.
pub struct Digests {
    md5: Option<md5::Context>,
    sha256: Option<Sha256State>,
    consumed: Ghost<Seq<u8>>,
}

impl Digests {
    /// Whether digests are computed.
    pub closed spec fn hashing(&self) -> bool {
        self.md5 is Some
    }

    /// The bytes consumed so far.
    pub closed spec fn consumed(&self) -> Seq<u8> {
        self.consumed@
    }

    /// Both states have consumed exactly the bytes consumed so far.
    pub closed spec fn wf(&self) -> bool {
        &&& (self.md5 is Some <==> self.sha256 is Some)
        &&& (self.md5 matches Some(c) ==> md5_input(c) == self.consumed@)
        &&& (self.sha256 matches Some(h) ==> sha256_input(h) == self.consumed@)
    }

    /// Digests that have consumed nothing, computed when `enabled`.
    pub fn new(enabled: bool) -> (d: Self)
        ensures
            d.wf(),
            d.hashing() == enabled,
            d.consumed() == Seq::<u8>::empty(),
    {
        if enabled {
            Digests { md5: Some(md5_start()), sha256: Some(sha256_start()), consumed: Ghost(Seq::empty()) }
        } else {
            Digests { md5: None, sha256: None, consumed: Ghost(Seq::empty()) }
        }
    }

    /// Consumes `data`.
    pub fn consume(&mut self, data: &[u8])
        requires
            old(self).wf(),
        ensures
            final(self).wf(),
            final(self).hashing() == old(self).hashing(),
            final(self).consumed() == old(self).consumed() + data@,
    {
        match &mut self.md5 {
            Some(c) => md5_consume(c, data),
            None => {},
        }
        match &mut self.sha256 {
            Some(h) => sha256_consume(h, data),
            None => {},
        }
        self.consumed = Ghost(self.consumed@ + data@);
    }

    /// The MD5 and SHA-256 of what was consumed, in lowercase hexadecimal;
    /// `None` for both when hashing is off.
    pub fn finish(self) -> (r: (Option<String>, Option<String>))
        requires
            self.wf(),
        ensures
            self.hashing() ==> (r.0 matches Some(m) && m@ == hex_lower(md5_digest(self.consumed())) && m@.len() == 32)
                && (r.1 matches Some(h) && h@ == hex_lower(sha256_digest(self.consumed())) && h@.len() == 64),
            !self.hashing() ==> r.0 is None && r.1 is None,
    {
        let md5_hex = match self.md5 {
            Some(c) => {
                let d = md5_finish(c);
                proof { lemma_hex_lower_len(d@); }
                Some(hex_encode(d.as_slice()))
            },
            None => None,
        };
        let sha_hex = match self.sha256 {
            Some(h) => {
                let d = sha256_finish(h);
                proof { lemma_hex_lower_len(d@); }
                Some(hex_encode(d.as_slice()))
            },
            None => None,
        };
        (md5_hex, sha_hex)
    }
}

/// Bytes in the extents of `runs` from index `i` on.
pub open spec fn lens_from(runs: Seq<(u64, u64)>, i: int) -> int
    decreases runs.len() - i,
{
    if i < 0 || i >= runs.len() {
        0
    } else {
        runs[i].1 + lens_from(runs, i + 1)
    }
}

/// The image bytes of the first `cuts.len()` extents, joined in order: of
/// extent `i`, the `cuts[i]` bytes from its start (see [`image_window`]).
pub open spec fn extent_bytes(extents: Seq<(u64, u64)>, cuts: Seq<int>, img: Seq<u8>) -> Seq<u8>
    decreases cuts.len(),
{
    if cuts.len() == 0 {
        Seq::empty()
    } else {
        extent_bytes(extents, cuts.drop_last(), img)
            + image_window(img, extents[cuts.len() - 1].0 as int, cuts.last())
    }
}

/// An extent `e` read up to `cut` bytes was read whole, or up to or past
/// the end of image `img`.
pub open spec fn cut_at_end(e: (u64, u64), cut: int, img: Seq<u8>) -> bool {
    cut == e.1 || e.0 + cut >= img.len()
}

/// `cuts` say how far the first extents were read from image `img`: no
/// further than each extent's length, and each but the last one read whole
/// or up to the image's end.
pub open spec fn cuts_fit(extents: Seq<(u64, u64)>, cuts: Seq<int>, img: Seq<u8>) -> bool {
    &&& cuts.len() <= extents.len()
    &&& forall|i: int| 0 <= i < cuts.len() ==> 0 <= #[trigger] cuts[i] <= extents[i].1
    &&& forall|i: int| 0 <= i < cuts.len() - 1 ==> cut_at_end(extents[i], #[trigger] cuts[i], img)
}

/// `copied` is what a copy of `extents` from image `img` has read so far:
/// the extents' image bytes joined in order, each extent before the one
/// being read taken whole or up to the image's end.
pub open spec fn is_extent_stream(copied: Seq<u8>, extents: Seq<(u64, u64)>, img: Seq<u8>) -> bool {
    exists|cuts: Seq<int>| #[trigger] cuts_fit(extents, cuts, img) && copied == extent_bytes(extents, cuts, img)
}

/// `copied` is all that a copy of `extents` from image `img` reads: every
/// extent's image bytes, joined in order, each taken whole or up to the
/// image's end.
pub open spec fn is_whole_stream(copied: Seq<u8>, extents: Seq<(u64, u64)>, img: Seq<u8>) -> bool {
    exists|cuts: Seq<int>| #[trigger] cuts_fit(extents, cuts, img) && copied == extent_bytes(extents, cuts, img)
        && cuts.len() == extents.len()
        && (cuts.len() > 0 ==> cut_at_end(extents[cuts.len() - 1], cuts[cuts.len() - 1], img))
}

/// The `a + b` bytes of an image window are its first `a` bytes followed by
/// the `b` after them.
proof fn lemma_image_window_split(img: Seq<u8>, offset: int, a: int, b: int)
    requires
        a >= 0,
        b >= 0,
    ensures
        image_window(img, offset, a + b) == image_window(img, offset, a) + image_window(img, offset + a, b),
{
    assert(image_window(img, offset, a + b) =~= image_window(img, offset, a) + image_window(img, offset + a, b));
}

/// Largest block a copy reads at once.
pub const MAX_BLOCK: u64 = 16777216;

/// A copy of extents of the image, block by block, with the digests of what
/// was copied: [`CopyJob::next_block`] reads the next block.
pub struct CopyJob {
    runs: Vec<(u64, u64)>,
    run_index: usize,
    run_offset: u64,
    run_remaining: u64,
    planned_left: u64,
    total_written: u64,
    limit: u64,
    buffer_size: u64,
    digests: Digests,
    plan_total: Ghost<int>,
}

impl CopyJob {
    /// The extents `(offset, length)` to copy, in order.
    pub closed spec fn extents(&self) -> Seq<(u64, u64)> {
        self.runs@
    }

    /// Size of the blocks read.
    pub closed spec fn block_size(&self) -> u64 {
        self.buffer_size
    }

    /// Once this many bytes are copied, the copy stops.
    pub closed spec fn byte_limit(&self) -> u64 {
        self.limit
    }

    /// Whether digests are computed.
    pub closed spec fn hashing(&self) -> bool {
        self.digests.hashing()
    }

    /// The bytes copied so far.
    pub closed spec fn copied(&self) -> Seq<u8> {
        self.digests.consumed()
    }

    /// Whether the copy is over.
    pub closed spec fn is_done(&self) -> bool {
        self.run_index >= self.runs@.len()
    }

    /// Bytes the copy may still read.
    pub closed spec fn bytes_left(&self) -> nat {
        if self.run_index < self.runs@.len() { self.planned_left as nat } else { 0 }
    }

    /// Bytes of all extents.
    pub closed spec fn planned(&self) -> int {
        self.plan_total@
    }

    /// The copy's bookkeeping agrees with its extents and digests.
    pub closed spec fn wf(&self) -> bool {
        &&& self.digests.wf()
        &&& 0 < self.buffer_size <= MAX_BLOCK
        &&& self.run_index <= self.runs@.len()
        &&& self.digests.consumed().len() == self.total_written
        &&& self.plan_total@ == lens_from(self.runs@, 0)
        &&& self.plan_total@ <= u64::MAX
        &&& self.total_written + self.bytes_left() <= self.plan_total@
        &&& forall|i: int| 0 <= i < self.runs@.len() ==> (#[trigger] self.runs@[i]).0 + self.runs@[i].1 <= u64::MAX
        &&& self.run_index < self.runs@.len() ==> {
            &&& self.planned_left == self.run_remaining + lens_from(self.runs@, self.run_index + 1)
            &&& self.run_offset + self.run_remaining <= u64::MAX
            &&& self.runs@[self.run_index as int].0 <= self.run_offset
            &&& self.run_offset + self.run_remaining == self.runs@[self.run_index as int].0 + self.runs@[self.run_index as int].1
        }
    }

    /// Nothing is left for the copy to read from image `img`: what is left of
    /// the current extent, and every later extent, is empty or lies at or
    /// past the image's end.
    pub closed spec fn exhausted_in(&self, img: Seq<u8>) -> bool {
        &&& self.run_index < self.runs@.len() ==> (self.run_remaining == 0 || self.run_offset >= img.len())
        &&& forall|i: int| self.run_index < i < self.runs@.len() ==> (#[trigger] self.runs@[i]).1 == 0 || self.runs@[i].0 >= img.len()
    }

    /// The copy has read `cuts[i]` bytes of extent `i` of image `img`, and
    /// what it copied is those bytes (see [`extent_bytes`]): the last cut is
    /// where it reads next; a finished copy read every extent, or stopped at
    /// its byte limit.
    closed spec fn copy_state(&self, cuts: Seq<int>, img: Seq<u8>) -> bool {
        &&& cuts_fit(self.runs@, cuts, img)
        &&& self.digests.consumed() == extent_bytes(self.runs@, cuts, img)
        &&& self.run_index < self.runs@.len() ==> cuts.len() == self.run_index + 1
            && cuts[self.run_index as int] == self.run_offset - self.runs@[self.run_index as int].0
        &&& self.run_index >= self.runs@.len() ==> (cuts.len() == self.runs@.len()
            && (cuts.len() > 0 ==> cut_at_end(self.runs@[cuts.len() - 1], cuts[cuts.len() - 1], img)))
            || self.total_written >= self.limit
    }

    /// What the copy copied is what it read of its extents from image `img`
    /// (see [`is_extent_stream`]), as far as it got.
    pub closed spec fn copied_from_image(&self, img: Seq<u8>) -> bool {
        exists|cuts: Seq<int>| #[trigger] self.copy_state(cuts, img)
    }

    /// A copy state makes what was copied an extent stream, and, once the
    /// copy is over, the whole stream unless the byte limit stopped it.
    proof fn lemma_copy_state_stream(&self, cuts: Seq<int>, img: Seq<u8>)
        requires
            self.wf(),
            self.copy_state(cuts, img),
        ensures
            self.copied_from_image(img),
            is_extent_stream(self.copied(), self.extents(), img),
            self.is_done() ==> is_whole_stream(self.copied(), self.extents(), img)
                || self.copied().len() >= self.byte_limit(),
    {
    }

    /// Where the next block is read from: the byte after the last one read
    /// of the current extent.
    pub closed spec fn read_position(&self) -> int {
        self.run_offset as int
    }

    /// A copy never holds more than its extents: the bytes copied and the
    /// bytes it may still read add up to at most the bytes of all extents,
    /// and a finished copy reads nothing more.
    pub proof fn lemma_copied_within_plan(&self)
        requires
            self.wf(),
        ensures
            self.copied().len() + self.bytes_left() <= self.planned(),
            self.is_done() ==> self.bytes_left() == 0,
    {
    }

    /// Skips what is left of the current extent.
    fn next_extent(&mut self)
        requires
            old(self).wf(),
            old(self).run_index < old(self).runs@.len(),
        ensures
            final(self).wf(),
            final(self).run_index == old(self).run_index + 1,
            final(self).runs == old(self).runs,
            final(self).buffer_size == old(self).buffer_size,
            final(self).limit == old(self).limit,
            final(self).digests == old(self).digests,
            final(self).plan_total == old(self).plan_total,
            final(self).bytes_left() <= old(self).bytes_left(),
            final(self).run_index < final(self).runs@.len() ==> final(self).run_offset == final(self).runs@[final(self).run_index as int].0
                && final(self).run_remaining == final(self).runs@[final(self).run_index as int].1,
    {
        proof { lemma_lens_from_nonneg(self.runs@, self.run_index + 1); }
        let count = self.runs.len();
        let next = self.run_index + 1;
        self.planned_left = self.planned_left - self.run_remaining;
        if next < count {
            self.run_offset = self.runs[next].0;
            self.run_remaining = self.runs[next].1;
            proof {
                lemma_lens_from_nonneg(self.runs@, next + 1);
                assert(self.runs@[next as int].0 + self.runs@[next as int].1 <= u64::MAX);
            }
        }
        self.run_index = next;
    }

    /// Reads the next block of the copy: `None` once it is over. A block is
    /// read from the current extent where the last block ended, at most
    /// [`CopyJob::block_size`] bytes; a read that returns nothing ends its
    /// extent; the copy ends after its last extent or once
    /// [`CopyJob::byte_limit`] bytes are copied. So what is copied from one
    /// image is always that image's bytes of the extents joined in order
    /// (see [`is_extent_stream`]), and a finished copy holds all of them (see
    /// [`is_whole_stream`]) unless the byte limit stopped it.
    pub fn next_block<R: DiskImageReader>(&mut self, reader: &mut R) -> (res: Result<Option<Vec<u8>>, DiskReaderError>)
        requires
            old(self).wf(),
        ensures
            final(self).wf(),
            final(self).extents() == old(self).extents(),
            final(self).block_size() == old(self).block_size(),
            final(self).byte_limit() == old(self).byte_limit(),
            final(self).hashing() == old(self).hashing(),
            final(self).planned() == old(self).planned(),
            final(self).bytes_left() <= old(self).bytes_left(),
            old(self).is_done() ==> res matches Ok(None),
            final(reader).image() == old(reader).image(),
            res matches Ok(Some(b)) ==> {
                &&& 0 < b@.len() <= old(self).block_size()
                &&& b@ == image_window(old(reader).image(), final(self).read_position() - b@.len(), b@.len() as int)
                &&& exists|i: int| 0 <= i < old(self).extents().len()
                    && (#[trigger] old(self).extents()[i]).0 <= final(self).read_position() - b@.len()
                    && final(self).read_position() <= old(self).extents()[i].0 + old(self).extents()[i].1
                &&& final(self).copied() == old(self).copied() + b@
                &&& final(self).bytes_left() < old(self).bytes_left()
                &&& final(self).copied().len() >= old(self).byte_limit() ==> final(self).is_done()
            },
            res matches Ok(None) ==> final(self).is_done() && final(self).copied() == old(self).copied()
                && old(self).exhausted_in(old(reader).image()),
            res is Err ==> final(self).copied() == old(self).copied(),
            old(self).copied_from_image(old(reader).image()) ==> final(self).copied_from_image(old(reader).image()),
            old(self).copied_from_image(old(reader).image()) ==> is_extent_stream(final(self).copied(), final(self).extents(), old(reader).image()),
            old(self).copied_from_image(old(reader).image()) && res is Ok && final(self).is_done()
                ==> is_whole_stream(final(self).copied(), final(self).extents(), old(reader).image())
                    || final(self).copied().len() >= final(self).byte_limit(),
    {
        let ghost img = reader.image();
        let ghost tracked_ok = old(self).copied_from_image(img);
        let ghost mut cuts: Seq<int> = if tracked_ok { choose|c: Seq<int>| #[trigger] old(self).copy_state(c, img) } else { Seq::empty() };
        loop
            invariant
                self.wf(),
                self.runs == old(self).runs,
                self.buffer_size == old(self).buffer_size,
                self.limit == old(self).limit,
                self.digests == old(self).digests,
                self.plan_total == old(self).plan_total,
                self.bytes_left() <= old(self).bytes_left(),
                old(self).is_done() ==> self.is_done(),
                reader.image() == old(reader).image(),
                old(self).run_index <= self.run_index,
                self.digests.consumed() == old(self).digests.consumed(),
                self.run_index == old(self).run_index ==> self.run_offset == old(self).run_offset
                    && self.run_remaining == old(self).run_remaining,
                self.run_index > old(self).run_index ==> (old(self).run_remaining == 0
                    || old(self).run_offset >= old(reader).image().len()),
                self.run_index > old(self).run_index && self.run_index < self.runs@.len()
                    ==> self.run_offset == self.runs@[self.run_index as int].0
                    && self.run_remaining == self.runs@[self.run_index as int].1,
                forall|i: int| old(self).run_index < i < self.run_index ==> (#[trigger] self.runs@[i]).1 == 0
                    || self.runs@[i].0 >= old(reader).image().len(),
                img == old(reader).image(),
                tracked_ok == old(self).copied_from_image(img),
                tracked_ok ==> self.copy_state(cuts, img),
            decreases self.runs@.len() - self.run_index,
        {
            if self.run_index >= self.runs.len() {
                proof {
                    if tracked_ok {
                        self.lemma_copy_state_stream(cuts, img);
                    }
                }
                return Ok(None);
            }
            if self.run_remaining == 0 {
                let ghost before = *self;
                self.next_extent();
                proof {
                    if tracked_ok {
                        cuts = lemma_skip_extent(before, *self, cuts, img);
                    }
                }
                continue;
            }
            proof { lemma_lens_from_nonneg(self.runs@, self.run_index + 1); }
            let read_size = if self.run_remaining < self.buffer_size { self.run_remaining } else { self.buffer_size };
            let mut buffer: Vec<u8> = vec![0u8; read_size as usize];
            let ghost idx = self.run_index as int;
            let ghost start = self.run_offset as int;
            let got = match reader.read_offset(self.run_offset, read_size, buffer.as_mut_slice()) {
                Ok(n) => n,
                Err(e) => {
                    proof {
                        if tracked_ok {
                            self.lemma_copy_state_stream(cuts, img);
                        }
                    }
                    return Err(e);
                },
            };
            let mut n: usize = if got < buffer.len() { got } else { buffer.len() };
            if n > read_size as usize {
                n = read_size as usize;
            }
            if n == 0 {
                let ghost before = *self;
                self.next_extent();
                proof {
                    if tracked_ok {
                        cuts = lemma_skip_extent(before, *self, cuts, img);
                    }
                }
                continue;
            }
            buffer.truncate(n);
            proof {
                assert(buffer@ =~= image_window(old(reader).image(), start, n as int));
            }
            let ghost consumed0 = self.digests.consumed();
            let ghost cuts0 = cuts;
            self.digests.consume(buffer.as_slice());
            proof {
                if tracked_ok {
                    cuts = cuts0.update(idx, cuts0[idx] + n);
                    assert(cuts.drop_last() =~= cuts0.drop_last());
                    lemma_image_window_split(img, self.runs@[idx].0 as int, cuts0[idx], n as int);
                    assert(extent_bytes(self.runs@, cuts, img) == extent_bytes(self.runs@, cuts0.drop_last(), img)
                        + image_window(img, self.runs@[idx].0 as int, cuts0[idx] + n));
                    assert(self.digests.consumed() =~= extent_bytes(self.runs@, cuts, img));
                }
            }
            let n64 = n as u64;
            self.total_written = self.total_written + n64;
            self.run_remaining = self.run_remaining - n64;
            self.run_offset = self.run_offset + n64;
            self.planned_left = self.planned_left - n64;
            if self.total_written >= self.limit {
                self.run_index = self.runs.len();
            }
            proof {
                assert(self.runs@[idx].0 <= start && start + n <= self.runs@[idx].0 + self.runs@[idx].1);
                assert(old(self).extents()[idx] == self.runs@[idx]);
                assert(self.read_position() - n == start);
                assert(old(self).extents()[idx].0 <= self.read_position() - buffer@.len());
                if tracked_ok {
                    assert forall|i: int| 0 <= i < cuts.len() implies 0 <= #[trigger] cuts[i] <= self.runs@[i].1 by {
                        if i != idx {
                            assert(cuts[i] == cuts0[i]);
                        }
                    }
                    assert forall|i: int| 0 <= i < cuts.len() - 1 implies cut_at_end(self.runs@[i], #[trigger] cuts[i], img) by {
                        assert(cuts[i] == cuts0[i]);
                    }
                    assert(self.copy_state(cuts, img));
                    self.lemma_copy_state_stream(cuts, img);
                }
            }
            return Ok(Some(buffer));
        }
    }

    /// The digests of what was copied (see [`Digests::finish`]).
    pub fn finish(self) -> (r: (Option<String>, Option<String>))
        requires
            self.wf(),
        ensures
            self.hashing() ==> (r.0 matches Some(m) && m@ == hex_lower(md5_digest(self.copied())))
                && (r.1 matches Some(h) && h@ == hex_lower(sha256_digest(self.copied()))),
            !self.hashing() ==> r.0 is None && r.1 is None,
    {
        self.digests.finish()
    }

    /// A copy of the `size` bytes at `offset`, in blocks of [`MAX_BLOCK`]
    /// bytes.
    pub fn for_range(offset: u64, size: u64, calculate_hashes: bool) -> (job: Self)
        requires
            offset + size <= u64::MAX,
        ensures
            job.wf(),
            job.extents() == seq![(offset, size)],
            job.block_size() == MAX_BLOCK,
            job.byte_limit() == size,
            job.hashing() == calculate_hashes,
            job.copied() == Seq::<u8>::empty(),
            job.planned() == size,
            forall|img: Seq<u8>| #[trigger] job.copied_from_image(img),
    {
        let mut runs: Vec<(u64, u64)> = Vec::new();
        runs.push((offset, size));
        proof {
            assert(lens_from(runs@, 1) == 0);
            assert(lens_from(runs@, 0) == size);
        }
        let job = CopyJob {
            runs,
            run_index: 0,
            run_offset: offset,
            run_remaining: size,
            planned_left: size,
            total_written: 0,
            limit: size,
            buffer_size: MAX_BLOCK,
            digests: Digests::new(calculate_hashes),
            plan_total: Ghost(size as int),
        };
        proof {
            assert forall|img: Seq<u8>| #[trigger] job.copied_from_image(img) by {
                let cuts = seq![0int];
                assert(cuts.drop_last() =~= Seq::<int>::empty());
                    assert(image_window(img, job.runs@[0].0 as int, 0) =~= Seq::<u8>::empty());
                    assert(extent_bytes(job.runs@, cuts.drop_last(), img) == Seq::<u8>::empty());
                    assert(cuts.last() == 0);
                    assert(extent_bytes(job.runs@, cuts, img) =~= Seq::<u8>::empty());
                assert(job.copy_state(cuts, img));
            }
        }
        job
    }
}

/// Moving past an extent that was read whole or up to the image's end
/// keeps the copy state: the next extent starts with nothing read.
proof fn lemma_skip_extent(before: CopyJob, after: CopyJob, cuts: Seq<int>, img: Seq<u8>) -> (next: Seq<int>)
    requires
        before.wf(),
        before.copy_state(cuts, img),
        before.run_index < before.runs@.len(),
        before.run_remaining == 0 || before.run_offset >= img.len(),
        after.runs == before.runs,
        after.digests == before.digests,
        after.total_written == before.total_written,
        after.limit == before.limit,
        after.run_index == before.run_index + 1,
        after.run_index < after.runs@.len() ==> after.run_offset == after.runs@[after.run_index as int].0,
    ensures
        after.copy_state(next, img),
{
    let idx = before.run_index as int;
    let runs = before.runs@;
    assert(cut_at_end(runs[idx], cuts[idx], img));
    if after.run_index < after.runs@.len() {
        let next = cuts.push(0);
        assert(next.drop_last() =~= cuts);
        assert(image_window(img, runs[idx + 1].0 as int, 0) =~= Seq::<u8>::empty());
        assert(extent_bytes(runs, next, img) =~= extent_bytes(runs, cuts, img));
        assert forall|i: int| 0 <= i < next.len() implies 0 <= #[trigger] next[i] <= runs[i].1 by {
            if i < cuts.len() {
                assert(next[i] == cuts[i]);
            }
        }
        assert forall|i: int| 0 <= i < next.len() - 1 implies cut_at_end(runs[i], #[trigger] next[i], img) by {
            assert(next[i] == cuts[i]);
        }
        next
    } else {
        cuts
    }
}

/// Bytes of extents are never negative.
proof fn lemma_lens_from_nonneg(runs: Seq<(u64, u64)>, i: int)
    ensures
        lens_from(runs, i) >= 0,
    decreases runs.len() - i,
{
    if 0 <= i < runs.len() {
        lemma_lens_from_nonneg(runs, i + 1);
    }
}

/// Adding an extent at the end adds its length to every suffix that
/// reaches it.
proof fn lemma_lens_from_push(runs: Seq<(u64, u64)>, x: (u64, u64), i: int)
    requires
        0 <= i <= runs.len(),
    ensures
        lens_from(runs.push(x), i) == lens_from(runs, i) + x.1,
    decreases runs.len() - i,
{
    if i < runs.len() {
        lemma_lens_from_push(runs, x, i + 1);
        assert(runs.push(x)[i] == runs[i]);
    } else {
        assert(runs.push(x)[i] == x);
        assert(lens_from(runs.push(x), i + 1) == 0);
    }
}

/// Bytes of the runs of `runs` with clusters of `cluster_size` bytes.
pub open spec fn run_bytes_total(runs: Seq<DataRun>, cluster_size: int) -> int
    decreases runs.len(),
{
    if runs.len() == 0 {
        0
    } else {
        run_bytes_total(runs.drop_last(), cluster_size) + runs.last().cluster_count * cluster_size
    }
}

/// Every run of `runs` ends within 64-bit byte positions, and so do their
/// sizes added up.
pub open spec fn chain_fits(runs: Seq<DataRun>, cluster_size: int, partition_offset: int) -> bool {
    &&& forall|i: int| 0 <= i < runs.len() ==>
        partition_offset + (#[trigger] runs[i]).start_cluster * cluster_size + runs[i].cluster_count * cluster_size <= u64::MAX
    &&& run_bytes_total(runs, cluster_size) <= u64::MAX
}

/// Sums of nonnegative sizes grow with the prefix.
proof fn lemma_run_bytes_total_prefix(runs: Seq<DataRun>, cluster_size: int, i: int)
    requires
        cluster_size >= 0,
        0 <= i <= runs.len(),
    ensures
        run_bytes_total(runs.take(i), cluster_size) <= run_bytes_total(runs, cluster_size),
    decreases runs.len() - i,
{
    if i < runs.len() {
        lemma_run_bytes_total_prefix(runs, cluster_size, i + 1);
        assert(runs.take(i + 1).drop_last() =~= runs.take(i));
        assert(runs.take(i + 1).last().cluster_count * cluster_size >= 0) by (nonlinear_arith)
            requires cluster_size >= 0;
    } else {
        assert(runs.take(i) =~= runs);
    }
}

impl CopyJob {
    /// A copy of the clusters of `runs` (clusters of `cluster_size` bytes,
    /// numbered from `partition_offset`), in blocks of `cluster_size * 1024`
    /// bytes, at least 4096 and at most [`MAX_BLOCK`]; it stops once
    /// `total_bytes` bytes are copied. Fails where an extent or the total does
    /// not fit in 64 bits.
    pub fn for_chain(runs: &Vec<DataRun>, total_bytes: u64, cluster_size: u64, partition_offset: u64, calculate_hashes: bool) -> (res: Result<Self, FsError>)
        ensures
            res is Err <==> !chain_fits(runs@, cluster_size as int, partition_offset as int),
            res matches Err(e) ==> e is OffsetOverflow,
            res matches Ok(job) ==> {
                &&& job.wf()
                &&& job.extents().len() == runs@.len()
                &&& forall|i: int| 0 <= i < runs@.len() ==> (#[trigger] job.extents()[i]).0
                    == partition_offset + runs@[i].start_cluster * cluster_size
                    && job.extents()[i].1 == runs@[i].cluster_count * cluster_size
                &&& job.block_size() == (if cluster_size * 1024 < MAX_BLOCK {
                    if cluster_size * 1024 > 4096 { cluster_size * 1024 } else { 4096 }
                } else {
                    MAX_BLOCK as int
                })
                &&& job.byte_limit() == total_bytes
                &&& job.hashing() == calculate_hashes
                &&& job.copied() == Seq::<u8>::empty()
                &&& job.planned() == run_bytes_total(runs@, cluster_size as int)
                &&& forall|img: Seq<u8>| #[trigger] job.copied_from_image(img)
            },
    {
        let mut extents: Vec<(u64, u64)> = Vec::new();
        let mut total: u64 = 0;
        let mut i: usize = 0;
        while i < runs.len()
            invariant
                i <= runs@.len(),
                extents@.len() == i,
                forall|k: int| 0 <= k < i ==> (#[trigger] extents@[k]).0 == partition_offset + runs@[k].start_cluster * cluster_size
                    && extents@[k].1 == runs@[k].cluster_count * cluster_size,
                forall|k: int| 0 <= k < i ==> (#[trigger] extents@[k]).0 + extents@[k].1 <= u64::MAX,
                forall|k: int| 0 <= k < i ==>
                    partition_offset + (#[trigger] runs@[k]).start_cluster * cluster_size + runs@[k].cluster_count * cluster_size <= u64::MAX,
                total == lens_from(extents@, 0),
                total == run_bytes_total(runs@.take(i as int), cluster_size as int),
            decreases runs@.len() - i,
        {
            let r = runs[i];
            proof {
                assert(runs@.take(i + 1).drop_last() =~= runs@.take(i as int));
                assert(runs@.take(i + 1).last() == r);
                assert(r.start_cluster * cluster_size >= 0 && r.cluster_count * cluster_size >= 0) by (nonlinear_arith);
            }
            let start = match r.start_cluster.checked_mul(cluster_size) {
                Some(v) => match partition_offset.checked_add(v) {
                    Some(w) => w,
                    None => return Err(FsError::OffsetOverflow),
                },
                None => return Err(FsError::OffsetOverflow),
            };
            let len = match r.cluster_count.checked_mul(cluster_size) {
                Some(v) => v,
                None => return Err(FsError::OffsetOverflow),
            };
            if start.checked_add(len).is_none() {
                return Err(FsError::OffsetOverflow);
            }
            let new_total = match total.checked_add(len) {
                Some(t) => t,
                None => {
                    proof { lemma_run_bytes_total_prefix(runs@, cluster_size as int, i + 1); }
                    return Err(FsError::OffsetOverflow);
                },
            };
            proof { lemma_lens_from_push(extents@, (start, len), 0); }
            extents.push((start, len));
            total = new_total;
            i = i + 1;
        }
        proof {
            assert(runs@.take(i as int) =~= runs@);
        }
        let scaled = if cluster_size <= 16384 { cluster_size * 1024 } else { MAX_BLOCK };
        let capped = if scaled < MAX_BLOCK { scaled } else { MAX_BLOCK };
        let buffer_size = if capped > 4096 { capped } else { 4096 };
        let count = extents.len();
        let (run_offset, run_remaining) = if count > 0 { extents[0] } else { (0, 0) };
        proof {
            if count > 0 {
                lemma_lens_from_nonneg(extents@, 1);
            }
        }
        let job = CopyJob {
            runs: extents,
            run_index: 0,
            run_offset,
            run_remaining,
            planned_left: total,
            total_written: 0,
            limit: total_bytes,
            buffer_size,
            digests: Digests::new(calculate_hashes),
            plan_total: Ghost(total as int),
        };
        proof {
            assert forall|img: Seq<u8>| #[trigger] job.copied_from_image(img) by {
                if count > 0 {
                    let cuts = seq![0int];
                    assert(cuts.drop_last() =~= Seq::<int>::empty());
                    assert(image_window(img, job.runs@[0].0 as int, 0) =~= Seq::<u8>::empty());
                    assert(extent_bytes(job.runs@, cuts.drop_last(), img) == Seq::<u8>::empty());
                    assert(cuts.last() == 0);
                    assert(extent_bytes(job.runs@, cuts, img) =~= Seq::<u8>::empty());
                    assert(job.copy_state(cuts, img));
                } else {
                    let cuts = Seq::<int>::empty();
                    assert(job.copy_state(cuts, img));
                }
            }
        }
        Ok(job)
    }
}

} // verus!
