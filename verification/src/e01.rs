//! EnCase evidence files: where the chunks of the imaged disk lie in the
//! file, and reading the disk's logical bytes back from them.

use vstd::prelude::*;
use vstd::string::StringExecFns;

use crate::binary::{le32, le64, read_u32_le, read_u64_le};
use crate::disk_reader::{image_byte, image_window, DiskImageReader, DiskInfo, DiskReaderError, ImageFormat, SECTOR_SIZE};

verus! {

/// A chunk of the imaged disk stored in the evidence file: `size` logical
/// bytes from `offset`, stored (compressed or not) at `data_offset`.
#[derive(Debug, Clone, Copy)]
pub struct E01Chunk {
    pub offset: u64,
    pub size: u32,
    pub is_compressed: bool,
    pub data_offset: u64,
}

/// The chunks cover the disk from 0 on, each starting where the one before
/// ends, within 64-bit offsets.
pub open spec fn chunks_contiguous(c: Seq<E01Chunk>) -> bool {
    &&& c.len() > 0 ==> c[0].offset == 0
    &&& forall|k: int| 0 <= k < c.len() - 1 ==> (#[trigger] c[k + 1]).offset == c[k].offset + c[k].size
    &&& forall|k: int| 0 <= k < c.len() ==> (#[trigger] c[k]).offset + c[k].size <= u64::MAX
}

/// Where the chunks end: the logical size of the disk.
pub open spec fn chunks_end(c: Seq<E01Chunk>) -> int {
    if c.len() == 0 { 0 } else { c.last().offset + c.last().size }
}

/// The signature an evidence file starts with.
pub open spec fn evf_signature() -> Seq<u8> {
    seq![0x45u8, 0x56u8, 0x46u8, 0x09u8, 0x0du8]
}

/// The stored size, logical size and compression flag of a section chunk
/// header (the 40 bytes after a 16-byte section header).
pub open spec fn section_chunk_fields(h: Seq<u8>) -> (int, int, bool) {
    (le32(h, 0), le32(h, 8), le32(h, 12) % 2 == 1)
}

/// The size and compression flag in the 16-byte header after a fallback
/// chunk marker: the low 31 bits of its first 32-bit field, and its top bit.
pub open spec fn fallback_chunk_fields(h: Seq<u8>) -> (int, bool) {
    (le32(h, 0) % 0x8000_0000, le32(h, 0) >= 0x8000_0000)
}

/// The chunk of `size` logical bytes stored (compressed or not) at
/// `data_offset` that follows the chunks `c`.
pub open spec fn next_chunk(c: Seq<E01Chunk>, size: u32, is_compressed: bool, data_offset: u64) -> E01Chunk {
    E01Chunk { offset: chunks_end(c) as u64, size, is_compressed, data_offset }
}

/// A read of `len` bytes at `pos` of the file `img` may come back short: only
/// where the file ends before `pos + len`.
pub open spec fn may_read_short(img: Seq<u8>, pos: int, len: int) -> bool {
    pos + len > img.len()
}

/// The walk over the sections of the evidence file `img` of `file_size`
/// bytes, at the section at `current` with the chunks `chunks` found so far,
/// can end with the chunks `out` (see [`E01Reader::parse_e01_structure`]).
/// A read that the file's end cuts short ends the walk; it is allowed
/// wherever the file ends inside the bytes read.
pub open spec fn section_walk(img: Seq<u8>, file_size: u64, current: u64, chunks: Seq<E01Chunk>, out: Seq<E01Chunk>) -> bool
    decreases (if current < file_size { file_size - current } else { 0 }),
{
    if current >= file_size {
        out == chunks
    } else {
        let section = image_window(img, current as int, 16);
        let kind = section[0];
        let body = current + 16;
        (may_read_short(img, current as int, 16) && out == chunks)
        || if body > u64::MAX {
            out == chunks
        } else if kind == 0x53 || kind == 0x73 {
            let h = image_window(img, body, 40);
            let (data_size, logical_size, is_compressed) = section_chunk_fields(h);
            let data_offset = current + 56;
            if data_offset > u64::MAX {
                out == chunks
            } else {
                let chunks1 = if logical_size > 0 {
                    chunks.push(next_chunk(chunks, logical_size as u32, is_compressed, data_offset as u64))
                } else {
                    chunks
                };
                let next = data_offset + if is_compressed { data_size } else { logical_size };
                if logical_size > 0 && chunks_end(chunks) + logical_size > u64::MAX {
                    false
                } else if next > u64::MAX {
                    out == chunks1
                } else {
                    section_walk(img, file_size, next as u64, chunks1, out)
                }
            }
        } else if kind == 0x44 {
            out == chunks
        } else {
            (may_read_short(img, body, 8) && out == chunks)
            || {
                let next = le64(image_window(img, body, 8), 0);
                if next > current && next < file_size {
                    section_walk(img, file_size, next as u64, chunks, out)
                } else {
                    out == chunks
                }
            }
        }
    }
}

/// After an `S` section at `current` holding a compressed chunk, the walk
/// over the sections goes on at the section's start plus 56 plus the
/// chunk's stored size (the field at 0 of its chunk header), with a chunk of
/// the header's logical size (its field at 8) added after the chunks found
/// so far.
pub proof fn lemma_section_walk_compressed_step(img: Seq<u8>, file_size: u64, current: u64, chunks: Seq<E01Chunk>, out: Seq<E01Chunk>)
    requires
        current < file_size,
        image_byte(img, current as int) == 0x53,
        le32(image_window(img, current + 16, 40), 12) % 2 == 1,
        le32(image_window(img, current + 16, 40), 8) > 0,
        chunks_end(chunks) + le32(image_window(img, current + 16, 40), 8) <= u64::MAX,
        current + 56 + le32(image_window(img, current + 16, 40), 0) <= u64::MAX,
        section_walk(img, file_size, (current + 56 + le32(image_window(img, current + 16, 40), 0)) as u64,
            chunks.push(E01Chunk {
                offset: chunks_end(chunks) as u64,
                size: le32(image_window(img, current + 16, 40), 8) as u32,
                is_compressed: true,
                data_offset: (current + 56) as u64,
            }), out),
    ensures
        section_walk(img, file_size, current, chunks, out),
{
    assert(image_window(img, current as int, 16)[0] == image_byte(img, current as int));
}

/// After an `S` section at `current` holding an uncompressed chunk, the walk
/// over the sections goes on at the section's start plus 56 plus the
/// chunk's logical size (the field at 8 of its chunk header), with a chunk
/// of that size added after the chunks found so far.
pub proof fn lemma_section_walk_plain_step(img: Seq<u8>, file_size: u64, current: u64, chunks: Seq<E01Chunk>, out: Seq<E01Chunk>)
    requires
        current < file_size,
        image_byte(img, current as int) == 0x53,
        le32(image_window(img, current + 16, 40), 12) % 2 == 0,
        le32(image_window(img, current + 16, 40), 8) > 0,
        chunks_end(chunks) + le32(image_window(img, current + 16, 40), 8) <= u64::MAX,
        current + 56 + le32(image_window(img, current + 16, 40), 8) <= u64::MAX,
        section_walk(img, file_size, (current + 56 + le32(image_window(img, current + 16, 40), 8)) as u64,
            chunks.push(E01Chunk {
                offset: chunks_end(chunks) as u64,
                size: le32(image_window(img, current + 16, 40), 8) as u32,
                is_compressed: false,
                data_offset: (current + 56) as u64,
            }), out),
    ensures
        section_walk(img, file_size, current, chunks, out),
{
    assert(image_window(img, current as int, 16)[0] == image_byte(img, current as int));
}

/// The scan for chunk markers of [`E01Reader::parse_e01_fallback`] over the
/// evidence file `img`, below `bound`, at `current` with the chunks `chunks`
/// found so far, can end with the chunks `out`. A read that the file's end
/// cuts short ends the scan.
pub open spec fn marker_scan(img: Seq<u8>, bound: u64, current: u64, chunks: Seq<E01Chunk>, out: Seq<E01Chunk>) -> bool
    decreases (if current < bound { bound - current } else { 0 }),
{
    if current >= bound {
        out == chunks
    } else {
        let m = image_window(img, current as int, 4);
        let skip = current + 512;
        let skipped = if skip > u64::MAX { out == chunks } else { marker_scan(img, bound, skip as u64, chunks, out) };
        (may_read_short(img, current as int, 4) && out == chunks)
        || if m[1] == 0 && m[2] == 0 && m[3] == 0 && (m[0] == 1 || m[0] == 0) {
            (may_read_short(img, current + 4, 16) && out == chunks)
            || {
                let (actual, is_compressed) = fallback_chunk_fields(image_window(img, current + 4, 16));
                if 0 < actual < 100 * 1024 * 1024 {
                    let chunks1 = chunks.push(next_chunk(chunks, actual as u32, is_compressed, (current + 16) as u64));
                    let next = current + 16 + actual;
                    if chunks_end(chunks) + actual > u64::MAX {
                        false
                    } else if next > u64::MAX {
                        out == chunks1
                    } else {
                        marker_scan(img, bound, next as u64, chunks1, out)
                    }
                } else {
                    skipped
                }
            }
        } else {
            skipped
        }
    }
}

/// A section at `current` other than `S`, `s` or `D` names the next one in
/// the 8 bytes after its 16-byte header; the walk follows it when it lies
/// ahead and inside the file.
pub proof fn lemma_section_walk_link_step(img: Seq<u8>, file_size: u64, current: u64, chunks: Seq<E01Chunk>, out: Seq<E01Chunk>)
    requires
        current < file_size,
        image_byte(img, current as int) != 0x53,
        image_byte(img, current as int) != 0x73,
        image_byte(img, current as int) != 0x44,
        current < le64(image_window(img, current + 16, 8), 0) < file_size,
        section_walk(img, file_size, le64(image_window(img, current + 16, 8), 0) as u64, chunks, out),
    ensures
        section_walk(img, file_size, current, chunks, out),
{
    assert(image_window(img, current as int, 16)[0] == image_byte(img, current as int));
}

/// A `D` section ends the walk over the sections: nothing after it is read.
pub proof fn lemma_section_walk_done(img: Seq<u8>, file_size: u64, current: u64, chunks: Seq<E01Chunk>, out: Seq<E01Chunk>)
    requires
        current < file_size,
        image_byte(img, current as int) == 0x44,
    ensures
        section_walk(img, file_size, current, chunks, chunks),
        section_walk(img, file_size, current, chunks, out) ==> out == chunks,
{
    assert(image_window(img, current as int, 16)[0] == image_byte(img, current as int));
}

/// Where the scan for chunk markers finds a marker at `current` (`01 00 00
/// 00` or `00 00 00 00`) followed by a 32-bit field whose low 31 bits give a
/// size below 100 MiB, it adds a chunk of that size stored 16 bytes after
/// the marker (compressed when the field's top bit is set) and goes on right
/// after that chunk's data.
pub proof fn lemma_marker_scan_chunk_step(img: Seq<u8>, bound: u64, current: u64, chunks: Seq<E01Chunk>, out: Seq<E01Chunk>)
    requires
        current < bound <= u64::MAX - 16,
        image_byte(img, current as int) <= 1,
        image_byte(img, current + 1) == 0,
        image_byte(img, current + 2) == 0,
        image_byte(img, current + 3) == 0,
        0 < le32(image_window(img, current + 4, 16), 0) % 0x8000_0000 < 100 * 1024 * 1024,
        chunks_end(chunks) + le32(image_window(img, current + 4, 16), 0) % 0x8000_0000 <= u64::MAX,
        current + 16 + le32(image_window(img, current + 4, 16), 0) % 0x8000_0000 <= u64::MAX,
        marker_scan(img, bound, (current + 16 + le32(image_window(img, current + 4, 16), 0) % 0x8000_0000) as u64,
            chunks.push(E01Chunk {
                offset: chunks_end(chunks) as u64,
                size: (le32(image_window(img, current + 4, 16), 0) % 0x8000_0000) as u32,
                is_compressed: le32(image_window(img, current + 4, 16), 0) >= 0x8000_0000,
                data_offset: (current + 16) as u64,
            }), out),
    ensures
        marker_scan(img, bound, current, chunks, out),
{
    let m = image_window(img, current as int, 4);
    assert(m[0] == image_byte(img, current as int) && m[1] == image_byte(img, current + 1));
    assert(m[2] == image_byte(img, current + 2) && m[3] == image_byte(img, current + 3));
}

/// Where the scan for chunk markers finds no marker at `current`, it goes
/// on 512 bytes further.
pub proof fn lemma_marker_scan_skip_step(img: Seq<u8>, bound: u64, current: u64, chunks: Seq<E01Chunk>, out: Seq<E01Chunk>)
    requires
        current < bound <= u64::MAX - 16,
        image_byte(img, current as int) > 1 || image_byte(img, current + 1) != 0
            || image_byte(img, current + 2) != 0 || image_byte(img, current + 3) != 0,
        current + 512 <= u64::MAX,
        marker_scan(img, bound, (current + 512) as u64, chunks, out),
    ensures
        marker_scan(img, bound, current, chunks, out),
{
    let m = image_window(img, current as int, 4);
    assert(m[0] == image_byte(img, current as int) && m[1] == image_byte(img, current + 1));
    assert(m[2] == image_byte(img, current + 2) && m[3] == image_byte(img, current + 3));
}

/// The chunks that the fallback scan of the evidence file `img` of
/// `file_size` bytes gives: those the marker scan from byte 1024 finds, or,
/// when it finds none, the whole file from byte 4096 as one chunk (its size
/// taken modulo `2^32`), which a file shorter than 4096 bytes cannot give.
pub open spec fn fallback_chunks(img: Seq<u8>, file_size: u64, out: Seq<E01Chunk>) -> bool {
    let bound = if file_size >= 16 { file_size - 16 } else { 0 };
    (out.len() > 0 && marker_scan(img, bound as u64, 1024, Seq::empty(), out))
    || (marker_scan(img, bound as u64, 1024, Seq::empty(), Seq::empty()) && file_size >= 4096
        && out == seq![E01Chunk { offset: 0, size: ((file_size - 4096) % 0x1_0000_0000) as u32, is_compressed: false, data_offset: 4096 }])
}

/// The chunks that the evidence file `img` of `file_size` bytes lists: it
/// starts with the evidence signature, and the chunks are those its sections
/// give, or, where they give none, those of the fallback scan.
pub open spec fn evidence_chunks(img: Seq<u8>, file_size: u64, out: Seq<E01Chunk>) -> bool {
    &&& image_window(img, 0, 5) == evf_signature()
    &&& (out.len() > 0 && section_walk(img, file_size, 0, Seq::empty(), out))
        || (section_walk(img, file_size, 0, Seq::empty(), Seq::empty()) && fallback_chunks(img, file_size, out))
}

/// Decodes a section chunk header (see [`section_chunk_fields`]).
pub fn decode_chunk_header(h: &[u8]) -> (r: (u32, u32, bool))
    requires
        h@.len() >= 16,
    ensures
        (r.0 as int, r.1 as int, r.2) == section_chunk_fields(h@),
{
    let data_size = read_u32_le(h, 0);
    let logical_size = read_u32_le(h, 8);
    let flags = read_u32_le(h, 12);
    (data_size, logical_size, flags % 2 == 1)
}

/// Decodes the header after a fallback chunk marker (see
/// [`fallback_chunk_fields`]).
pub fn decode_fallback_header(h: &[u8]) -> (r: (u32, bool))
    requires
        h@.len() >= 4,
    ensures
        (r.0 as int, r.1) == fallback_chunk_fields(h@),
{
    let data_size = read_u32_le(h, 0);
    let is_compressed = data_size >= 0x8000_0000;
    let actual = if is_compressed { data_size - 0x8000_0000 } else { data_size };
    (actual, is_compressed)
}

/// Calls `flate2::read::ZlibDecoder` over `data` and reads it to the end:
/// the inflated bytes, or an error where `data` is not a zlib stream.
#[verifier::external_body]
fn zlib_decompress(data: &[u8]) -> (r: Result<Vec<u8>, DiskReaderError>)
    ensures
        r matches Ok(v) ==> zlib_inflate(data@) == Some(v@),
        r is Err ==> zlib_inflate(data@) is None,
{
    let mut decoder = flate2::read::ZlibDecoder::new(data);
    let mut buffer = Vec::new();
    match std::io::Read::read_to_end(&mut decoder, &mut buffer) {
        Ok(_) => Ok(buffer),
        Err(e) => Err(DiskReaderError::E01Error(format!("Zlib 解压失败: {}", e))),
    }
}

/// What inflating the zlib stream `data` gives (`None` where it is not one).
pub uninterp spec fn zlib_inflate(data: Seq<u8>) -> Option<Seq<u8>>;

/// Builds `std::io::Error::from(ErrorKind::UnexpectedEof)`, the error
/// `read_exact` reports when the file ends first, as a read error.
#[verifier::external_body]
fn unexpected_eof() -> (e: DiskReaderError)
    ensures
        e is IoError,
{
    DiskReaderError::IoError(std::io::Error::from(std::io::ErrorKind::UnexpectedEof))
}

/// Reads up to `len` bytes at `offset`: the bytes read, which are those of
/// the image there; fewer than `len` only where the image ends.
fn read_at<S: DiskImageReader>(source: &mut S, offset: u64, len: usize) -> (r: Result<Vec<u8>, DiskReaderError>)
    ensures
        final(source).image() == old(source).image(),
        r matches Ok(v) ==> {
            &&& v@.len() <= len
            &&& v@ == image_window(old(source).image(), offset as int, v@.len() as int)
            &&& (v@.len() == len || offset + v@.len() >= old(source).image().len())
        },
{
    let mut buffer: Vec<u8> = vec![0u8; len];
    let ghost before = buffer@;
    let got = match source.read_offset(offset, len as u64, buffer.as_mut_slice()) {
        Ok(n) => n,
        Err(e) => return Err(e),
    };
    let mut n: usize = if got < buffer.len() { got } else { buffer.len() };
    if n > len {
        n = len;
    }
    buffer.truncate(n);
    proof {
        assert(buffer@ =~= image_window(old(source).image(), offset as int, n as int));
    }
    Ok(buffer)
}

/// Reads exactly `len` bytes at `offset`, failing where fewer are there:
/// the image's bytes there.
fn read_exact_at<S: DiskImageReader>(source: &mut S, offset: u64, len: usize) -> (r: Result<Vec<u8>, DiskReaderError>)
    ensures
        final(source).image() == old(source).image(),
        r matches Ok(v) ==> v@ == image_window(old(source).image(), offset as int, len as int),
{
    let v = match read_at(source, offset, len) {
        Ok(v) => v,
        Err(e) => return Err(e),
    };
    if v.len() < len {
        return Err(unexpected_eof());
    }
    Ok(v)
}

/// Whether `h` is the evidence-file signature.
fn is_evf_signature(h: &[u8]) -> (r: bool)
    ensures
        r == (h@ == evf_signature()),
{
    if h.len() != 5 {
        return false;
    }
    let r = h[0] == 0x45 && h[1] == 0x56 && h[2] == 0x46 && h[3] == 0x09 && h[4] == 0x0d;
    proof {
        if r {
            assert(h@ =~= evf_signature());
        }
    }
    r
}

/// Appends the chunk of `size` bytes after the chunks of `chunks`, at
/// `logical`; returns where it ends, or `None` when that passes 64 bits.
fn push_chunk(chunks: &mut Vec<E01Chunk>, logical: u64, size: u32, is_compressed: bool, data_offset: u64) -> (r: Option<u64>)
    requires
        chunks_contiguous(old(chunks)@),
        logical == chunks_end(old(chunks)@),
    ensures
        r matches Some(end) ==> {
            &&& final(chunks)@ == old(chunks)@.push(E01Chunk { offset: logical, size, is_compressed, data_offset })
            &&& chunks_contiguous(final(chunks)@)
            &&& end == chunks_end(final(chunks)@)
            &&& end == logical + size
        },
        r is None ==> final(chunks)@ == old(chunks)@ && logical + size > u64::MAX,
{
    let end = match logical.checked_add(size as u64) {
        Some(e) => e,
        None => return None,
    };
    let ghost before = chunks@;
    chunks.push(E01Chunk { offset: logical, size, is_compressed, data_offset });
    proof {
        assert forall|k: int| 0 <= k < chunks@.len() - 1 implies (#[trigger] chunks@[k + 1]).offset == chunks@[k].offset + chunks@[k].size by {
            if k < before.len() - 1 {
                assert(chunks@[k + 1] == before[k + 1] && chunks@[k] == before[k]);
            } else {
                assert(chunks@[k] == before.last());
            }
        }
        assert forall|k: int| 0 <= k < chunks@.len() implies (#[trigger] chunks@[k]).offset + chunks@[k].size <= u64::MAX by {
            if k < before.len() {
                assert(chunks@[k] == before[k]);
            }
        }
    }
    Some(end)
}

/// Where the chunks of a disk lie in its evidence file, and what is known of
/// the disk.
pub struct E01Layout {
    info: DiskInfo,
    chunks: Vec<E01Chunk>,
}

impl E01Layout {
    #[verifier::type_invariant]
    spec fn inv(&self) -> bool {
        &&& chunks_contiguous(self.chunks@)
        &&& self.info.total_size == chunks_end(self.chunks@)
    }
}

/// A disk image stored in an evidence file, read through `source`, which
/// gives the bytes of the file itself.
pub struct E01Reader<S> {
    source: S,
    layout: E01Layout,
}

impl<S> E01Reader<S> {
    /// The chunks of the disk, in logical order.
    pub closed spec fn chunk_list(&self) -> Seq<E01Chunk> {
        self.layout.chunks@
    }

    /// Metadata of the disk.
    pub closed spec fn disk_info(&self) -> DiskInfo {
        self.layout.info
    }
}

impl<S: DiskImageReader> E01Reader<S> {
    /// The bytes of the evidence file, as the source reads them.
    pub closed spec fn file_image(&self) -> Seq<u8> {
        self.source.image()
    }

    /// The chunks listed by the sections of the evidence file of
    /// `file_size` bytes that `source` reads. The file must start with the
    /// evidence signature. From offset 0, each 16-byte section header is
    /// read (a short read ends the walk): an `S`/`s` section holds a 40-byte
    /// chunk header (logical size at 8, stored size at 0, flags at 12, bit 0
    /// for compression) and its data 56 bytes after the section start; the
    /// next section follows the stored data (the logical size when
    /// uncompressed); a `D` section ends the walk; any other section names
    /// the next one in the 8 bytes after its header, followed when it lies
    /// ahead and inside the file. Chunks of logical size 0 are skipped. When
    /// no chunk is found, [`E01Reader::parse_e01_fallback`] scans the file.
    pub fn parse_e01_structure(source: &mut S, file_size: u64) -> (res: Result<Vec<E01Chunk>, DiskReaderError>)
        ensures
            final(source).image() == old(source).image(),
            res matches Ok(c) ==> chunks_contiguous(c@) && c@.len() > 0,
            image_window(old(source).image(), 0, 5) != evf_signature() ==> res is Err,
            res matches Ok(c) ==> evidence_chunks(old(source).image(), file_size, c@),
    {
        let ghost img = source.image();
        let header = match read_exact_at(source, 0, 5) {
            Ok(h) => h,
            Err(e) => return Err(e),
        };
        if !is_evf_signature(header.as_slice()) {
            return Err(DiskReaderError::E01Error(String::from_str("无效的 E01 头部签名")));
        }
        let mut chunks: Vec<E01Chunk> = Vec::new();
        let mut current: u64 = 0;
        let mut logical: u64 = 0;
        while current < file_size
            invariant_except_break
                forall|out: Seq<E01Chunk>| #[trigger] section_walk(img, file_size, current, chunks@, out)
                    ==> section_walk(img, file_size, 0, Seq::empty(), out),
                current >= file_size ==> section_walk(img, file_size, 0, Seq::empty(), chunks@),
            invariant
                chunks_contiguous(chunks@),
                logical == chunks_end(chunks@),
                source.image() == img,
                img == old(source).image(),
            ensures
                section_walk(img, file_size, 0, Seq::empty(), chunks@),
            decreases if current < file_size { file_size - current } else { 0 },
        {
            let section = match read_at(source, current, 16) {
                Ok(v) => v,
                Err(e) => return Err(e),
            };
            if section.len() < 16 {
                proof { assert(section_walk(img, file_size, current, chunks@, chunks@)); }
                break;
            }
            let kind = section[0];
            let body = match current.checked_add(16) {
                Some(b) => b,
                None => {
                    proof { assert(section_walk(img, file_size, current, chunks@, chunks@)); }
                    break;
                }
            };
            if kind == 0x53 || kind == 0x73 {
                let chunk_header = match read_exact_at(source, body, 40) {
                    Ok(v) => v,
                    Err(e) => return Err(e),
                };
                let (data_size, logical_size, is_compressed) = decode_chunk_header(chunk_header.as_slice());
                let data_offset = match current.checked_add(56) {
                    Some(d) => d,
                    None => {
                        proof { assert(section_walk(img, file_size, current, chunks@, chunks@)); }
                        break;
                    }
                };
                let ghost before = chunks@;
                let ghost current0 = current;
                if logical_size > 0 {
                    logical = match push_chunk(&mut chunks, logical, logical_size, is_compressed, data_offset) {
                        Some(end) => end,
                        None => return Err(DiskReaderError::E01Error(String::from_str("E01 逻辑大小超出范围"))),
                    };
                }
                proof {
                    assert(logical_size > 0 ==> chunks@ == before.push(next_chunk(before, logical_size, is_compressed, data_offset)));
                }
                let actual = if is_compressed { data_size } else { logical_size };
                current = match data_offset.checked_add(actual as u64) {
                    Some(next) => next,
                    None => {
                        proof { assert(section_walk(img, file_size, current0, before, chunks@)); }
                        break;
                    }
                };
                proof {
                    assert forall|out: Seq<E01Chunk>| #[trigger] section_walk(img, file_size, current, chunks@, out)
                        implies section_walk(img, file_size, 0, Seq::empty(), out) by {
                        assert(section_walk(img, file_size, current0, before, out));
                    }
                    if current >= file_size {
                        assert(section_walk(img, file_size, current, chunks@, chunks@));
                    }
                }
            } else if kind == 0x44 {
                proof { assert(section_walk(img, file_size, current, chunks@, chunks@)); }
                break;
            } else {
                let next_bytes = match read_at(source, body, 8) {
                    Ok(v) => v,
                    Err(e) => return Err(e),
                };
                if next_bytes.len() == 8 {
                    let next = read_u64_le(next_bytes.as_slice(), 0);
                    if next > current && next < file_size {
                        let ghost current0 = current;
                        current = next;
                        proof {
                            assert forall|out: Seq<E01Chunk>| #[trigger] section_walk(img, file_size, current, chunks@, out)
                                implies section_walk(img, file_size, 0, Seq::empty(), out) by {
                                assert(section_walk(img, file_size, current0, chunks@, out));
                            }
                        }
                        continue;
                    }
                }
                proof { assert(section_walk(img, file_size, current, chunks@, chunks@)); }
                break;
            }
        }
        if chunks.len() == 0 {
            proof { assert(chunks@ =~= Seq::<E01Chunk>::empty()); }
            return E01Reader::<S>::parse_e01_fallback(source, file_size);
        }
        Ok(chunks)
    }

    /// The chunks found by scanning the evidence file of `file_size` bytes
    /// from offset 1024 in steps of 512: where a 4-byte marker `01 00 00 00`
    /// or `00 00 00 00` is followed by a 16-byte header whose first 32 bits
    /// give a size below 100 MiB (bit 31 flags compression), a chunk of that
    /// size lies 16 bytes after the marker, and the scan resumes after it.
    /// When nothing is found, the whole file from byte 4096 is one
    /// uncompressed chunk; a file shorter than 4096 bytes is refused.
    pub fn parse_e01_fallback(source: &mut S, file_size: u64) -> (res: Result<Vec<E01Chunk>, DiskReaderError>)
        ensures
            final(source).image() == old(source).image(),
            res matches Ok(c) ==> chunks_contiguous(c@) && c@.len() > 0,
            res matches Ok(c) ==> fallback_chunks(old(source).image(), file_size, c@),
            file_size <= 1040 ==> (res matches Err(e) && e is E01Error),
    {
        let ghost img = source.image();
        let mut chunks: Vec<E01Chunk> = Vec::new();
        let mut logical: u64 = 0;
        let mut current: u64 = 1024;
        let bound: u64 = if file_size >= 16 { file_size - 16 } else { 0 };
        while current < bound
            invariant_except_break
                forall|out: Seq<E01Chunk>| #[trigger] marker_scan(img, bound, current, chunks@, out)
                    ==> marker_scan(img, bound, 1024, Seq::empty(), out),
                current >= bound ==> marker_scan(img, bound, 1024, Seq::empty(), chunks@),
            invariant
                chunks_contiguous(chunks@),
                logical == chunks_end(chunks@),
                bound <= u64::MAX - 16,
                bound == (if file_size >= 16 { file_size - 16 } else { 0 }),
                current >= 1024,
                file_size <= 1040 ==> chunks@.len() == 0,
                source.image() == img,
                img == old(source).image(),
            ensures
                marker_scan(img, bound, 1024, Seq::empty(), chunks@),
            decreases if current < bound { bound - current } else { 0 },
        {
            let ghost current0 = current;
            let ghost before = chunks@;
            let marker = match read_at(source, current, 4) {
                Ok(v) => v,
                Err(e) => return Err(e),
            };
            if marker.len() < 4 {
                proof { assert(marker_scan(img, bound, current, chunks@, chunks@)); }
                break;
            }
            let is_marker = marker[1] == 0 && marker[2] == 0 && marker[3] == 0 && (marker[0] == 1 || marker[0] == 0);
            if is_marker {
                let header = match read_at(source, current + 4, 16) {
                    Ok(v) => v,
                    Err(e) => return Err(e),
                };
                if header.len() < 16 {
                    proof { assert(marker_scan(img, bound, current, chunks@, chunks@)); }
                    break;
                }
                let (actual, is_compressed) = decode_fallback_header(header.as_slice());
                if actual > 0 && actual < 100 * 1024 * 1024 {
                    logical = match push_chunk(&mut chunks, logical, actual, is_compressed, current + 16) {
                        Some(end) => end,
                        None => return Err(DiskReaderError::E01Error(String::from_str("E01 逻辑大小超出范围"))),
                    };
                    current = match current.checked_add(16 + actual as u64) {
                        Some(next) => next,
                        None => {
                            proof { assert(marker_scan(img, bound, current0, before, chunks@)); }
                            break;
                        }
                    };
                } else {
                    current = match current.checked_add(512) {
                        Some(next) => next,
                        None => {
                            proof { assert(marker_scan(img, bound, current0, before, chunks@)); }
                            break;
                        }
                    };
                }
            } else {
                current = match current.checked_add(512) {
                    Some(next) => next,
                    None => {
                        proof { assert(marker_scan(img, bound, current0, before, chunks@)); }
                        break;
                    }
                };
            }
            proof {
                assert forall|out: Seq<E01Chunk>| #[trigger] marker_scan(img, bound, current, chunks@, out)
                    implies marker_scan(img, bound, 1024, Seq::empty(), out) by {
                    assert(marker_scan(img, bound, current0, before, out));
                }
                if current >= bound {
                    assert(marker_scan(img, bound, current, chunks@, chunks@));
                }
            }
        }
        if chunks.len() == 0 {
            if file_size < 4096 {
                return Err(DiskReaderError::E01Error(String::from_str("E01 文件过小")));
            }
            let size = ((file_size - 4096) % 0x1_0000_0000) as u32;
            let ghost empty = chunks@;
            proof { assert(empty =~= Seq::<E01Chunk>::empty()); }
            let _ = push_chunk(&mut chunks, 0, size, false, 4096);
            proof {
                assert(chunks@ =~= seq![E01Chunk { offset: 0, size: ((file_size - 4096) % 0x1_0000_0000) as u32, is_compressed: false, data_offset: 4096 }]);
            }
        }
        Ok(chunks)
    }
}

/// Every chunk of contiguous chunks ends at or before their end.
proof fn lemma_chunk_within_end(c: Seq<E01Chunk>, k: int)
    requires
        chunks_contiguous(c),
        0 <= k < c.len(),
    ensures
        c[k].offset + c[k].size <= chunks_end(c),
    decreases c.len() - k,
{
    if k < c.len() - 1 {
        lemma_chunk_within_end(c, k + 1);
        assert(c[k + 1].offset == c[k].offset + c[k].size);
    }
}

/// The logical data of chunk `c` of the evidence file `file`: its stored
/// bytes, inflated when it is compressed (`None` where they are not a zlib
/// stream).
pub open spec fn chunk_data(c: E01Chunk, file: Seq<u8>) -> Option<Seq<u8>> {
    let stored = image_window(file, c.data_offset as int, c.size as int);
    if c.is_compressed {
        zlib_inflate(stored)
    } else {
        Some(stored)
    }
}

/// Byte `i` of chunk `c`: its data there, zero past the data's end.
pub open spec fn chunk_byte(c: E01Chunk, file: Seq<u8>, i: int) -> u8 {
    match chunk_data(c, file) {
        Some(d) => if 0 <= i < d.len() { d[i] } else { 0 },
        None => 0,
    }
}

/// Byte `pos` of the disk whose chunks are `chunks`: that of the chunk that
/// holds it, zero where none does.
pub open spec fn e01_byte(chunks: Seq<E01Chunk>, file: Seq<u8>, pos: int) -> u8
    decreases chunks.len(),
{
    if chunks.len() == 0 {
        0
    } else if chunks.last().offset <= pos < chunks.last().offset + chunks.last().size {
        chunk_byte(chunks.last(), file, pos - chunks.last().offset)
    } else {
        e01_byte(chunks.drop_last(), file, pos)
    }
}

/// The logical bytes of the disk whose chunks are `chunks`, stored in the
/// evidence file `file`.
pub open spec fn e01_image(chunks: Seq<E01Chunk>, file: Seq<u8>) -> Seq<u8> {
    Seq::new(chunks_end(chunks) as nat, |pos: int| e01_byte(chunks, file, pos))
}

/// A chunk of contiguous chunks ends at or before every later chunk starts.
proof fn lemma_chunk_before(c: Seq<E01Chunk>, k: int, j: int)
    requires
        chunks_contiguous(c),
        0 <= k < j < c.len(),
    ensures
        c[k].offset + c[k].size <= c[j].offset,
    decreases j - k,
{
    if j > k + 1 {
        lemma_chunk_before(c, k, j - 1);
    }
    let i = j - 1;
    assert(c[i + 1].offset == c[i].offset + c[i].size);
}

/// A byte inside chunk `k` of contiguous chunks is that chunk's byte.
proof fn lemma_e01_byte_in_chunk(c: Seq<E01Chunk>, file: Seq<u8>, k: int, pos: int)
    requires
        chunks_contiguous(c),
        0 <= k < c.len(),
        c[k].offset <= pos < c[k].offset + c[k].size,
    ensures
        e01_byte(c, file, pos) == chunk_byte(c[k], file, pos - c[k].offset),
    decreases c.len(),
{
    if k < c.len() - 1 {
        lemma_chunk_before(c, k, c.len() - 1);
        let d = c.drop_last();
        assert(chunks_contiguous(d)) by {
            assert forall|i: int| 0 <= i < d.len() - 1 implies (#[trigger] d[i + 1]).offset == d[i].offset + d[i].size by {
                assert(d[i + 1] == c[i + 1] && d[i] == c[i]);
            }
            assert forall|i: int| 0 <= i < d.len() implies (#[trigger] d[i]).offset + d[i].size <= u64::MAX by {
                assert(d[i] == c[i]);
            }
        }
        assert(d[k] == c[k]);
        lemma_e01_byte_in_chunk(d, file, k, pos);
    }
}

/// The disk's logical bytes inside chunk `k`: where the chunk is stored
/// uncompressed, the evidence file's bytes at the same place in the chunk's
/// stored data; where it is compressed, the bytes that inflating its `size`
/// stored bytes gives, zero past their end. The disk is as long as its
/// chunks reach.
pub proof fn lemma_e01_image_bytes(chunks: Seq<E01Chunk>, file: Seq<u8>, k: int, i: int)
    requires
        chunks_contiguous(chunks),
        0 <= k < chunks.len(),
        0 <= i < chunks[k].size,
    ensures
        e01_image(chunks, file).len() == chunks_end(chunks),
        !chunks[k].is_compressed ==> image_byte(e01_image(chunks, file), chunks[k].offset + i)
            == image_byte(file, chunks[k].data_offset + i),
        chunks[k].is_compressed ==> image_byte(e01_image(chunks, file), chunks[k].offset + i)
            == match zlib_inflate(image_window(file, chunks[k].data_offset as int, chunks[k].size as int)) {
                Some(d) => if i < d.len() { d[i] } else { 0u8 },
                None => 0u8,
            },
{
    lemma_chunk_within_end(chunks, k);
    lemma_e01_byte_in_chunk(chunks, file, k, chunks[k].offset + i);
}

/// Copies `src[from..from + len]` to `dst[at..at + len]`.
fn copy_into(dst: &mut [u8], at: usize, src: &[u8], from: usize, len: usize)
    requires
        at + len <= old(dst)@.len(),
        from + len <= src@.len(),
    ensures
        final(dst)@.len() == old(dst)@.len(),
        forall|p: int| 0 <= p < final(dst)@.len() ==> #[trigger] final(dst)@[p] == if at <= p < at + len {
            src@[from + p - at]
        } else {
            old(dst)@[p]
        },
{
    let _d = dst.len();
    let _s = src.len();
    let mut i: usize = 0;
    while i < len
        invariant
            i <= len,
            at + len <= old(dst)@.len(),
            from + len <= src@.len(),
            old(dst)@.len() <= usize::MAX,
            src@.len() <= usize::MAX,
            dst@.len() == old(dst)@.len(),
            forall|p: int| 0 <= p < dst@.len() ==> #[trigger] dst@[p] == if at <= p < at + i {
                src@[from + p - at]
            } else {
                old(dst)@[p]
            },
        decreases len - i,
    {
        dst[at + i] = src[from + i];
        i = i + 1;
    }
}

/// Sets `dst[at..at + len]` to zero.
fn zero_fill(dst: &mut [u8], at: usize, len: usize)
    requires
        at + len <= old(dst)@.len(),
    ensures
        final(dst)@.len() == old(dst)@.len(),
        forall|p: int| 0 <= p < final(dst)@.len() ==> #[trigger] final(dst)@[p] == if at <= p < at + len {
            0u8
        } else {
            old(dst)@[p]
        },
{
    let _d = dst.len();
    let mut i: usize = 0;
    while i < len
        invariant
            i <= len,
            at + len <= old(dst)@.len(),
            old(dst)@.len() <= usize::MAX,
            dst@.len() == old(dst)@.len(),
            forall|p: int| 0 <= p < dst@.len() ==> #[trigger] dst@[p] == if at <= p < at + i {
                0u8
            } else {
                old(dst)@[p]
            },
        decreases len - i,
    {
        dst[at + i] = 0;
        i = i + 1;
    }
}

impl<S: DiskImageReader> E01Reader<S> {
    /// The disk stored in the evidence file of `file_size` bytes at `path`
    /// that `source` reads: its chunks (see
    /// [`E01Reader::parse_e01_structure`]) and their total size.
    pub fn new(source: S, file_size: u64, path: std::path::PathBuf) -> (res: Result<Self, DiskReaderError>)
        ensures
            res matches Ok(r) ==> {
                &&& chunks_contiguous(r.chunk_list())
                &&& r.chunk_list().len() > 0
                &&& r.disk_info().format == ImageFormat::E01
                &&& r.disk_info().total_size == chunks_end(r.chunk_list())
                &&& r.disk_info().total_sectors == r.disk_info().total_size / 512
                &&& r.disk_info().sector_size == 512
                &&& r.disk_info().path == path
                &&& r.file_image() == source.image()
                &&& evidence_chunks(source.image(), file_size, r.chunk_list())
            },
    {
        let mut source = source;
        let chunks = match E01Reader::<S>::parse_e01_structure(&mut source, file_size) {
            Ok(c) => c,
            Err(e) => return Err(e),
        };
        let last = chunks[chunks.len() - 1];
        let total_size = last.offset + last.size as u64;
        let info = DiskInfo {
            format: ImageFormat::E01,
            total_size,
            total_sectors: total_size / SECTOR_SIZE,
            sector_size: SECTOR_SIZE,
            path,
        };
        Ok(E01Reader { source, layout: E01Layout { info, chunks } })
    }

    /// Reads the data of `chunk` into `buffer`, inflating it when it is
    /// compressed: the number of bytes put at the start of `buffer`.
    pub fn read_chunk(&mut self, chunk: &E01Chunk, buffer: &mut [u8]) -> (res: Result<usize, DiskReaderError>)
        ensures
            final(self).chunk_list() == old(self).chunk_list(),
            final(self).disk_info() == old(self).disk_info(),
            final(self).file_image() == old(self).file_image(),
            final(buffer)@.len() == old(buffer)@.len(),
            res matches Ok(n) ==> {
                &&& n <= old(buffer)@.len()
                &&& forall|p: int| n <= p < old(buffer)@.len() ==> #[trigger] final(buffer)@[p] == old(buffer)@[p]
                &&& chunk_data(*chunk, old(self).file_image()) matches Some(data)
                    && n == (if data.len() < old(buffer)@.len() { data.len() } else { old(buffer)@.len() })
                    && final(buffer)@.subrange(0, n as int) == data.subrange(0, n as int)
            },
    {
        if chunk.is_compressed {
            let stored = match read_exact_at(&mut self.source, chunk.data_offset, chunk.size as usize) {
                Ok(v) => v,
                Err(e) => return Err(e),
            };
            let data = match zlib_decompress(stored.as_slice()) {
                Ok(d) => d,
                Err(e) => return Err(e),
            };
            let n = if data.len() < buffer.len() { data.len() } else { buffer.len() };
            copy_into(buffer, 0, data.as_slice(), 0, n);
            proof {
                assert(buffer@.subrange(0, n as int) =~= data@.subrange(0, n as int));
            }
            Ok(n)
        } else {
            let n = if (chunk.size as usize) < buffer.len() { chunk.size as usize } else { buffer.len() };
            let data = match read_exact_at(&mut self.source, chunk.data_offset, n) {
                Ok(v) => v,
                Err(e) => return Err(e),
            };
            copy_into(buffer, 0, data.as_slice(), 0, n);
            proof {
                let whole = image_window(old(self).file_image(), chunk.data_offset as int, chunk.size as int);
                assert(buffer@.subrange(0, n as int) =~= whole.subrange(0, n as int));
            }
            Ok(n)
        }
    }

    /// Reads `size` logical bytes of the disk from `offset` into `buffer`:
    /// each chunk's data where the range meets it, zeros where the range
    /// lies past the disk's end (or past what a chunk's data holds). Fails
    /// when `buffer` is shorter than `size`, or a chunk cannot be read.
    #[verifier::rlimit(60)]
    pub fn read_logical(&mut self, offset: u64, size: u64, buffer: &mut [u8]) -> (res: Result<usize, DiskReaderError>)
        ensures
            final(self).chunk_list() == old(self).chunk_list(),
            final(self).disk_info() == old(self).disk_info(),
            final(self).file_image() == old(self).file_image(),
            final(buffer)@.len() == old(buffer)@.len(),
            old(buffer)@.len() < size ==> (res matches Err(e) && e is BufferTooSmall) && final(buffer)@ == old(buffer)@,
            old(buffer)@.len() >= size && (size == 0 || offset >= old(self).disk_info().total_size) ==> res matches Ok(n),
            res matches Ok(n) ==> {
                &&& n == size
                &&& forall|p: int| 0 <= p < size ==> #[trigger] final(buffer)@[p]
                    == image_byte(e01_image(old(self).chunk_list(), old(self).file_image()), offset + p)
                &&& forall|p: int| size <= p < old(buffer)@.len() ==> #[trigger] final(buffer)@[p] == old(buffer)@[p]
            },
    {
        proof { use_type_invariant(&self.layout); }
        if (buffer.len() as u64) < size {
            return Err(DiskReaderError::BufferTooSmall(size, buffer.len()));
        }
        let ghost total = self.layout.info.total_size as int;
        let ghost chunks0 = self.layout.chunks@;
        let ghost file = self.source.image();
        let ghost img = e01_image(chunks0, file);
        let size_us = size as usize;
        let mut remaining: usize = size_us;
        let mut pos: usize = 0;
        let mut cur: u128 = offset as u128;
        let mut k: usize = 0;
        let count = self.layout.chunks.len();
        while k < count
            invariant
                count == self.layout.chunks@.len(),
                self.layout.chunks@ == chunks0,
                chunks0 == old(self).layout.chunks@,
                self.layout.info == old(self).layout.info,
                self.source.image() == file,
                file == old(self).source.image(),
                img == e01_image(chunks0, file),
                total == self.layout.info.total_size,
                chunks_contiguous(chunks0),
                total == chunks_end(chunks0),
                img.len() == total,
                k <= count,
                size_us == size,
                size_us <= old(buffer)@.len(),
                buffer@.len() == old(buffer)@.len(),
                pos + remaining == size_us,
                cur == offset + pos,
                forall|p: int| 0 <= p < pos ==> #[trigger] buffer@[p] == image_byte(img, offset + p),
                forall|p: int| pos <= p < buffer@.len() ==> #[trigger] buffer@[p] == old(buffer)@[p],
                remaining > 0 ==> forall|q: int| cur <= q < (if k < count { chunks0[k as int].offset as int } else { total })
                    ==> #[trigger] image_byte(img, q) == 0,
            ensures
                remaining == 0 || k == count,
                pos + remaining == size_us,
                cur == offset + pos,
                buffer@.len() == old(buffer)@.len(),
                self.source.image() == file,
                self.layout.chunks@ == chunks0,
                self.layout.info == old(self).layout.info,
                img.len() == total,
                forall|p: int| 0 <= p < pos ==> #[trigger] buffer@[p] == image_byte(img, offset + p),
                forall|p: int| pos <= p < buffer@.len() ==> #[trigger] buffer@[p] == old(buffer)@[p],
                remaining > 0 ==> forall|q: int| cur <= q < total ==> #[trigger] image_byte(img, q) == 0,
            decreases count - k,
        {
            if remaining == 0 {
                break;
            }
            let chunk = self.layout.chunks[k];
            proof {
                lemma_chunk_within_end(chunks0, k as int);
                if k + 1 < count {
                    assert(chunks0[k + 1].offset == chunks0[k as int].offset + chunks0[k as int].size);
                } else {
                    assert(chunks0.last() == chunks0[k as int]);
                }
            }
            let chunk_start = chunk.offset as u128;
            let chunk_end = chunk.offset as u128 + chunk.size as u128;
            if cur >= chunk_end {
                k = k + 1;
                continue;
            }
            if cur < chunk_start {
                let gap = chunk_start - cur;
                let fill: usize = if gap < remaining as u128 { gap as usize } else { remaining };
                let ghost before = buffer@;
                zero_fill(buffer, pos, fill);
                proof {
                    assert forall|p: int| 0 <= p < pos + fill implies #[trigger] buffer@[p] == image_byte(img, offset + p) by {
                        if p < pos {
                            assert(buffer@[p] == before[p]);
                        } else {
                            assert(image_byte(img, cur + (p - pos)) == 0);
                        }
                    }
                }
                pos = pos + fill;
                remaining = remaining - fill;
                cur = cur + fill as u128;
                if remaining == 0 {
                    break;
                }
            }
            let in_chunk: usize = (cur - chunk_start) as usize;
            let available: usize = chunk.size as usize - in_chunk;
            let wanted: usize = if available < remaining { available } else { remaining };
            if wanted > 0 {
                let mut chunk_buffer: Vec<u8> = vec![0u8; chunk.size as usize];
                let got = match self.read_chunk(&chunk, chunk_buffer.as_mut_slice()) {
                    Ok(n) => n,
                    Err(e) => return Err(e),
                };
                let ghost data = chunk_data(chunk, file).unwrap();
                proof {
                    assert forall|j: int| 0 <= j < got implies #[trigger] chunk_buffer@[j] == chunk_byte(chunk, file, j) by {
                        assert(chunk_buffer@.subrange(0, got as int)[j] == data.subrange(0, got as int)[j]);
                    }
                }
                let have: usize = if got > in_chunk { got - in_chunk } else { 0 };
                let copy_len: usize = if wanted < have { wanted } else { have };
                let ghost before = buffer@;
                copy_into(buffer, pos, chunk_buffer.as_slice(), in_chunk, copy_len);
                proof {
                    assert forall|p: int| 0 <= p < pos + copy_len implies #[trigger] buffer@[p] == image_byte(img, offset + p) by {
                        if p < pos {
                            assert(buffer@[p] == before[p]);
                        } else {
                            let q = cur + (p - pos);
                            lemma_e01_byte_in_chunk(chunks0, file, k as int, q);
                            assert(chunk_buffer@[in_chunk + p - pos] == chunk_byte(chunk, file, in_chunk + p - pos));
                        }
                    }
                    if remaining - copy_len > 0 && copy_len < available {
                        assert(got < chunk.size);
                        assert(got == data.len());
                        assert forall|q: int| cur + copy_len <= q < chunk_end implies #[trigger] image_byte(img, q) == 0 by {
                            lemma_e01_byte_in_chunk(chunks0, file, k as int, q);
                        }
                    }
                }
                pos = pos + copy_len;
                remaining = remaining - copy_len;
                cur = cur + copy_len as u128;
            }
            k = k + 1;
        }
        let ghost before = buffer@;
        zero_fill(buffer, pos, remaining);
        proof {
            assert forall|p: int| 0 <= p < size implies #[trigger] buffer@[p] == image_byte(img, offset + p) by {
                if p < pos {
                    assert(buffer@[p] == before[p]);
                } else {
                    assert(image_byte(img, cur + (p - pos)) == 0);
                }
            }
        }
        Ok(size_us)
    }
}

impl<S: DiskImageReader> DiskImageReader for E01Reader<S> {
    /// The disk's logical bytes: those of its chunks (see [`e01_image`]).
    open spec fn image(&self) -> Seq<u8> {
        e01_image(self.chunk_list(), self.file_image())
    }

    /// Reads the `count * 512` bytes from byte `start_sector * 512` (see
    /// [`E01Reader::read_logical`]); fails when either product passes 64
    /// bits or `buffer` is shorter than the bytes asked for.
    fn read_sectors(&mut self, start_sector: u64, count: u64, buffer: &mut [u8]) -> (res: Result<usize, DiskReaderError>)
        ensures
            final(self).chunk_list() == old(self).chunk_list(),
            final(self).disk_info() == old(self).disk_info(),
            final(buffer)@.len() == old(buffer)@.len(),
            start_sector * 512 > u64::MAX || count * 512 > u64::MAX || old(buffer)@.len() < count * 512
                ==> (res matches Err(e) && e is BufferTooSmall) && final(buffer)@ == old(buffer)@,
            start_sector * 512 <= u64::MAX && old(buffer)@.len() >= count * 512
                && (count == 0 || start_sector * 512 >= old(self).disk_info().total_size) ==> res matches Ok(n),
            res matches Ok(n) ==> n == count * 512,
    {
        let offset = match start_sector.checked_mul(SECTOR_SIZE) {
            Some(o) => o,
            None => return Err(DiskReaderError::BufferTooSmall(u64::MAX, buffer.len())),
        };
        let bytes = match count.checked_mul(SECTOR_SIZE) {
            Some(b) => b,
            None => return Err(DiskReaderError::BufferTooSmall(u64::MAX, buffer.len())),
        };
        if (buffer.len() as u64) < bytes {
            return Err(DiskReaderError::BufferTooSmall(bytes, buffer.len()));
        }
        self.read_logical(offset, bytes, buffer)
    }

    /// Reads `size` logical bytes from `offset` (see
    /// [`E01Reader::read_logical`]).
    fn read_offset(&mut self, offset: u64, size: u64, buffer: &mut [u8]) -> (res: Result<usize, DiskReaderError>)
        ensures
            final(self).chunk_list() == old(self).chunk_list(),
            final(self).disk_info() == old(self).disk_info(),
            final(buffer)@.len() == old(buffer)@.len(),
            old(buffer)@.len() < size ==> (res matches Err(e) && e is BufferTooSmall) && final(buffer)@ == old(buffer)@,
            old(buffer)@.len() >= size && (size == 0 || offset >= old(self).disk_info().total_size) ==> res matches Ok(n),
            res matches Ok(n) ==> n == size,
    {
        self.read_logical(offset, size, buffer)
    }

    fn get_disk_info(&self) -> (r: &DiskInfo)
        ensures
            *r == self.disk_info(),
    {
        proof { use_type_invariant(&self.layout); }
        &self.layout.info
    }
}

impl<S> E01Reader<S> {
    /// The same disk read through another view of the evidence file (such
    /// as the file opened again): same chunks, same metadata.
    pub fn reopened<T>(&self, source: T) -> (r: E01Reader<T>)
        ensures
            r.chunk_list() == self.chunk_list(),
            r.disk_info() == self.disk_info(),
    {
        proof { use_type_invariant(&self.layout); }
        let mut chunks: Vec<E01Chunk> = Vec::new();
        let mut i: usize = 0;
        while i < self.layout.chunks.len()
            invariant
                i <= self.layout.chunks@.len(),
                chunks@ == self.layout.chunks@.take(i as int),
            decreases self.layout.chunks@.len() - i,
        {
            chunks.push(self.layout.chunks[i]);
            proof { assert(self.layout.chunks@.take(i + 1) =~= self.layout.chunks@.take(i as int).push(self.layout.chunks@[i as int])); }
            i = i + 1;
        }
        proof { assert(self.layout.chunks@.take(i as int) =~= self.layout.chunks@); }
        E01Reader { source, layout: E01Layout { info: self.layout.info.duplicate(), chunks } }
    }
}

} // verus!
