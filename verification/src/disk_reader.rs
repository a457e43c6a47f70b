//! Disk image access: the reader interface that the parsers use, image
//! metadata, and the choice of image format from a file extension.

use vstd::prelude::*;

use crate::cli::{name_lowercase, same_text, to_lowercase};

verus! {

/// Bytes per sector of every image this library reads.
pub const SECTOR_SIZE: u64 = 512;

/// `std::path::PathBuf`, carried as an opaque value.
#[verifier::external_type_specification]
#[verifier::external_body]
pub struct ExPathBuf(std::path::PathBuf);

/// `std::io::Error`, carried as an opaque value.
#[verifier::external_type_specification]
#[verifier::external_body]
pub struct ExIoError(std::io::Error);

/// Why an image could not be opened or read.
#[derive(Debug)]
pub enum DiskReaderError {
    /// The file is neither a raw image nor an evidence file.
    UnsupportedFormat(String),
    /// The operating system refused the read.
    IoError(std::io::Error),
    /// The evidence file's structure is not what the format prescribes.
    E01Error(String),
    /// The caller's buffer cannot hold the requested bytes (needed, available).
    BufferTooSmall(u64, usize),
}

/// Container format of an image.
#[derive(Debug, Clone, Copy, PartialEq, Eq, Structural)]
pub enum ImageFormat {
    RawDd,
    E01,
}

/// What is known of an opened image.
#[derive(Debug, Clone)]
pub struct DiskInfo {
    pub format: ImageFormat,
    pub total_size: u64,
    pub total_sectors: u64,
    pub sector_size: u64,
    pub path: std::path::PathBuf,
}

/// Byte `pos` of image `img` as a read gives it: zero past the end.
pub open spec fn image_byte(img: Seq<u8>, pos: int) -> u8 {
    if 0 <= pos < img.len() {
        img[pos]
    } else {
        0
    }
}

/// The `len` bytes of image `img` from `offset`, zeros past its end.
pub open spec fn image_window(img: Seq<u8>, offset: int, len: int) -> Seq<u8> {
    Seq::new(len as nat, |p: int| image_byte(img, offset + p))
}

/// A read of `size` bytes of image `img` at `offset` that reported `n`
/// bytes turned buffer `before` into `after`: no more than asked for and
/// than the buffer holds, short only where the image ends, the first `n`
/// bytes those of the image, the rest of the buffer untouched.
pub open spec fn read_fills(img: Seq<u8>, offset: int, size: int, before: Seq<u8>, after: Seq<u8>, n: int) -> bool {
    &&& after.len() == before.len()
    &&& 0 <= n <= size
    &&& n <= before.len()
    &&& (n == size || offset + n >= img.len())
    &&& forall|p: int| 0 <= p < n ==> #[trigger] after[p] == image_byte(img, offset + p)
    &&& forall|p: int| n <= p < after.len() ==> #[trigger] after[p] == before[p]
}

/// A read that filled a zeroed buffer of exactly `size` bytes leaves in it
/// the window of the image at `offset`, whatever count it reported.
pub proof fn lemma_read_into_zeros(img: Seq<u8>, offset: int, size: int, before: Seq<u8>, after: Seq<u8>, n: int)
    requires
        read_fills(img, offset, size, before, after, n),
        before.len() == size,
        forall|p: int| 0 <= p < size ==> #[trigger] before[p] == 0,
        offset >= 0,
    ensures
        after == image_window(img, offset, size),
{
    assert forall|p: int| 0 <= p < size implies #[trigger] after[p] == image_window(img, offset, size)[p] by {
        if p >= n {
            assert(after[p] == before[p]);
        }
    }
    assert(after =~= image_window(img, offset, size));
}

/// Random access to the logical bytes of a disk image.
///
/// Every read either fails (the image could not be read there) or gives the
/// image's bytes, as [`read_fills`] says: short only where the image ends,
/// the rest of the buffer left as it was. Whether it fails is not stated:
/// that is up to the storage behind the reader. [`crate::e01::E01Reader`]
/// is proved to keep these contracts; a reader written outside this library
/// is held to them by its author.
pub trait DiskImageReader {
    /// The logical bytes of the image. A reader that does not give it keeps
    /// this default, an image that nothing here describes further.
    closed spec fn image(&self) -> Seq<u8> {
        vstd::pervasive::arbitrary()
    }

    /// Reads `count` sectors starting at `start_sector` into `buffer`.
    fn read_sectors(&mut self, start_sector: u64, count: u64, buffer: &mut [u8]) -> (res: Result<usize, DiskReaderError>)
        ensures
            final(self).image() == old(self).image(),
            final(buffer)@.len() == old(buffer)@.len(),
            res matches Ok(n) ==> read_fills(old(self).image(), start_sector * 512, count * 512, old(buffer)@, final(buffer)@, n as int);

    /// Reads `size` bytes starting at byte `offset` into `buffer`.
    fn read_offset(&mut self, offset: u64, size: u64, buffer: &mut [u8]) -> (res: Result<usize, DiskReaderError>)
        ensures
            final(self).image() == old(self).image(),
            final(buffer)@.len() == old(buffer)@.len(),
            res matches Ok(n) ==> read_fills(old(self).image(), offset as int, size as int, old(buffer)@, final(buffer)@, n as int);

    /// Metadata of the image; its size is that of the image.
    fn get_disk_info(&self) -> (r: &DiskInfo)
        ensures
            r.total_size == self.image().len();

    /// Logical size of the image in bytes.
    fn get_total_size(&self) -> (r: u64)
        ensures
            r == self.image().len(),
    {
        self.get_disk_info().total_size
    }
}

/// How an image file is opened.
#[derive(Debug, Clone, Copy, PartialEq, Eq, Structural)]
pub enum ReaderChoice {
    /// As a raw image.
    Raw,
    /// As an evidence file.
    E01,
    /// As a raw image, or as an evidence file where that fails.
    RawThenE01,
}

/// How an image whose lower-case file extension is `ext` is opened.
pub open spec fn reader_choice_for(ext: Seq<char>) -> ReaderChoice {
    if ext == "dd"@ || ext == "img"@ || ext == "raw"@ || ext == "bin"@ {
        ReaderChoice::Raw
    } else if ext == "e01"@ || ext == "s01"@ || ext == "l01"@ {
        ReaderChoice::E01
    } else {
        ReaderChoice::RawThenE01
    }
}

/// How an image whose file name has the extension `extension` (`None`
/// when it has none, or one that is not UTF-8) is opened: by its lower-case
/// form, `dd`, `img`, `raw` and `bin` as raw images, `e01`, `s01` and `l01`
/// as evidence files, anything else as a raw image first.
pub fn reader_choice(extension: Option<&str>) -> (c: ReaderChoice)
    ensures
        c == reader_choice_for(match extension {
            Some(e) => name_lowercase(e@),
            None => Seq::<char>::empty(),
        }),
{
    let ext = match extension {
        Some(e) => to_lowercase(e),
        None => String::new(),
    };
    let e = ext.as_str();
    proof {
        reveal_strlit("dd");
        reveal_strlit("img");
        reveal_strlit("raw");
        reveal_strlit("bin");
        reveal_strlit("e01");
        reveal_strlit("s01");
        reveal_strlit("l01");
    }
    if same_text(e, "dd") || same_text(e, "img") || same_text(e, "raw") || same_text(e, "bin") {
        ReaderChoice::Raw
    } else if same_text(e, "e01") || same_text(e, "s01") || same_text(e, "l01") {
        ReaderChoice::E01
    } else {
        ReaderChoice::RawThenE01
    }
}

/// Copies into `buffer` the bytes of an image of `total_size` bytes held in
/// memory as `image`, from `offset`: at most `size` bytes, no more than the
/// image holds past `offset`, no more than `buffer` holds. Returns how many
/// were copied; the rest of `buffer` is left as it was.
pub fn copy_mapped_range(image: &[u8], total_size: u64, offset: u64, size: u64, buffer: &mut [u8]) -> (n: usize)
    requires
        total_size <= image@.len(),
    ensures
        n == (if offset >= total_size {
            0
        } else {
            let avail = total_size - offset;
            let a = if size < avail { size as int } else { avail };
            if a < old(buffer)@.len() { a } else { old(buffer)@.len() as int }
        }),
        final(buffer)@.len() == old(buffer)@.len(),
        forall|p: int| 0 <= p < n ==> #[trigger] final(buffer)@[p] == image@[offset + p],
        forall|p: int| n <= p < old(buffer)@.len() ==> #[trigger] final(buffer)@[p] == old(buffer)@[p],
{
    let _image_len = image.len();
    if offset >= total_size {
        return 0;
    }
    let available = total_size - offset;
    let mut wanted: u64 = if size < available { size } else { available };
    if wanted > buffer.len() as u64 {
        wanted = buffer.len() as u64;
    }
    let n = wanted as usize;
    let start = offset as usize;
    let mut i: usize = 0;
    while i < n
        invariant
            i <= n,
            n <= old(buffer)@.len(),
            start == offset,
            offset + n <= total_size,
            total_size <= image@.len(),
            image@.len() <= usize::MAX,
            buffer@.len() == old(buffer)@.len(),
            forall|p: int| 0 <= p < i ==> #[trigger] buffer@[p] == image@[offset + p],
            forall|p: int| i <= p < buffer@.len() ==> #[trigger] buffer@[p] == old(buffer)@[p],
        decreases n - i,
    {
        buffer[i] = image[start + i];
        i = i + 1;
    }
    n
}

impl DiskInfo {
    /// A copy of the metadata.
    pub fn duplicate(&self) -> (r: Self)
        ensures
            r == *self,
    {
        DiskInfo {
            format: self.format,
            total_size: self.total_size,
            total_sectors: self.total_sectors,
            sector_size: self.sector_size,
            path: self.path.clone(),
        }
    }
}

} // verus!
