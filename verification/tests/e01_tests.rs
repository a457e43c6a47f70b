use disk_carver::disk_reader::{copy_mapped_range, reader_choice, DiskImageReader, DiskInfo, DiskReaderError, ImageFormat, ReaderChoice};
use disk_carver::e01::E01Reader;
use std::io::Write;
use std::path::PathBuf;

struct FileBytes {
    data: Vec<u8>,
    info: DiskInfo,
}

impl FileBytes {
    fn new(data: Vec<u8>) -> Self {
        let n = data.len() as u64;
        FileBytes {
            data,
            info: DiskInfo { format: ImageFormat::RawDd, total_size: n, total_sectors: n / 512, sector_size: 512, path: PathBuf::from("case.E01") },
        }
    }
}

impl DiskImageReader for FileBytes {
    fn read_sectors(&mut self, start_sector: u64, count: u64, buffer: &mut [u8]) -> Result<usize, DiskReaderError> {
        self.read_offset(start_sector * 512, count * 512, buffer)
    }

    fn read_offset(&mut self, offset: u64, size: u64, buffer: &mut [u8]) -> Result<usize, DiskReaderError> {
        let n = self.data.len() as u64;
        Ok(copy_mapped_range(&self.data, n, offset, size, buffer))
    }

    fn get_disk_info(&self) -> &DiskInfo {
        &self.info
    }
}

fn put32(b: &mut Vec<u8>, at: usize, v: u32) {
    b[at..at + 4].copy_from_slice(&v.to_le_bytes());
}

/// An evidence file whose first section points at a chunk section at 64.
fn evidence(chunk: &[u8], logical: u32, compressed: bool) -> Vec<u8> {
    let mut f = vec![0u8; 64];
    f[..5].copy_from_slice(b"EVF\x09\x0d");
    f[16..24].copy_from_slice(&64u64.to_le_bytes());
    let mut section = vec![0u8; 56];
    section[0] = b'S';
    let mut header = vec![0u8; 40];
    put32(&mut header, 0, chunk.len() as u32);
    put32(&mut header, 8, logical);
    put32(&mut header, 12, if compressed { 1 } else { 0 });
    section[16..56].copy_from_slice(&header);
    f.extend_from_slice(&section);
    f.extend_from_slice(chunk);
    let mut end = vec![0u8; 16];
    end[0] = b'D';
    f.extend_from_slice(&end);
    f.extend_from_slice(&[0u8; 128]);
    f
}

fn open(file: Vec<u8>) -> E01Reader<FileBytes> {
    let n = file.len() as u64;
    E01Reader::new(FileBytes::new(file), n, PathBuf::from("case.E01")).unwrap()
}

#[test]
fn evidence_with_plain_chunk() {
    let data: Vec<u8> = (1u8..=16).collect();
    let mut r = open(evidence(&data, 16, false));
    assert_eq!(r.get_disk_info().format, ImageFormat::E01);
    assert_eq!(r.get_total_size(), 16);
    let mut buf = vec![0xAAu8; 16];
    assert_eq!(r.read_offset(0, 16, &mut buf).unwrap(), 16);
    assert_eq!(buf, data);
}

#[test]
fn evidence_reads_past_the_end_as_zeros() {
    let data: Vec<u8> = (1u8..=16).collect();
    let mut r = open(evidence(&data, 16, false));
    let mut buf = vec![0xAAu8; 12];
    assert_eq!(r.read_offset(10, 10, &mut buf).unwrap(), 10);
    assert_eq!(buf, vec![11, 12, 13, 14, 15, 16, 0, 0, 0, 0, 0xAA, 0xAA]);
}

#[test]
fn evidence_with_compressed_chunk() {
    let data: Vec<u8> = b"forensic evidence bytes, forensic evidence bytes".to_vec();
    let mut enc = flate2::write::ZlibEncoder::new(Vec::new(), flate2::Compression::default());
    enc.write_all(&data).unwrap();
    let packed = enc.finish().unwrap();
    let mut r = open(evidence(&packed, data.len() as u32, true));
    assert_eq!(r.get_total_size(), data.len() as u64);
    let mut buf = vec![0u8; data.len()];
    r.read_offset(0, data.len() as u64, &mut buf).unwrap();
    assert_eq!(buf, data);
}

#[test]
fn evidence_with_broken_stream_fails() {
    let garbage = vec![0x13u8; 20];
    let mut r = open(evidence(&garbage, 20, true));
    let mut buf = vec![0u8; 20];
    assert!(matches!(r.read_offset(0, 20, &mut buf), Err(DiskReaderError::E01Error(_))));
}

#[test]
fn evidence_refuses_small_buffers() {
    let data: Vec<u8> = (1u8..=16).collect();
    let mut r = open(evidence(&data, 16, false));
    let mut buf = vec![0u8; 4];
    assert!(matches!(r.read_offset(0, 16, &mut buf), Err(DiskReaderError::BufferTooSmall(16, 4))));
}

#[test]
fn evidence_sectors_read_whole_sectors() {
    let data = vec![5u8; 1024];
    let mut r = open(evidence(&data, 1024, false));
    let mut buf = vec![0u8; 512];
    assert_eq!(r.read_sectors(1, 1, &mut buf).unwrap(), 512);
    assert_eq!(buf, vec![5u8; 512]);
    let mut small = vec![0u8; 100];
    assert!(r.read_sectors(0, 1, &mut small).is_err());
}

#[test]
fn file_without_signature_is_refused() {
    let file = vec![0u8; 8192];
    let n = file.len() as u64;
    assert!(matches!(E01Reader::new(FileBytes::new(file), n, PathBuf::from("x.E01")), Err(DiskReaderError::E01Error(_))));
}

#[test]
fn fallback_takes_file_after_header() {
    let mut file = vec![0u8; 5000];
    file[..5].copy_from_slice(b"EVF\x09\x0d");
    let r = open(file);
    assert_eq!(r.get_total_size(), 5000 - 4096);
}

#[test]
fn fallback_finds_marked_chunks() {
    let mut file = vec![0xEEu8; 4096];
    file[..5].copy_from_slice(b"EVF\x09\x0d");
    for b in file[5..64].iter_mut() {
        *b = 0;
    }
    file[1024..1028].copy_from_slice(&[1, 0, 0, 0]);
    file[1028..1032].copy_from_slice(&100u32.to_le_bytes());
    file[1040..1044].copy_from_slice(&[7, 8, 9, 10]);
    let mut r = open(file);
    assert_eq!(r.get_total_size(), 100);
    let mut buf = vec![0u8; 4];
    r.read_offset(0, 4, &mut buf).unwrap();
    assert_eq!(buf, vec![7, 8, 9, 10]);
}

#[test]
fn reader_choice_follows_extension() {
    assert_eq!(reader_choice(Some("dd")), ReaderChoice::Raw);
    assert_eq!(reader_choice(Some("IMG")), ReaderChoice::Raw);
    assert_eq!(reader_choice(Some("E01")), ReaderChoice::E01);
    assert_eq!(reader_choice(Some("l01")), ReaderChoice::E01);
    assert_eq!(reader_choice(Some("vmdk")), ReaderChoice::RawThenE01);
    assert_eq!(reader_choice(None), ReaderChoice::RawThenE01);
}

#[test]
fn mapped_copy_clamps_to_image_and_buffer() {
    let image = [1u8, 2, 3, 4, 5];
    let mut buf = [9u8; 3];
    assert_eq!(copy_mapped_range(&image, 5, 3, 10, &mut buf), 2);
    assert_eq!(buf, [4, 5, 9]);
    assert_eq!(copy_mapped_range(&image, 5, 5, 10, &mut buf), 0);
    assert_eq!(copy_mapped_range(&image, 5, 0, 10, &mut buf), 3);
    assert_eq!(buf, [1, 2, 3]);
}

#[test]
fn evidence_with_cut_chunk_header_fails() {
    let mut f = vec![0u8; 64];
    f[..5].copy_from_slice(b"EVF\x09\x0d");
    f[16..24].copy_from_slice(&64u64.to_le_bytes());
    let mut section = vec![0u8; 30];
    section[0] = b'S';
    f.extend_from_slice(&section);
    let n = f.len() as u64;
    assert!(matches!(E01Reader::new(FileBytes::new(f), n, PathBuf::from("cut.E01")), Err(DiskReaderError::IoError(_))));
}

#[test]
fn evidence_read_wholly_past_the_end_is_zeros() {
    let data: Vec<u8> = (1u8..=16).collect();
    let mut r = open(evidence(&data, 16, false));
    let mut buf = vec![0xAAu8; 6];
    assert_eq!(r.read_offset(1000, 4, &mut buf).unwrap(), 4);
    assert_eq!(buf, vec![0, 0, 0, 0, 0xAA, 0xAA]);
    let mut sectors = vec![0xAAu8; 512];
    assert_eq!(r.read_sectors(3, 1, &mut sectors).unwrap(), 512);
    assert_eq!(sectors, vec![0u8; 512]);
    assert_eq!(r.read_sectors(0, 0, &mut sectors).unwrap(), 0);
}

#[test]
fn evidence_sector_number_past_64_bits_is_refused() {
    let data: Vec<u8> = (1u8..=16).collect();
    let mut r = open(evidence(&data, 16, false));
    let mut buf = vec![0u8; 512];
    assert!(matches!(r.read_sectors(u64::MAX, 1, &mut buf), Err(DiskReaderError::BufferTooSmall(_, 512))));
    assert_eq!(r.get_disk_info().total_size, 16);
}

#[test]
fn fallback_refuses_a_file_too_short_to_scan() {
    let mut src = FileBytes::new(vec![0u8; 1000]);
    assert!(matches!(E01Reader::<FileBytes>::parse_e01_fallback(&mut src, 1000), Err(DiskReaderError::E01Error(_))));
}
