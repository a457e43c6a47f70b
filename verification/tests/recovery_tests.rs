use disk_carver::disk_reader::{copy_mapped_range, DiskImageReader, DiskInfo, DiskReaderError, ImageFormat};
use disk_carver::fs_parser::DataRun;
use disk_carver::recovery::{CopyJob, Digests};
use std::path::PathBuf;

struct ByteImage {
    data: Vec<u8>,
    info: DiskInfo,
}

impl ByteImage {
    fn new(data: Vec<u8>) -> Self {
        let n = data.len() as u64;
        ByteImage {
            data,
            info: DiskInfo { format: ImageFormat::RawDd, total_size: n, total_sectors: n / 512, sector_size: 512, path: PathBuf::from("bytes.img") },
        }
    }
}

impl DiskImageReader for ByteImage {
    fn read_sectors(&mut self, start_sector: u64, count: u64, buffer: &mut [u8]) -> Result<usize, DiskReaderError> {
        self.read_offset(start_sector * 512, count * 512, buffer)
    }

    fn read_offset(&mut self, offset: u64, size: u64, buffer: &mut [u8]) -> Result<usize, DiskReaderError> {
        let n = self.data.len() as u64;
        Ok(copy_mapped_range(&self.data, n, offset, size, buffer))
    }

    fn get_disk_info(&self) -> &DiskInfo {
        &self.info
    }
}

fn copy_all(job: &mut CopyJob, reader: &mut ByteImage) -> Vec<u8> {
    let mut out = Vec::new();
    while let Some(block) = job.next_block(reader).unwrap() {
        out.extend_from_slice(&block);
    }
    out
}

#[test]
fn digests_of_abc() {
    let mut d = Digests::new(true);
    d.consume(b"ab");
    d.consume(b"c");
    let (md5, sha) = d.finish();
    assert_eq!(md5.unwrap(), "900150983cd24fb0d6963f7d28e17f72");
    assert_eq!(sha.unwrap(), "ba7816bf8f01cfea414140de5dae2223b00361a396177a9cb410ff61f20015ad");
}

#[test]
fn digests_of_nothing() {
    let (md5, sha) = Digests::new(true).finish();
    assert_eq!(md5.unwrap(), "d41d8cd98f00b204e9800998ecf8427e");
    assert_eq!(sha.unwrap(), "e3b0c44298fc1c149afbf4c8996fb92427ae41e4649b934ca495991b7852b855");
}

#[test]
fn digests_off_give_none() {
    let mut d = Digests::new(false);
    d.consume(b"abc");
    assert_eq!(d.finish(), (None, None));
}

#[test]
fn range_copy_stops_at_the_image_end() {
    let mut img = ByteImage::new(b"hello".to_vec());
    let mut job = CopyJob::for_range(0, 100, true);
    assert_eq!(copy_all(&mut job, &mut img), b"hello".to_vec());
    let (md5, sha) = job.finish();
    assert_eq!(md5.unwrap(), "5d41402abc4b2a76b9719d911017c592");
    assert_eq!(sha.unwrap(), "2cf24dba5fb0a30e26e83b2ac5b9e29e1b161e5c1fa7425e73043362938b9824");
}

#[test]
fn range_copy_reads_only_the_range() {
    let mut img = ByteImage::new((0u8..=255).collect());
    let mut job = CopyJob::for_range(10, 5, false);
    assert_eq!(copy_all(&mut job, &mut img), vec![10, 11, 12, 13, 14]);
}

#[test]
fn chain_copy_follows_runs_in_order() {
    let mut img = ByteImage::new((0u8..64).collect());
    let runs = vec![
        DataRun { start_cluster: 3, cluster_count: 1 },
        DataRun { start_cluster: 0, cluster_count: 2 },
    ];
    let mut job = CopyJob::for_chain(&runs, 12, 4, 8, false).unwrap();
    let out = copy_all(&mut job, &mut img);
    assert_eq!(out, vec![20, 21, 22, 23, 8, 9, 10, 11, 12, 13, 14, 15]);
}

#[test]
fn chain_copy_stops_at_the_byte_limit() {
    let mut img = ByteImage::new(vec![9u8; 1 << 16]);
    let runs = vec![
        DataRun { start_cluster: 0, cluster_count: 2 },
        DataRun { start_cluster: 4, cluster_count: 2 },
    ];
    let mut job = CopyJob::for_chain(&runs, 4096, 4096, 0, false).unwrap();
    let first = job.next_block(&mut img).unwrap().unwrap();
    assert_eq!(first.len(), 4096 * 2);
    assert!(job.next_block(&mut img).unwrap().is_none());
}

#[test]
fn chain_copy_refuses_runs_past_64_bits() {
    let runs = vec![DataRun { start_cluster: u64::MAX / 2, cluster_count: 1 }];
    assert!(CopyJob::for_chain(&runs, 4096, 4096, 0, false).is_err());
}
