use disk_carver::carver::{CarveAction, CarvePhase, CarverConfig, DiskCarver, MatchResult};
use disk_carver::disk_reader::{copy_mapped_range, DiskImageReader, DiskInfo, DiskReaderError, ImageFormat};
use disk_carver::file_types::FileType;
use disk_carver::fs_parser::{
    create_filesystem_parser, detect_filesystem, detect_filesystem_in_boot_sector, detect_partitions, parse_partition_table,
    ClusterChain, Fat16Parser, Fat32Parser, FileSystemParser, FileSystemType, FsError, FsParser, NtfsParser, SmartCarver,
};
use std::path::PathBuf;

struct Image {
    data: Vec<u8>,
    info: DiskInfo,
}

impl Image {
    fn new(data: Vec<u8>) -> Self {
        let n = data.len() as u64;
        Image {
            data,
            info: DiskInfo { format: ImageFormat::RawDd, total_size: n, total_sectors: n / 512, sector_size: 512, path: PathBuf::from("image.dd") },
        }
    }
}

impl DiskImageReader for Image {
    fn read_sectors(&mut self, start_sector: u64, count: u64, buffer: &mut [u8]) -> Result<usize, DiskReaderError> {
        self.read_offset(start_sector * 512, count * 512, buffer)
    }

    fn read_offset(&mut self, offset: u64, size: u64, buffer: &mut [u8]) -> Result<usize, DiskReaderError> {
        if (buffer.len() as u64) < size {
            return Err(DiskReaderError::BufferTooSmall(size, buffer.len()));
        }
        let n = self.data.len() as u64;
        Ok(copy_mapped_range(&self.data, n, offset, size, buffer))
    }

    fn get_disk_info(&self) -> &DiskInfo {
        &self.info
    }
}

fn put16(b: &mut [u8], at: usize, v: u16) {
    b[at..at + 2].copy_from_slice(&v.to_le_bytes());
}

fn put32(b: &mut [u8], at: usize, v: u32) {
    b[at..at + 4].copy_from_slice(&v.to_le_bytes());
}

fn ntfs_boot_sector() -> Vec<u8> {
    let mut b = vec![0u8; 512];
    b[3..11].copy_from_slice(b"NTFS    ");
    put16(&mut b, 11, 512);
    b[13] = 8;
    b[48..56].copy_from_slice(&4u64.to_le_bytes());
    b[64] = 0xF6;
    b
}

fn fat32_boot_sector() -> Vec<u8> {
    let mut b = vec![0u8; 512];
    put16(&mut b, 11, 512);
    b[13] = 1;
    put16(&mut b, 14, 4);
    b[16] = 1;
    put32(&mut b, 32, 200);
    put32(&mut b, 36, 2);
    put32(&mut b, 44, 2);
    b[82..90].copy_from_slice(b"FAT32   ");
    b
}

fn fat16_boot_sector() -> Vec<u8> {
    let mut b = vec![0u8; 512];
    put16(&mut b, 11, 512);
    b[13] = 4;
    put16(&mut b, 14, 1);
    b[16] = 2;
    put16(&mut b, 17, 512);
    put16(&mut b, 19, 20000);
    put16(&mut b, 22, 20);
    b[54..62].copy_from_slice(b"FAT16   ");
    b[82..90].copy_from_slice(b"FAT16   ");
    b
}

fn fat32_image() -> Vec<u8> {
    let mut img = vec![0u8; 200 * 512];
    img[..512].copy_from_slice(&fat32_boot_sector());
    let fat = 4 * 512;
    put32(&mut img, fat + 4 * 2, 3);
    put32(&mut img, fat + 4 * 3, 0x0FFF_FFFF);
    img
}

#[test]
fn detects_ntfs_by_oem_name() {
    assert_eq!(detect_filesystem_in_boot_sector(&ntfs_boot_sector()), FileSystemType::Ntfs);
}

#[test]
fn detects_fat_by_label() {
    assert_eq!(detect_filesystem_in_boot_sector(&fat32_boot_sector()), FileSystemType::Fat32);
    assert_eq!(detect_filesystem_in_boot_sector(&fat16_boot_sector()), FileSystemType::Fat16);
}

#[test]
fn blank_sector_is_unknown() {
    assert_eq!(detect_filesystem_in_boot_sector(&vec![0u8; 512]), FileSystemType::Unknown);
}

#[test]
fn detect_filesystem_reads_partition_start() {
    let mut img = vec![0u8; 2048];
    img[1024..1536].copy_from_slice(&ntfs_boot_sector());
    let mut r = Image::new(img);
    assert_eq!(detect_filesystem(&mut r, 1024), FileSystemType::Ntfs);
    assert_eq!(detect_filesystem(&mut r, 0), FileSystemType::Unknown);
}

#[test]
fn ntfs_cluster_offsets_round_trip() {
    let p = NtfsParser::from_boot_sector(&ntfs_boot_sector(), 1 << 20).unwrap();
    assert_eq!(p.cluster_size(), 4096);
    assert_eq!(p.partition_offset(), 1 << 20);
    assert_eq!(p.cluster_to_offset(10), (1 << 20) + 40960);
    assert_eq!(p.offset_to_cluster((1 << 20) + 4096 * 3 + 5), 3);
    assert_eq!(p.offset_to_cluster(p.cluster_to_offset(77)), 77);
}

#[test]
fn ntfs_rejects_foreign_boot_sector() {
    assert!(NtfsParser::from_boot_sector(&fat32_boot_sector(), 0).is_err());
}

#[test]
fn fat32_cluster_offsets_round_trip() {
    let p = Fat32Parser::from_boot_sector(&fat32_boot_sector(), 0).unwrap();
    assert_eq!(p.cluster_size(), 512);
    assert_eq!(p.cluster_to_offset(2), 6 * 512);
    assert_eq!(p.offset_to_cluster(6 * 512), Some(2));
    assert_eq!(p.offset_to_cluster(6 * 512 + 700), Some(3));
    assert_eq!(p.offset_to_cluster(100), None);
}

#[test]
fn fat16_cluster_offsets_round_trip() {
    let p = Fat16Parser::from_boot_sector(&fat16_boot_sector(), 0).unwrap();
    assert_eq!(p.cluster_size(), 2048);
    let first = p.cluster_to_offset(2);
    assert_eq!(first, (1 + 40 + 32) * 512);
    assert_eq!(p.offset_to_cluster(first), Some(2));
    assert_eq!(p.offset_to_cluster(p.cluster_to_offset(9)), Some(9));
}

#[test]
fn fat32_chain_follows_the_table() {
    let mut r = Image::new(fat32_image());
    let p = Fat32Parser::new(&mut r, 0).unwrap();
    assert_eq!(p.read_fat_entry(&mut r, 2).unwrap(), 3);
    assert_eq!(p.read_fat_entry(&mut r, 3).unwrap(), 0x0FFF_FFFF);
    let chain = p.build_cluster_chain_from_fat(&mut r, 2, 10).unwrap();
    assert_eq!(chain.runs.len(), 1);
    assert_eq!(chain.runs[0].start_cluster, 2);
    assert_eq!(chain.runs[0].cluster_count, 1);
    assert_eq!(chain.total_clusters, 1);
    assert_eq!(chain.total_bytes, 512);
    assert!(!chain.is_fragmented);
}

#[test]
fn filesystem_parser_is_created_for_fat32() {
    let mut r = Image::new(fat32_image());
    let p = create_filesystem_parser(&mut r, 0).unwrap();
    assert_eq!(p.fs_type(), FileSystemType::Fat32);
    assert!(create_filesystem_parser(&mut Image::new(vec![0u8; 1024]), 0).is_none());
}

#[test]
fn cluster_chain_counts_runs() {
    let mut c = ClusterChain::new();
    assert!(c.is_empty());
    c.add_run(5, 3, 4096);
    c.add_run(20, 1, 4096);
    assert!(!c.is_empty());
    assert_eq!(c.total_clusters, 4);
    assert_eq!(c.total_bytes, 4 * 4096);
    assert!(c.is_fragmented);
}

#[test]
fn partition_table_lists_used_entries() {
    let mut mbr = vec![0u8; 512];
    mbr[0x1BE] = 0x80;
    mbr[0x1BE + 4] = 0x07;
    put32(&mut mbr, 0x1BE + 8, 2048);
    put32(&mut mbr, 0x1BE + 12, 100000);
    mbr[0x1CE + 4] = 0x0B;
    put32(&mut mbr, 0x1CE + 8, 200000);
    mbr[510] = 0x55;
    mbr[511] = 0xAA;
    let parts = parse_partition_table(&mbr);
    assert_eq!(parts.len(), 1);
    assert_eq!(parts[0].boot_indicator, 0x80);
    assert_eq!(parts[0].partition_type, 0x07);
    assert_eq!(parts[0].start_lba, 2048);
    assert_eq!(parts[0].size_lba, 100000);
    let mut r = Image::new(mbr.clone());
    assert_eq!(detect_partitions(&mut r, 0).len(), 1);
    mbr[511] = 0;
    assert!(parse_partition_table(&mbr).is_empty());
}

#[test]
fn recovery_uses_the_fat_chain() {
    let mut img = fat32_image();
    img[3072..3076].copy_from_slice(&[0xFF, 0xD8, 0xFF, 0xE0]);
    let mut r = Image::new(img);
    let mut carver = DiskCarver::new(CarverConfig::default());
    carver.init_filesystem(&mut r);
    assert!(carver.has_filesystem());
    assert_eq!(carver.get_stats().detected_fs, FileSystemType::Fat32);
    let mut m = MatchResult {
        file_type: FileType::Jpeg,
        start_offset: 3072,
        end_offset: 3072 + 500,
        size: 500,
        md5_hash: None,
        sha256_hash: None,
        recovered: false,
        output_path: None,
        sector_start: 6,
        sector_end: 6,
        fs_rebuilt: false,
        is_fragmented: false,
        cluster_count: 0,
        fs_type: FileSystemType::Unknown,
    };
    match carver.begin_recovery(&mut r, &mut m) {
        CarveAction::Copy(_, phase) => assert_eq!(phase, CarvePhase::Chain),
        CarveAction::Done => panic!("expected a copy through the chain"),
    }
    assert!(m.fs_rebuilt);
    assert_eq!(m.size, 512);
    assert_eq!(m.end_offset, 3072 + 512);
    assert_eq!(m.cluster_count, 1);
    assert_eq!(m.fs_type, FileSystemType::Fat32);
    assert!(!m.is_fragmented);
}

#[test]
fn ntfs_zero_cluster_size_is_kept() {
    let mut b = ntfs_boot_sector();
    b[13] = 0;
    b[64] = 0xF6;
    let p = NtfsParser::from_boot_sector(&b, 0).unwrap();
    assert_eq!(p.cluster_size(), 0);
    let sc = SmartCarver::new(Some(FsParser::Ntfs(p)));
    assert!(sc.can_rebuild_at(0) == false);
    assert!(matches!(NtfsParser::from_boot_sector(&fat32_boot_sector(), 0), Err(FsError::NotNtfs)));
    let mut bad = ntfs_boot_sector();
    bad[64] = 0xC0;
    assert!(matches!(NtfsParser::from_boot_sector(&bad, 0), Err(FsError::InvalidBootSector)));
}

#[test]
fn ntfs_runlist_decodes_relative_starts() {
    let p = NtfsParser::from_boot_sector(&ntfs_boot_sector(), 0).unwrap();
    let mut a = vec![0u8; 0x50];
    a[0x20] = 0x40;
    a[0x40..0x44].copy_from_slice(&[0x21, 0x10, 0x00, 0x01]);
    a[0x44..0x47].copy_from_slice(&[0x11, 0x05, 0xF0]);
    let runs = p.parse_data_runlist(&a).unwrap();
    let pairs: Vec<(u64, u64)> = runs.iter().map(|r| (r.start_cluster, r.cluster_count)).collect();
    assert_eq!(pairs, vec![(256, 16), (240, 5)]);
}

#[test]
fn ntfs_runlist_refuses_wide_fields() {
    let p = NtfsParser::from_boot_sector(&ntfs_boot_sector(), 0).unwrap();
    let mut a = vec![0u8; 0x50];
    a[0x20] = 0x40;
    a[0x40] = 0x19;
    assert!(matches!(p.parse_data_runlist(&a), Err(FsError::MalformedRunlist)));
}

#[test]
fn ntfs_record_needs_file_signature() {
    let mut img = vec![0u8; 32768];
    img[..512].copy_from_slice(&ntfs_boot_sector());
    let mut r = Image::new(img.clone());
    let p = NtfsParser::new(&mut r, 0).unwrap();
    assert!(matches!(p.read_mft_record(&mut r, 0), Err(FsError::InvalidMftSignature)));
    img[16384..16388].copy_from_slice(b"FILE");
    let mut r2 = Image::new(img);
    assert_eq!(p.read_mft_record(&mut r2, 0).unwrap().len(), 1024);
}

#[test]
fn fat_entry_outside_the_volume_is_refused() {
    let mut r = Image::new(fat32_image());
    let p = Fat32Parser::new(&mut r, 0).unwrap();
    assert!(matches!(p.read_fat_entry(&mut r, 1), Err(FsError::InvalidCluster(1))));
    assert!(matches!(p.read_fat_entry(&mut r, 195), Err(FsError::InvalidCluster(195))));
}

#[test]
fn fat_chain_into_a_bad_cluster_fails() {
    let mut img = fat32_image();
    put32(&mut img, 4 * 512 + 4 * 3, 0x0FFF_FFF7);
    let mut r = Image::new(img);
    let p = Fat32Parser::new(&mut r, 0).unwrap();
    assert!(matches!(p.build_cluster_chain_from_fat(&mut r, 2, 10), Err(FsError::BadCluster)));
}

#[test]
fn chain_copy_needs_a_filesystem() {
    let mut chain = ClusterChain::new();
    chain.add_run(2, 1, 512);
    let sc = SmartCarver::new(None);
    assert!(!sc.has_filesystem());
    assert_eq!(sc.fs_type(), FileSystemType::Unknown);
    assert!(matches!(sc.carve_with_cluster_chain(&chain, false), Err(FsError::NoFileSystem)));
}

#[test]
fn chain_copy_reads_the_chain_clusters() {
    let mut img = fat32_image();
    for (i, b) in img[1024..1536].iter_mut().enumerate() {
        *b = (i % 251) as u8;
    }
    let mut r = Image::new(img.clone());
    let parser = create_filesystem_parser(&mut r, 0);
    let sc = SmartCarver::new(parser);
    let mut chain = ClusterChain::new();
    chain.add_run(2, 1, 512);
    let mut job = sc.carve_with_cluster_chain(&chain, true).unwrap();
    let block = job.next_block(&mut r).unwrap().unwrap();
    assert_eq!(block, img[1024..1536].to_vec());
    assert!(job.next_block(&mut r).unwrap().is_none());
    let (md5, sha) = job.finish();
    assert_eq!(md5.unwrap().len(), 32);
    assert_eq!(sha.unwrap().len(), 64);
}

#[test]
fn fat_chain_from_a_cluster_outside_the_volume_is_refused() {
    let mut r = Image::new(fat32_image());
    let p = Fat32Parser::new(&mut r, 0).unwrap();
    assert!(matches!(p.build_cluster_chain_from_fat(&mut r, 1, 10), Err(FsError::InvalidCluster(1))));
    assert!(matches!(p.build_cluster_chain_from_fat(&mut r, 195, 10), Err(FsError::InvalidCluster(195))));
    let empty = p.build_cluster_chain_from_fat(&mut r, 1, 0).unwrap();
    assert!(empty.is_empty());
    assert_eq!(empty.total_clusters, 0);
}

#[test]
fn fat_chain_with_a_jump_has_two_runs() {
    let mut img = fat32_image();
    put32(&mut img, 4 * 512 + 4 * 3, 7);
    put32(&mut img, 4 * 512 + 4 * 7, 0x0FFF_FFFF);
    let mut r = Image::new(img);
    let p = Fat32Parser::new(&mut r, 0).unwrap();
    let chain = p.build_cluster_chain_from_fat(&mut r, 2, 10).unwrap();
    assert_eq!(chain.runs.len(), 2);
    assert_eq!((chain.runs[0].start_cluster, chain.runs[0].cluster_count), (2, 1));
    assert_eq!((chain.runs[1].start_cluster, chain.runs[1].cluster_count), (7, 1));
    assert_eq!(chain.total_clusters, 2);
    assert!(chain.is_fragmented);
    let short = p.build_cluster_chain_from_fat(&mut r, 2, 1).unwrap();
    assert!(short.is_empty());
}

#[test]
fn parser_chain_takes_cluster_numbers_modulo_the_entry_width() {
    let mut r = Image::new(fat32_image());
    let p = FsParser::Fat32(Fat32Parser::new(&mut r, 0).unwrap());
    let chain = p.build_cluster_chain(&mut r, 2 + (1u64 << 32), 10).unwrap();
    assert_eq!(chain.runs.len(), 1);
    assert_eq!(chain.runs[0].start_cluster, 2);
    assert!(matches!(p.build_cluster_chain(&mut r, 1, 10), Err(FsError::InvalidCluster(1))));
    assert!(p.build_cluster_chain(&mut r, 1, 1u64 << 32).unwrap().is_empty());
}

#[test]
fn carver_copy_keeps_the_file_system_but_not_the_parser() {
    let mut r = Image::new(fat32_image());
    let sc = SmartCarver::new(create_filesystem_parser(&mut r, 0));
    assert!(sc.has_filesystem());
    let copy = sc.duplicate();
    assert!(!copy.has_filesystem());
    assert_eq!(copy.fs_type(), FileSystemType::Fat32);
}

#[test]
fn fat32_zero_sector_size_is_kept() {
    let mut b = fat32_boot_sector();
    b[11] = 0;
    b[12] = 0;
    let p = Fat32Parser::from_boot_sector(&b, 0).unwrap();
    assert_eq!(p.cluster_size(), 0);
    let sc = SmartCarver::new(Some(FsParser::Fat32(p)));
    assert!(!sc.can_rebuild_at(4096));
}
