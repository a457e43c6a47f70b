use disk_carver::carver::{chunk_offsets, default_overlap_size, read_chunk_with_overlap, CarveAction, CarvePhase, CarveStats, CarverConfig, DiskCarver, MatchResult};
use disk_carver::naming::FileNamer;
use disk_carver::disk_reader::{copy_mapped_range, DiskImageReader, DiskInfo, DiskReaderError, ImageFormat};
use disk_carver::file_types::FileType;
use disk_carver::fs_parser::FileSystemType;
use std::path::PathBuf;

struct MemReader {
    data: Vec<u8>,
    info: DiskInfo,
}

impl MemReader {
    fn new(data: Vec<u8>) -> Self {
        let n = data.len() as u64;
        MemReader {
            data,
            info: DiskInfo { format: ImageFormat::RawDd, total_size: n, total_sectors: n / 512, sector_size: 512, path: PathBuf::from("mem.dd") },
        }
    }
}

impl DiskImageReader for MemReader {
    fn read_sectors(&mut self, start_sector: u64, count: u64, buffer: &mut [u8]) -> Result<usize, DiskReaderError> {
        self.read_offset(start_sector * 512, count * 512, buffer)
    }

    fn read_offset(&mut self, offset: u64, size: u64, buffer: &mut [u8]) -> Result<usize, DiskReaderError> {
        if (buffer.len() as u64) < size {
            return Err(DiskReaderError::BufferTooSmall(size, buffer.len()));
        }
        let n = self.data.len() as u64;
        Ok(copy_mapped_range(&self.data, n, offset, size, buffer))
    }

    fn get_disk_info(&self) -> &DiskInfo {
        &self.info
    }
}

fn record(t: FileType, start: u64) -> MatchResult {
    MatchResult {
        file_type: t,
        start_offset: start,
        end_offset: start + 200,
        size: 200,
        md5_hash: None,
        sha256_hash: None,
        recovered: false,
        output_path: None,
        sector_start: start / 512,
        sector_end: (start + 200) / 512,
        fs_rebuilt: false,
        is_fragmented: false,
        cluster_count: 0,
        fs_type: FileSystemType::Unknown,
    }
}

fn jpeg_image(len: usize, at: usize, footer_at: Option<usize>) -> Vec<u8> {
    let mut v = vec![0u8; len];
    v[at] = 0xFF;
    v[at + 1] = 0xD8;
    v[at + 2] = 0xFF;
    v[at + 3] = 0xE0;
    if let Some(f) = footer_at {
        v[f] = 0xFF;
        v[f + 1] = 0xD9;
    }
    v
}

#[test]
fn default_config_values() {
    let c = CarverConfig::default();
    assert_eq!(c.chunk_size, 64 * 1024 * 1024);
    assert_eq!(c.overlap_size, 8192);
    assert!(c.thread_count >= 1);
    assert_eq!(c.min_match_interval, 512);
    assert_eq!(c.output_dir, PathBuf::from("./recovered"));
    assert!(c.calculate_hashes && c.sector_aligned && c.use_filesystem_metadata && c.fs_fallback);
    assert!(c.selected_types.is_none());
    assert_eq!(c.partition_offset, 0);
}

#[test]
fn overlap_is_next_power_of_two_above_longest_part() {
    assert_eq!(default_overlap_size(), 8192);
}

#[test]
fn chunk_plan_steps_by_chunk_minus_overlap() {
    assert_eq!(chunk_offsets(100, 40, 10), vec![0, 30, 60]);
    assert_eq!(chunk_offsets(0, 40, 10), Vec::<u64>::new());
    assert_eq!(chunk_offsets(40, 40, 10), vec![0]);
    assert_eq!(chunk_offsets(41, 40, 10), vec![0, 30]);
}

#[test]
fn scan_buffer_finds_jpeg_with_footer() {
    let buf = jpeg_image(1024, 0, Some(300));
    let sigs = vec![FileType::Jpeg.get_signature()];
    let r = DiskCarver::scan_buffer(&buf, 0, 1024, &sigs, &CarverConfig::default());
    assert_eq!(r.len(), 1);
    assert_eq!(r[0].file_type, FileType::Jpeg);
    assert_eq!(r[0].start_offset, 0);
    assert_eq!(r[0].end_offset, 302);
    assert_eq!(r[0].size, 302);
    assert_eq!(r[0].sector_start, 0);
    assert_eq!(r[0].sector_end, 0);
    assert!(!r[0].recovered && r[0].fs_type == FileSystemType::Unknown);
}

#[test]
fn scan_buffer_runs_to_chunk_end_without_footer() {
    let buf = jpeg_image(1024, 512, None);
    let sigs = vec![FileType::Jpeg.get_signature()];
    let r = DiskCarver::scan_buffer(&buf, 4096, 4096 + 1024, &sigs, &CarverConfig::default());
    assert_eq!(r.len(), 1);
    assert_eq!(r[0].start_offset, 4096 + 512);
    assert_eq!(r[0].end_offset, 4096 + 1024);
    assert_eq!(r[0].sector_start, 9);
}

#[test]
fn scan_buffer_skips_unaligned_headers_when_aligned() {
    let buf = jpeg_image(1024, 100, Some(600));
    let sigs = vec![FileType::Jpeg.get_signature()];
    let aligned = CarverConfig::default();
    assert!(DiskCarver::scan_buffer(&buf, 0, 1024, &sigs, &aligned).is_empty());
    let mut loose = CarverConfig::default();
    loose.sector_aligned = false;
    let r = DiskCarver::scan_buffer(&buf, 0, 1024, &sigs, &loose);
    assert_eq!(r.len(), 1);
    assert_eq!(r[0].start_offset, 100);
    assert_eq!(r[0].end_offset, 602);
}

#[test]
fn scan_buffer_keeps_headers_near_sector_start() {
    let buf = jpeg_image(1024, 64, Some(600));
    let sigs = vec![FileType::Jpeg.get_signature()];
    let r = DiskCarver::scan_buffer(&buf, 0, 1024, &sigs, &CarverConfig::default());
    assert_eq!(r.len(), 1);
    assert_eq!(r[0].start_offset, 64);
}

#[test]
fn scan_buffer_drops_files_below_minimum() {
    let buf = jpeg_image(50, 0, None);
    let sigs = vec![FileType::Jpeg.get_signature()];
    assert!(DiskCarver::scan_buffer(&buf, 0, 50, &sigs, &CarverConfig::default()).is_empty());
}

#[test]
fn scan_buffer_orders_by_start() {
    let mut buf = jpeg_image(2048, 1024, Some(1500));
    let png = FileType::Png.get_signature().header;
    buf[..png.len()].copy_from_slice(png);
    let sigs = vec![FileType::Jpeg.get_signature(), FileType::Png.get_signature()];
    let r = DiskCarver::scan_buffer(&buf, 0, 2048, &sigs, &CarverConfig::default());
    assert_eq!(r.len(), 2);
    assert_eq!(r[0].file_type, FileType::Png);
    assert_eq!(r[0].start_offset, 0);
    assert_eq!(r[1].file_type, FileType::Jpeg);
    assert_eq!(r[1].start_offset, 1024);
}

#[test]
fn new_carver_selects_signatures() {
    let mut c = CarverConfig::default();
    c.selected_types = Some(vec![FileType::Png, FileType::Jpeg]);
    let carver = DiskCarver::new(c);
    let types: Vec<FileType> = carver.signatures().iter().map(|s| s.file_type).collect();
    assert_eq!(types, vec![FileType::Jpeg, FileType::Png]);
    assert!(carver.get_matches().is_empty());
    assert!(!carver.has_filesystem());
    assert_eq!(carver.get_stats().total_matches, 0);
}

#[test]
fn new_carver_without_selection_scans_every_type() {
    let carver = DiskCarver::new(CarverConfig::default());
    assert_eq!(carver.signatures().len(), 30);
}

#[test]
fn record_chunk_drops_near_duplicates() {
    let mut carver = DiskCarver::new(CarverConfig::default());
    let local = vec![
        record(FileType::Jpeg, 0),
        record(FileType::Jpeg, 100),
        record(FileType::Jpeg, 600),
        record(FileType::Png, 100),
    ];
    carver.record_chunk(local, 0, 4000);
    let found = carver.get_matches();
    let keys: Vec<(FileType, u64)> = found.iter().map(|m| (m.file_type, m.start_offset)).collect();
    assert_eq!(keys, vec![(FileType::Jpeg, 0), (FileType::Jpeg, 600), (FileType::Png, 100)]);
    let stats = carver.get_stats();
    assert_eq!(stats.total_matches, 3);
    assert_eq!(stats.total_bytes_processed, 4000);
    assert_eq!(stats.matches_by_type.get(&FileType::Jpeg.code()), Some(&2));
    assert_eq!(stats.matches_by_type.get(&FileType::Png.code()), Some(&1));
}

#[test]
fn record_chunk_compares_with_earlier_chunks() {
    let mut config = CarverConfig::default();
    config.chunk_size = 100;
    let mut carver = DiskCarver::new(config);
    carver.record_chunk(vec![record(FileType::Pdf, 1000)], 200, 10000);
    assert_eq!(carver.get_stats().total_bytes_processed, 300);
    carver.record_chunk(vec![record(FileType::Pdf, 1400), record(FileType::Pdf, 1512)], 0, 10000);
    let starts: Vec<u64> = carver.get_matches().iter().map(|m| m.start_offset).collect();
    assert_eq!(starts, vec![1000, 1512]);
    assert_eq!(carver.get_stats().total_bytes_processed, 300);
    carver.record_chunk(Vec::new(), 9950, 10000);
    assert_eq!(carver.get_stats().total_bytes_processed, 10000);
}

#[test]
fn carve_stats_counts_per_type() {
    let mut s = CarveStats::new();
    s.add_match(FileType::Gif);
    s.add_match(FileType::Gif);
    s.add_match(FileType::Zip);
    assert_eq!(s.total_matches, 3);
    assert_eq!(s.matches_by_type.len(), 2);
    assert_eq!(s.matches_by_type.get(&FileType::Gif.code()), Some(&2));
    assert_eq!(s.matches_by_type.get(&FileType::Zip.code()), Some(&1));
    s.update(77);
    assert_eq!(s.total_bytes_processed, 77);
}

#[test]
fn file_namer_numbers_each_type() {
    let mut n = FileNamer::new();
    assert_eq!(n.next_name(FileType::Jpeg), "jpg_000001.jpg");
    assert_eq!(n.next_name(FileType::Jpeg), "jpg_000002.jpg");
    assert_eq!(n.next_name(FileType::Png), "png_000001.png");
    assert_eq!(n.next_name(FileType::SevenZip), "7z_000001.7z");
}

#[test]
fn scan_chunk_reads_and_scans() {
    let img = jpeg_image(4096, 512, Some(900));
    let mut reader = MemReader::new(img);
    let mut config = CarverConfig::default();
    config.chunk_size = 2048;
    config.overlap_size = 1024;
    let sigs = vec![FileType::Jpeg.get_signature()];
    let r = DiskCarver::scan_chunk(&mut reader, 0, 4096, &sigs, &config).unwrap();
    assert_eq!(r.len(), 1);
    assert_eq!(r[0].start_offset, 512);
    assert_eq!(r[0].end_offset, 902);
    let r2 = DiskCarver::scan_chunk(&mut reader, 2048, 4096, &sigs, &config).unwrap();
    assert!(r2.is_empty());
    let r3 = DiskCarver::scan_chunk(&mut reader, 1024, 4096, &sigs, &config).unwrap();
    assert_eq!(r3.len(), 1);
    assert_eq!(r3[0].start_offset, 512);
}

#[test]
fn chunk_plan_uses_configuration() {
    let mut config = CarverConfig::default();
    config.chunk_size = 2048;
    config.overlap_size = 1024;
    let carver = DiskCarver::new(config);
    assert_eq!(carver.chunk_plan(4096), vec![0, 1024, 2048]);
}

#[test]
fn init_filesystem_without_metadata_finds_nothing() {
    let mut reader = MemReader::new(vec![0u8; 4096]);
    let mut carver = DiskCarver::new(CarverConfig::default());
    carver.init_filesystem(&mut reader);
    assert!(!carver.has_filesystem());
    assert_eq!(carver.get_stats().detected_fs, FileSystemType::Unknown);
}

#[test]
fn recovery_without_filesystem_copies_range() {
    let mut reader = MemReader::new(vec![7u8; 1024]);
    let mut carver = DiskCarver::new(CarverConfig::default());
    let mut m = record(FileType::Jpeg, 0);
    match carver.begin_recovery(&mut reader, &mut m) {
        CarveAction::Copy(mut job, phase) => {
            assert_eq!(phase, CarvePhase::Range);
            let block = job.next_block(&mut reader).unwrap().unwrap();
            assert_eq!(block, vec![7u8; 200]);
            assert!(job.next_block(&mut reader).unwrap().is_none());
            let hashes = job.finish();
            assert!(hashes.0.is_some() && hashes.1.is_some());
            let next = carver.copy_succeeded(&mut m, phase, hashes, PathBuf::from("out/jpg_000001.jpg"));
            assert!(matches!(next, CarveAction::Done));
        }
        CarveAction::Done => panic!("expected a copy"),
    }
    assert!(m.recovered);
    assert_eq!(m.output_path, Some(PathBuf::from("out/jpg_000001.jpg")));
    assert_eq!(carver.get_stats().successful_recoveries, 1);
    assert_eq!(carver.get_stats().fs_rebuilt_count, 0);
}

#[test]
fn recovery_without_fallback_leaves_record() {
    let mut reader = MemReader::new(vec![0u8; 1024]);
    let mut config = CarverConfig::default();
    config.fs_fallback = false;
    let mut carver = DiskCarver::new(config);
    let mut m = record(FileType::Gif, 512);
    assert!(matches!(carver.begin_recovery(&mut reader, &mut m), CarveAction::Done));
    assert!(!m.recovered);
    assert_eq!(m.start_offset, 512);
}

#[test]
fn failed_copies_are_counted_or_retried() {
    let mut carver = DiskCarver::new(CarverConfig::default());
    let m = record(FileType::Bmp, 0);
    assert!(matches!(carver.copy_failed(&m, CarvePhase::Range), CarveAction::Done));
    assert_eq!(carver.get_stats().failed_recoveries, 1);
    match carver.copy_failed(&m, CarvePhase::Chain) {
        CarveAction::Copy(_, p) => assert_eq!(p, CarvePhase::Fallback),
        CarveAction::Done => panic!("expected a fallback copy"),
    }
    assert_eq!(carver.get_stats().failed_recoveries, 1);
}

#[test]
fn fallback_success_drops_chain_fields() {
    let mut carver = DiskCarver::new(CarverConfig::default());
    let mut m = record(FileType::Bmp, 0);
    m.fs_rebuilt = true;
    m.is_fragmented = true;
    m.cluster_count = 4;
    m.fs_type = FileSystemType::Fat32;
    carver.copy_succeeded(&mut m, CarvePhase::Fallback, (Some("a".to_string()), None), PathBuf::from("x"));
    assert!(m.recovered && !m.fs_rebuilt && !m.is_fragmented);
    assert_eq!(m.cluster_count, 0);
    assert_eq!(m.fs_type, FileSystemType::Unknown);
    assert_eq!(m.md5_hash, Some("a".to_string()));
    assert_eq!(carver.get_stats().fs_rebuilt_count, 0);
}

#[test]
fn chain_success_counts_rebuilt_files() {
    let mut carver = DiskCarver::new(CarverConfig::default());
    let mut m = record(FileType::Bmp, 0);
    m.fs_rebuilt = true;
    m.is_fragmented = true;
    carver.copy_succeeded(&mut m, CarvePhase::Chain, (None, None), PathBuf::from("y"));
    let s = carver.get_stats();
    assert_eq!((s.successful_recoveries, s.fs_rebuilt_count, s.fragmented_count, s.contiguous_count), (1, 1, 1, 0));
}

#[test]
fn single_file_copy_near_the_end_of_positions_reads_nothing() {
    let mut reader = MemReader::new(vec![1u8; 16]);
    let mut job = DiskCarver::carve_single_file(u64::MAX - 10, 100, false);
    assert!(job.next_block(&mut reader).unwrap().is_none());
    assert_eq!(job.finish(), (None, None));
}

#[test]
fn store_carved_replaces_records() {
    let mut carver = DiskCarver::new(CarverConfig::default());
    carver.record_chunk(vec![record(FileType::Jpeg, 0)], 10, 10);
    let mut carved = carver.get_matches();
    carved[0].recovered = true;
    carved[0].output_path = Some(PathBuf::from("out/jpg_000001.jpg"));
    carver.store_carved(carved);
    let again = carver.get_matches();
    assert!(again[0].recovered);
    assert_eq!(again[0].output_path, Some(PathBuf::from("out/jpg_000001.jpg")));
}

#[test]
fn chunk_plan_covers_every_byte() {
    let (total, chunk, overlap) = (1000u64, 64u64, 16u64);
    let offsets = chunk_offsets(total, chunk, overlap);
    for p in 0..total {
        assert!(offsets.iter().any(|&o| o <= p && p < o + chunk), "byte {} uncovered", p);
    }
}

#[test]
fn chunk_windows_hold_ranges_up_to_the_overlap() {
    let (total, chunk, overlap) = (1000u64, 64u64, 16u64);
    let offsets = chunk_offsets(total, chunk, overlap);
    for a in 0..total - overlap {
        let held = offsets.iter().any(|&o| {
            let start = o.saturating_sub(overlap);
            let end = (o + chunk + overlap).min(total);
            start <= a && a + overlap <= end
        });
        assert!(held, "range at {} split", a);
    }
}

#[test]
fn recording_a_chunk_twice_adds_nothing() {
    let mut carver = DiskCarver::new(CarverConfig::default());
    let local = vec![record(FileType::Jpeg, 0), record(FileType::Jpeg, 4096), record(FileType::Png, 10)];
    carver.record_chunk(local.clone(), 0, 8192);
    let once = carver.get_matches();
    carver.record_chunk(local, 0, 8192);
    let twice = carver.get_matches();
    assert_eq!(once.len(), 3);
    assert_eq!(twice.len(), 3);
    assert_eq!(carver.get_stats().total_matches, 3);
}

#[test]
fn file_names_never_repeat_within_a_type() {
    let mut n = FileNamer::new();
    let mut seen = std::collections::HashSet::new();
    for _ in 0..2000 {
        assert!(seen.insert(n.next_name(FileType::Pdf)));
    }
    assert!(seen.contains("pdf_001000.pdf"));
    assert!(seen.contains("pdf_002000.pdf"));
}

#[test]
fn chunk_read_covers_the_overlap_on_both_sides() {
    let data: Vec<u8> = (0..2000u32).map(|i| (i % 251) as u8).collect();
    let mut reader = MemReader::new(data.clone());
    let (buf, start, end) = read_chunk_with_overlap(&mut reader, 1000, 100, 50, 2000).unwrap();
    assert_eq!((start, end), (950, 1150));
    assert_eq!(buf, data[950..1150].to_vec());
    let (tail, s2, e2) = read_chunk_with_overlap(&mut reader, 1950, 100, 50, 2000).unwrap();
    assert_eq!((s2, e2), (1900, 2000));
    assert_eq!(tail, data[1900..2000].to_vec());
}
