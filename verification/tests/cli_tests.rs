use disk_carver::cli::{duration_text, format_size, parse_file_type, report_totals, signature_hex, DurationText, ScanArgs};
use disk_carver::file_types::FileType;
use std::path::PathBuf;

fn scan_args(types: &[&str]) -> ScanArgs {
    ScanArgs {
        image: PathBuf::from("disk.dd"),
        output: PathBuf::from("./recovered"),
        file_types: types.iter().map(|s| s.to_string()).collect(),
        threads: None,
        block_size_kb: 65536,
        no_sector_align: false,
        no_hash: false,
        min_size: 100,
        max_size: 10 * 1024 * 1024 * 1024,
        csv_report: None,
        json_report: None,
        case_info: None,
        examiner: None,
        scan_only: false,
        no_fs_metadata: false,
        no_fs_fallback: false,
        partition_offset: 0,
    }
}

#[test]
fn parse_file_type_ignores_case() {
    assert_eq!(parse_file_type("JPG"), Some(FileType::Jpeg));
    assert_eq!(parse_file_type("jpeg"), Some(FileType::Jpeg));
    assert_eq!(parse_file_type("Png"), Some(FileType::Png));
    assert_eq!(parse_file_type("7Z"), Some(FileType::SevenZip));
    assert_eq!(parse_file_type("SQLite"), Some(FileType::Sqlite));
    assert_eq!(parse_file_type("db"), Some(FileType::Sqlite));
}

#[test]
fn parse_file_type_rejects_unknown_names() {
    assert_eq!(parse_file_type("vmdk"), None);
    assert_eq!(parse_file_type(""), None);
    assert_eq!(parse_file_type("jpgx"), None);
}

#[test]
fn selected_types_none_without_names() {
    assert_eq!(scan_args(&[]).get_selected_types(), None);
}

#[test]
fn selected_types_drop_unknown_names() {
    assert_eq!(scan_args(&["jpg", "nothing", "PDF"]).get_selected_types(), Some(vec![FileType::Jpeg, FileType::Pdf]));
}

#[test]
fn selected_types_none_when_all_unknown() {
    assert_eq!(scan_args(&["nothing", "else"]).get_selected_types(), None);
}

#[test]
fn format_size_uses_whole_units() {
    assert_eq!(format_size(0), "0 字节");
    assert_eq!(format_size(1023), "1023 字节");
    assert_eq!(format_size(1024), "1 KB");
    assert_eq!(format_size(5 * 1024 * 1024 + 7), "5 MB");
    assert_eq!(format_size(3 * 1024 * 1024 * 1024), "3 GB");
    assert_eq!(format_size(100 * 1024 * 1024), "100 MB");
}

#[test]
fn signature_hex_spaces_upper_case_pairs() {
    assert_eq!(signature_hex(&[0xFF, 0xD8, 0xFF]), "FF D8 FF");
    assert_eq!(signature_hex(&[0x0A]), "0A");
    assert_eq!(signature_hex(&[]), "");
    assert_eq!(signature_hex(FileType::Png.get_signature().header), "89 50 4E 47 0D 0A 1A 0A");
}

#[test]
fn duration_text_picks_largest_unit() {
    assert_eq!(duration_text(3725, 10, 3725010), DurationText::HoursMinutesSeconds(1, 2, 5));
    assert_eq!(duration_text(125, 0, 125000), DurationText::MinutesSeconds(2, 5));
    assert_eq!(duration_text(7, 42, 7042), DurationText::SecondsMillis(7, 42));
    assert_eq!(duration_text(0, 250, 250), DurationText::Millis(250));
}

#[test]
fn type_names_ignore_ascii_case() {
    assert_eq!(parse_file_type("JPEG"), Some(FileType::Jpeg));
    assert_eq!(parse_file_type("tif"), Some(FileType::Tiff));
    assert_eq!(parse_file_type("db"), Some(FileType::Sqlite));
    assert_eq!(parse_file_type("7zip"), Some(FileType::SevenZip));
    assert_eq!(parse_file_type("Pe"), Some(FileType::Exe));
    assert_eq!(parse_file_type("jpegx"), None);
    assert_eq!(parse_file_type(""), None);
    let args = scan_args(&["JPG", "foo", "png", "jpeg"]);
    assert_eq!(args.get_selected_types(), Some(vec![FileType::Jpeg, FileType::Png, FileType::Jpeg]));
}

#[test]
fn every_extension_names_its_type() {
    for ft in FileType::all_types() {
        let ext = ft.get_signature().extension;
        assert_eq!(parse_file_type(ext), Some(*ft));
        assert_eq!(parse_file_type(&ext.to_uppercase()), Some(*ft));
    }
}

#[test]
fn report_totals_count_each_extension_once() {
    let files = vec![
        ("jpg".to_string(), 100u64),
        ("png".to_string(), 50),
        ("jpg".to_string(), 25),
        ("unknown".to_string(), 0),
    ];
    let (tally, total) = report_totals(&files);
    assert_eq!(total, 175);
    assert_eq!(tally, vec![("jpg".to_string(), 2), ("png".to_string(), 1), ("unknown".to_string(), 1)]);
    let (none, zero) = report_totals(&Vec::new());
    assert!(none.is_empty());
    assert_eq!(zero, 0);
}

#[test]
fn format_size_writes_decimal_digits() {
    assert_eq!(format_size(100), "100 字节");
    assert_eq!(format_size(1536), "1 KB");
    assert_eq!(format_size(524288000), "500 MB");
    assert_eq!(format_size(10737418240), "10 GB");
    assert_eq!(format_size(u64::MAX), "17179869183 GB");
}
