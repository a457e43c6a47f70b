use disk_carver::file_types::{get_all_signatures, get_max_footer_length, get_max_header_length, FileType};

#[test]
fn all_types_lists_thirty_types_in_order() {
    let types = FileType::all_types();
    assert_eq!(types.len(), 30);
    assert_eq!(types[0], FileType::Jpeg);
    assert_eq!(types[1], FileType::Png);
    assert_eq!(types[29], FileType::Sqlite);
}

#[test]
fn jpeg_signature_fields() {
    let sig = FileType::Jpeg.get_signature();
    assert_eq!(sig.file_type, FileType::Jpeg);
    assert_eq!(sig.extension, "jpg");
    assert_eq!(sig.header, &[0xFF, 0xD8, 0xFF]);
    assert_eq!(sig.footer, Some(&[0xFF, 0xD9][..]));
    assert_eq!(sig.min_size, 100);
    assert_eq!(sig.max_size, 100 * 1024 * 1024);
}

#[test]
fn png_signature_has_eight_byte_header() {
    let sig = FileType::Png.get_signature();
    assert_eq!(sig.extension, "png");
    assert_eq!(sig.header.len(), 8);
    assert_eq!(sig.header[0], 0x89);
}

#[test]
fn all_signatures_follow_all_types() {
    let sigs = get_all_signatures();
    let types = FileType::all_types();
    assert_eq!(sigs.len(), types.len());
    for (s, t) in sigs.iter().zip(types.iter()) {
        assert_eq!(s.file_type, *t);
        assert!(s.min_size <= s.max_size);
        assert!(!s.header.is_empty());
    }
}

#[test]
fn longest_header_and_footer_are_eight_bytes() {
    assert_eq!(get_max_header_length(), 8);
    assert_eq!(get_max_footer_length(), 8);
    let sigs = get_all_signatures();
    assert!(sigs.iter().all(|s| s.header.len() <= 8));
    assert!(sigs.iter().all(|s| s.footer.map(|f| f.len()).unwrap_or(0) <= 8));
}

#[test]
fn display_string_is_description() {
    assert_eq!(FileType::Jpeg.to_display_string(), FileType::Jpeg.get_signature().description.to_string());
    assert_eq!(FileType::Pdf.to_display_string(), FileType::Pdf.get_signature().description.to_string());
}

#[test]
fn type_numbers_stand_for_their_types() {
    for ft in FileType::all_types() {
        assert_eq!(FileType::from_code(ft.code()), Some(*ft));
    }
    assert_eq!(FileType::Jpeg.code(), 0);
    assert_eq!(FileType::from_code(30), None);
}
