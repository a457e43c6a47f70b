//! Command-line arguments and their interpretation: type names, the
//! selected file types, and human-readable sizes.

use vstd::prelude::*;
use vstd::string::StringExecFns;

use crate::file_types::FileType;

verus! {

/// The command line.
#[derive(Debug)]
pub struct Cli {
    pub command: Command,
    pub verbose: bool,
    pub quiet: bool,
}

/// The subcommands.
#[derive(Debug)]
pub enum Command {
    /// Scan an image and recover files.
    Scan(ScanArgs),
    /// List the supported file types.
    ListTypes,
    /// Show what is known of an image.
    Info(InfoArgs),
    /// Report on a directory of recovered files.
    Report(ReportArgs),
}

/// Arguments of a scan.
#[derive(Debug)]
pub struct ScanArgs {
    pub image: std::path::PathBuf,
    pub output: std::path::PathBuf,
    pub file_types: Vec<String>,
    pub threads: Option<usize>,
    pub block_size_kb: usize,
    pub no_sector_align: bool,
    pub no_hash: bool,
    pub min_size: u64,
    pub max_size: u64,
    pub csv_report: Option<std::path::PathBuf>,
    pub json_report: Option<std::path::PathBuf>,
    pub case_info: Option<String>,
    pub examiner: Option<String>,
    pub scan_only: bool,
    pub no_fs_metadata: bool,
    pub no_fs_fallback: bool,
    pub partition_offset: u64,
}

/// Arguments of `info`.
#[derive(Debug)]
pub struct InfoArgs {
    pub image: std::path::PathBuf,
}

/// Arguments of `report`.
#[derive(Debug)]
pub struct ReportArgs {
    pub recovered_dir: std::path::PathBuf,
    pub output: Option<std::path::PathBuf>,
    pub case_info: Option<String>,
    pub format: ReportFormat,
    pub no_hash: bool,
}

/// Output format of a report.
#[derive(Debug, Clone, Copy, PartialEq, Eq, Structural)]
pub enum ReportFormat {
    Text,
    Csv,
    Json,
    Html,
}

/// The lower-case form of `s`, as `str::to_lowercase` computes it.
pub uninterp spec fn lowercase_of(s: Seq<char>) -> Seq<char>;

/// `s` with the ASCII capitals `A`..=`Z` replaced by their small letters.
pub open spec fn ascii_lowercase(s: Seq<char>) -> Seq<char> {
    s.map_values(|c: char| if 'A' <= c && c <= 'Z' { ((c as u32) + 32) as char } else { c })
}

/// The lower-case form of a name `s`: where `s` is ASCII, `s` with `A`..=`Z`
/// made small; otherwise its Unicode lower-case form.
pub open spec fn name_lowercase(s: Seq<char>) -> Seq<char> {
    if vstd::utf8::is_ascii_chars(s) {
        ascii_lowercase(s)
    } else {
        lowercase_of(s)
    }
}

/// Calls `str::to_lowercase`: the Unicode lower-case form of `s`, which on
/// ASCII text only turns `A`..=`Z` into `a`..=`z`.
#[verifier::external_body]
pub(crate) fn to_lowercase(s: &str) -> (r: String)
    ensures
        r@ == lowercase_of(s@),
        vstd::string::is_ascii(s) ==> r@ == ascii_lowercase(s@),
{
    s.to_lowercase()
}

/// Whether `s` reads `lit`.
pub(crate) fn same_text(s: &str, lit: &str) -> (r: bool)
    ensures
        r == (s@ == lit@),
{
    s.to_owned() == lit.to_owned()
}

/// The file type a lower-case type name stands for.
pub open spec fn file_type_named(s: Seq<char>) -> Option<FileType> {
    if s == "jpg"@ || s == "jpeg"@ {
        Some(FileType::Jpeg)
    } else if s == "png"@ {
        Some(FileType::Png)
    } else if s == "gif"@ {
        Some(FileType::Gif)
    } else if s == "pdf"@ {
        Some(FileType::Pdf)
    } else if s == "zip"@ {
        Some(FileType::Zip)
    } else if s == "rar"@ {
        Some(FileType::Rar)
    } else if s == "7z"@ || s == "7zip"@ || s == "sevenzip"@ {
        Some(FileType::SevenZip)
    } else if s == "tar"@ {
        Some(FileType::Tar)
    } else if s == "gz"@ || s == "gzip"@ {
        Some(FileType::Gzip)
    } else if s == "bz2"@ || s == "bzip2"@ {
        Some(FileType::Bzip2)
    } else if s == "xz"@ {
        Some(FileType::Xz)
    } else if s == "mpeg"@ || s == "mpg"@ {
        Some(FileType::Mpeg)
    } else if s == "avi"@ {
        Some(FileType::Avi)
    } else if s == "mp4"@ {
        Some(FileType::Mp4)
    } else if s == "mp3"@ {
        Some(FileType::Mp3)
    } else if s == "wav"@ {
        Some(FileType::Wav)
    } else if s == "bmp"@ {
        Some(FileType::Bmp)
    } else if s == "tiff"@ || s == "tif"@ {
        Some(FileType::Tiff)
    } else if s == "rtf"@ {
        Some(FileType::Rtf)
    } else if s == "exe"@ || s == "pe"@ {
        Some(FileType::Exe)
    } else if s == "elf"@ {
        Some(FileType::Elf)
    } else if s == "dmg"@ {
        Some(FileType::Dmg)
    } else if s == "iso"@ {
        Some(FileType::Iso)
    } else if s == "doc"@ {
        Some(FileType::Doc)
    } else if s == "xls"@ {
        Some(FileType::Xls)
    } else if s == "ppt"@ {
        Some(FileType::Ppt)
    } else if s == "docx"@ {
        Some(FileType::Docx)
    } else if s == "xlsx"@ {
        Some(FileType::Xlsx)
    } else if s == "pptx"@ {
        Some(FileType::Pptx)
    } else if s == "sqlite"@ || s == "db"@ {
        Some(FileType::Sqlite)
    } else {
        None
    }
}

/// The file type that the lower-case type name `name` stands for.
pub fn file_type_for_name(name: &str) -> (r: Option<FileType>)
    ensures
        r == file_type_named(name@),
{
    if same_text(name, "jpg") || same_text(name, "jpeg") {
        Some(FileType::Jpeg)
    } else if same_text(name, "png") {
        Some(FileType::Png)
    } else if same_text(name, "gif") {
        Some(FileType::Gif)
    } else if same_text(name, "pdf") {
        Some(FileType::Pdf)
    } else if same_text(name, "zip") {
        Some(FileType::Zip)
    } else if same_text(name, "rar") {
        Some(FileType::Rar)
    } else if same_text(name, "7z") || same_text(name, "7zip") || same_text(name, "sevenzip") {
        Some(FileType::SevenZip)
    } else if same_text(name, "tar") {
        Some(FileType::Tar)
    } else if same_text(name, "gz") || same_text(name, "gzip") {
        Some(FileType::Gzip)
    } else if same_text(name, "bz2") || same_text(name, "bzip2") {
        Some(FileType::Bzip2)
    } else if same_text(name, "xz") {
        Some(FileType::Xz)
    } else if same_text(name, "mpeg") || same_text(name, "mpg") {
        Some(FileType::Mpeg)
    } else if same_text(name, "avi") {
        Some(FileType::Avi)
    } else if same_text(name, "mp4") {
        Some(FileType::Mp4)
    } else if same_text(name, "mp3") {
        Some(FileType::Mp3)
    } else if same_text(name, "wav") {
        Some(FileType::Wav)
    } else if same_text(name, "bmp") {
        Some(FileType::Bmp)
    } else if same_text(name, "tiff") || same_text(name, "tif") {
        Some(FileType::Tiff)
    } else if same_text(name, "rtf") {
        Some(FileType::Rtf)
    } else if same_text(name, "exe") || same_text(name, "pe") {
        Some(FileType::Exe)
    } else if same_text(name, "elf") {
        Some(FileType::Elf)
    } else if same_text(name, "dmg") {
        Some(FileType::Dmg)
    } else if same_text(name, "iso") {
        Some(FileType::Iso)
    } else if same_text(name, "doc") {
        Some(FileType::Doc)
    } else if same_text(name, "xls") {
        Some(FileType::Xls)
    } else if same_text(name, "ppt") {
        Some(FileType::Ppt)
    } else if same_text(name, "docx") {
        Some(FileType::Docx)
    } else if same_text(name, "xlsx") {
        Some(FileType::Xlsx)
    } else if same_text(name, "pptx") {
        Some(FileType::Pptx)
    } else if same_text(name, "sqlite") || same_text(name, "db") {
        Some(FileType::Sqlite)
    } else {
        None
    }
}

/// The file type that the type name `input` stands for, in any case.
pub fn parse_file_type(input: &str) -> (r: Option<FileType>)
    ensures
        r == file_type_named(name_lowercase(input@)),
{
    let lower = to_lowercase(input);
    file_type_for_name(lower.as_str())
}

/// The file types that `names` stand for, in order, unknown names left out.
pub open spec fn named_types(names: Seq<String>) -> Seq<FileType>
    decreases names.len(),
{
    if names.len() == 0 {
        Seq::empty()
    } else {
        let rest = named_types(names.drop_last());
        match file_type_named(name_lowercase(names.last()@)) {
            Some(t) => rest.push(t),
            None => rest,
        }
    }
}

impl ScanArgs {
    /// The file types chosen with `--type`: `None` when none was named or
    /// none of the names is known, so that every type is scanned.
    pub fn get_selected_types(&self) -> (r: Option<Vec<FileType>>)
        ensures
            named_types(self.file_types@).len() == 0 ==> r is None,
            named_types(self.file_types@).len() > 0 ==> (r matches Some(v) && v@ == named_types(self.file_types@)),
    {
        if self.file_types.len() == 0 {
            return None;
        }
        let mut types: Vec<FileType> = Vec::new();
        let mut i: usize = 0;
        while i < self.file_types.len()
            invariant
                i <= self.file_types@.len(),
                types@ == named_types(self.file_types@.take(i as int)),
            decreases self.file_types@.len() - i,
        {
            proof { assert(self.file_types@.take(i + 1).drop_last() =~= self.file_types@.take(i as int)); }
            if let Some(ft) = parse_file_type(self.file_types[i].as_str()) {
                types.push(ft);
            }
            i = i + 1;
        }
        proof { assert(self.file_types@.take(i as int) =~= self.file_types@); }
        if types.len() == 0 {
            None
        } else {
            Some(types)
        }
    }
}

/// Binary size units.
#[derive(Debug, Clone, Copy, PartialEq, Eq, Structural)]
pub enum SizeUnit {
    Bytes,
    KiB,
    MiB,
    GiB,
}

/// The largest unit not above `bytes` (bytes below 1 KiB), and `bytes` in
/// whole such units.
pub open spec fn size_in_units_spec(bytes: u64) -> (u64, SizeUnit) {
    if bytes >= 1073741824 {
        ((bytes / 1073741824) as u64, SizeUnit::GiB)
    } else if bytes >= 1048576 {
        ((bytes / 1048576) as u64, SizeUnit::MiB)
    } else if bytes >= 1024 {
        ((bytes / 1024) as u64, SizeUnit::KiB)
    } else {
        (bytes, SizeUnit::Bytes)
    }
}

/// Bytes in a KiB.
pub const KB: u64 = 1024;
/// Bytes in a MiB.
pub const MB: u64 = 1048576;
/// Bytes in a GiB.
pub const GB: u64 = 1073741824;

/// `bytes` in whole units of the largest unit not above it.
pub fn size_in_units(bytes: u64) -> (r: (u64, SizeUnit))
    ensures
        r == size_in_units_spec(bytes),
{
    if bytes >= GB {
        (bytes / GB, SizeUnit::GiB)
    } else if bytes >= MB {
        (bytes / MB, SizeUnit::MiB)
    } else if bytes >= KB {
        (bytes / KB, SizeUnit::KiB)
    } else {
        (bytes, SizeUnit::Bytes)
    }
}

/// The suffix a size is written with.
pub open spec fn unit_suffix(u: SizeUnit) -> &'static str {
    match u {
        SizeUnit::GiB => " GB",
        SizeUnit::MiB => " MB",
        SizeUnit::KiB => " KB",
        SizeUnit::Bytes => " 字节",
    }
}

/// The decimal digits of `n`, most significant first, without leading zeros
/// (`0` for zero).
pub open spec fn decimal_text(n: nat) -> Seq<char>
    decreases n,
{
    if n < 10 {
        seq![upper_hex_digit(n as int)]
    } else {
        decimal_text(n / 10) + seq![upper_hex_digit((n % 10) as int)]
    }
}

/// The number that the decimal digits `s` (most significant first) write.
pub open spec fn decimal_value(s: Seq<char>) -> int
    decreases s.len(),
{
    if s.len() == 0 {
        0
    } else {
        10 * decimal_value(s.drop_last()) + (s.last() as int - '0' as int)
    }
}

/// The decimal text of a number reads back as that number, in digits `0` to
/// `9` only, the first of them not `0` unless the number is zero.
pub proof fn lemma_decimal_text_reads_back(n: nat)
    ensures
        decimal_value(decimal_text(n)) == n,
        decimal_text(n).len() >= 1,
        forall|i: int| 0 <= i < decimal_text(n).len() ==> '0' <= #[trigger] decimal_text(n)[i] <= '9',
        n > 0 ==> decimal_text(n)[0] != '0',
    decreases n,
{
    if n >= 10 {
        lemma_decimal_text_reads_back(n / 10);
        let s = decimal_text(n);
        let t = decimal_text(n / 10);
        assert(s.drop_last() =~= t);
        assert(s[0] == t[0]);
        assert forall|i: int| 0 <= i < s.len() implies '0' <= #[trigger] s[i] <= '9' by {
            if i < t.len() {
                assert(s[i] == t[i]);
            }
        }
        assert(s.last() == upper_hex_digit((n % 10) as int));
        assert((s.last() as int) - ('0' as int) == n % 10);
        assert(n == 10 * (n / 10) + n % 10);
        assert(decimal_value(s) == 10 * decimal_value(s.drop_last()) + (s.last() as int - '0' as int));
        assert(decimal_value(s.drop_last()) == n / 10);
    } else {
        let s = decimal_text(n);
        assert(s.drop_last() =~= Seq::<char>::empty());
        assert((s.last() as int) - ('0' as int) == n);
        assert(decimal_value(s.drop_last()) == 0);
        assert(decimal_value(s) == 10 * decimal_value(s.drop_last()) + (s.last() as int - '0' as int));
    }
}

/// The decimal text of `n` (see [`decimal_text`]).
fn decimal_string(n: u64) -> (s: String)
    ensures
        s@ == decimal_text(n as nat),
    decreases n,
{
    if n < 10 {
        let mut s = String::new();
        s.append(upper_hex_text(n as u8));
        proof { assert(s@ =~= seq![upper_hex_digit(n as int)]); }
        s
    } else {
        let mut s = decimal_string(n / 10);
        s.append(upper_hex_text((n % 10) as u8));
        s
    }
}

/// `bytes` written in whole units of the largest unit not above it, such as
/// `3 MB`: the amount in decimal digits, then the unit.
pub fn format_size(bytes: u64) -> (s: String)
    ensures
        s@ == decimal_text(size_in_units_spec(bytes).0 as nat) + unit_suffix(size_in_units_spec(bytes).1)@,
{
    let (amount, unit) = size_in_units(bytes);
    let digits = decimal_string(amount);
    let suffix = match unit {
        SizeUnit::GiB => " GB",
        SizeUnit::MiB => " MB",
        SizeUnit::KiB => " KB",
        SizeUnit::Bytes => " 字节",
    };
    let s = digits.concat(suffix);
    s
}

/// The upper-case hexadecimal digit `d` (below 16).
pub open spec fn upper_hex_digit(d: int) -> char {
    if d < 10 {
        (('0' as int) + d) as char
    } else {
        (('A' as int) + d - 10) as char
    }
}

/// `bytes` as upper-case hexadecimal pairs separated by single spaces, such
/// as `FF D8 FF`.
pub open spec fn spaced_hex(bytes: Seq<u8>) -> Seq<char>
    decreases bytes.len(),
{
    if bytes.len() == 0 {
        Seq::empty()
    } else {
        let pair = seq![upper_hex_digit(bytes.last() as int / 16), upper_hex_digit(bytes.last() as int % 16)];
        if bytes.len() == 1 {
            pair
        } else {
            spaced_hex(bytes.drop_last()) + seq![' '] + pair
        }
    }
}

/// The text of hexadecimal digit `d`.
fn upper_hex_text(d: u8) -> (s: &'static str)
    requires
        d < 16,
    ensures
        s@ == seq![upper_hex_digit(d as int)],
{
    proof {
        reveal_strlit("0");
        reveal_strlit("1");
        reveal_strlit("2");
        reveal_strlit("3");
        reveal_strlit("4");
        reveal_strlit("5");
        reveal_strlit("6");
        reveal_strlit("7");
        reveal_strlit("8");
        reveal_strlit("9");
        reveal_strlit("A");
        reveal_strlit("B");
        reveal_strlit("C");
        reveal_strlit("D");
        reveal_strlit("E");
        reveal_strlit("F");
    }
    if d == 0 {
        "0"
    } else if d == 1 {
        "1"
    } else if d == 2 {
        "2"
    } else if d == 3 {
        "3"
    } else if d == 4 {
        "4"
    } else if d == 5 {
        "5"
    } else if d == 6 {
        "6"
    } else if d == 7 {
        "7"
    } else if d == 8 {
        "8"
    } else if d == 9 {
        "9"
    } else if d == 10 {
        "A"
    } else if d == 11 {
        "B"
    } else if d == 12 {
        "C"
    } else if d == 13 {
        "D"
    } else if d == 14 {
        "E"
    } else {
        "F"
    }
}

/// A signature's bytes as they are listed: upper-case hexadecimal pairs
/// separated by spaces.
pub fn signature_hex(bytes: &[u8]) -> (s: String)
    ensures
        s@ == spaced_hex(bytes@),
{
    let mut s = String::new();
    let mut i: usize = 0;
    proof { reveal_strlit(" "); }
    while i < bytes.len()
        invariant
            i <= bytes@.len(),
            s@ == spaced_hex(bytes@.take(i as int)),
        decreases bytes@.len() - i,
    {
        let b = bytes[i];
        let ghost prefix = bytes@.take(i + 1);
        proof {
            assert(prefix.drop_last() =~= bytes@.take(i as int));
            assert(prefix.last() == b);
            assert(prefix.len() == i + 1);
            reveal_strlit(" ");
        }
        if i > 0 {
            s.append(" ");
        }
        s.append(upper_hex_text(b / 16));
        s.append(upper_hex_text(b % 16));
        i = i + 1;
    }
    proof { assert(bytes@.take(i as int) =~= bytes@); }
    s
}

/// How an elapsed time is written: hours, minutes and seconds from an hour
/// on; minutes and seconds from a minute on; seconds and milliseconds from a
/// second on; milliseconds below that.
#[derive(Debug, Clone, Copy, PartialEq, Eq, Structural)]
pub enum DurationText {
    HoursMinutesSeconds(u64, u64, u64),
    MinutesSeconds(u64, u64),
    SecondsMillis(u64, u32),
    Millis(u128),
}

/// How a time of `seconds` whole seconds plus `subsec_millis` milliseconds
/// (`total_millis` in all) is written.
pub fn duration_text(seconds: u64, subsec_millis: u32, total_millis: u128) -> (t: DurationText)
    ensures
        seconds >= 3600 ==> t == DurationText::HoursMinutesSeconds(seconds / 3600, (seconds % 3600) / 60, seconds % 60),
        60 <= seconds < 3600 ==> t == DurationText::MinutesSeconds(seconds / 60, seconds % 60),
        0 < seconds < 60 ==> t == DurationText::SecondsMillis(seconds, subsec_millis),
        seconds == 0 ==> t == DurationText::Millis(total_millis),
{
    let hours = seconds / 3600;
    let minutes = (seconds % 3600) / 60;
    let secs = seconds % 60;
    if hours > 0 {
        DurationText::HoursMinutesSeconds(hours, minutes, secs)
    } else if minutes > 0 {
        DurationText::MinutesSeconds(minutes, secs)
    } else if secs > 0 {
        DurationText::SecondsMillis(secs, subsec_millis)
    } else {
        DurationText::Millis(total_millis)
    }
}

/// How many of the files `files` (extension, size) have the extension `ext`.
pub open spec fn files_with_extension(files: Seq<(String, u64)>, ext: Seq<char>) -> nat
    decreases files.len(),
{
    if files.len() == 0 {
        0
    } else {
        files_with_extension(files.drop_last(), ext) + if files.last().0@ == ext { 1nat } else { 0nat }
    }
}

/// The total size of the files `files` (extension, size).
pub open spec fn files_total_size(files: Seq<(String, u64)>) -> nat
    decreases files.len(),
{
    if files.len() == 0 {
        0
    } else {
        files_total_size(files.drop_last()) + files.last().1 as nat
    }
}

/// `tally` counts the files `files` by extension: each extension that a
/// file has appears once, with the number of files that have it, and no
/// other does.
pub open spec fn is_extension_tally(tally: Seq<(String, usize)>, files: Seq<(String, u64)>) -> bool {
    &&& forall|i: int, j: int| 0 <= i < j < tally.len() ==> (#[trigger] tally[i]).0@ != (#[trigger] tally[j]).0@
    &&& forall|i: int| 0 <= i < tally.len() ==> (#[trigger] tally[i]).1 == files_with_extension(files, tally[i].0@)
        && tally[i].1 > 0
    &&& forall|k: int| 0 <= k < files.len() ==> exists|i: int| 0 <= i < tally.len() && (#[trigger] tally[i]).0@ == (#[trigger] files[k]).0@
}

/// Counting one more file adds one to the count of its extension only.
proof fn lemma_files_with_extension_push(files: Seq<(String, u64)>, f: (String, u64), ext: Seq<char>)
    ensures
        files_with_extension(files.push(f), ext) == files_with_extension(files, ext) + if f.0@ == ext { 1nat } else { 0nat },
        files_total_size(files.push(f)) == files_total_size(files) + f.1,
{
    assert(files.push(f).drop_last() =~= files);
}

/// No file has an extension that none of them has.
proof fn lemma_files_without_extension(files: Seq<(String, u64)>, ext: Seq<char>)
    requires
        forall|k: int| 0 <= k < files.len() ==> (#[trigger] files[k]).0@ != ext,
    ensures
        files_with_extension(files, ext) == 0,
    decreases files.len(),
{
    if files.len() > 0 {
        let d = files.drop_last();
        assert forall|k: int| 0 <= k < d.len() implies (#[trigger] d[k]).0@ != ext by {
            assert(d[k] == files[k]);
        }
        lemma_files_without_extension(d, ext);
    }
}

/// A prefix of the files is no larger in total than all of them.
proof fn lemma_total_size_prefix(files: Seq<(String, u64)>, n: int)
    requires
        0 <= n <= files.len(),
    ensures
        files_total_size(files.take(n)) <= files_total_size(files),
    decreases files.len(),
{
    if n < files.len() {
        assert(files.drop_last().take(n) =~= files.take(n));
        lemma_total_size_prefix(files.drop_last(), n);
    } else {
        assert(files.take(n) =~= files);
    }
}

/// The files of a report counted by extension, each extension once in the
/// order in which it first appears, and their total size.
pub fn report_totals(files: &Vec<(String, u64)>) -> (r: (Vec<(String, usize)>, u64))
    requires
        files_total_size(files@) <= u64::MAX,
    ensures
        is_extension_tally(r.0@, files@),
        r.1 == files_total_size(files@),
{
    let mut tally: Vec<(String, usize)> = Vec::new();
    let mut total: u64 = 0;
    let mut k: usize = 0;
    while k < files.len()
        invariant
            k <= files@.len(),
            files_total_size(files@) <= u64::MAX,
            is_extension_tally(tally@, files@.take(k as int)),
            total == files_total_size(files@.take(k as int)),
            tally@.len() <= k,
        decreases files@.len() - k,
    {
        let ghost prefix = files@.take(k as int);
        let ghost f = files@[k as int];
        let ghost before = tally@;
        proof {
            assert(files@.take(k + 1) =~= prefix.push(f));
            lemma_files_with_extension_push(prefix, f, f.0@);
            lemma_total_size_prefix(files@, k as int + 1);
        }
        let ext = files[k].0.as_str();
        total = total + files[k].1;
        let mut i: usize = 0;
        while i < tally.len()
            invariant
                i <= tally@.len(),
                tally@ == before,
                forall|j: int| 0 <= j < i ==> (#[trigger] tally@[j]).0@ != ext@,
            ensures
                i <= tally@.len(),
                tally@ == before,
                forall|j: int| 0 <= j < i ==> (#[trigger] tally@[j]).0@ != ext@,
                i < tally@.len() ==> tally@[i as int].0@ == ext@,
            decreases tally@.len() - i,
        {
            if same_text(tally[i].0.as_str(), ext) {
                break;
            }
            i = i + 1;
        }
        if i < tally.len() {
            let name = tally[i].0.clone();
            let count = tally[i].1;
            proof {
                assert(count == files_with_extension(prefix, f.0@));
                assert(count <= k) by {
                    lemma_files_count_bound(prefix, f.0@);
                }
            }
            tally[i] = (name, count + 1);
            proof {
                let next = prefix.push(f);
                assert forall|j: int| 0 <= j < tally@.len() implies (#[trigger] tally@[j]).1 == files_with_extension(next, tally@[j].0@)
                    && tally@[j].1 > 0 by {
                    lemma_files_with_extension_push(prefix, f, tally@[j].0@);
                    if j != i {
                        assert(tally@[j] == before[j]);
                    }
                }
                assert forall|a: int, b: int| 0 <= a < b < tally@.len() implies (#[trigger] tally@[a]).0@ != (#[trigger] tally@[b]).0@ by {
                    assert(tally@[a].0@ == before[a].0@ && tally@[b].0@ == before[b].0@);
                }
                assert forall|m: int| 0 <= m < next.len() implies exists|j: int| 0 <= j < tally@.len() && (#[trigger] tally@[j]).0@ == (#[trigger] next[m]).0@ by {
                    if m < prefix.len() {
                        assert(next[m] == prefix[m]);
                        let j = choose|j: int| 0 <= j < before.len() && (#[trigger] before[j]).0@ == (#[trigger] prefix[m]).0@;
                        assert(tally@[j].0@ == before[j].0@);
                    } else {
                        assert(tally@[i as int].0@ == next[m].0@);
                    }
                }
            }
        } else {
            tally.push((String::from_str(ext), 1));
            proof {
                let next = prefix.push(f);
                assert forall|m: int| 0 <= m < prefix.len() implies (#[trigger] prefix[m]).0@ != f.0@ by {
                    let j = choose|j: int| 0 <= j < before.len() && (#[trigger] before[j]).0@ == (#[trigger] prefix[m]).0@;
                }
                lemma_files_without_extension(prefix, f.0@);
                assert forall|j: int| 0 <= j < tally@.len() implies (#[trigger] tally@[j]).1 == files_with_extension(next, tally@[j].0@)
                    && tally@[j].1 > 0 by {
                    lemma_files_with_extension_push(prefix, f, tally@[j].0@);
                    if j < before.len() {
                        assert(tally@[j] == before[j]);
                    }
                }
                assert forall|a: int, b: int| 0 <= a < b < tally@.len() implies (#[trigger] tally@[a]).0@ != (#[trigger] tally@[b]).0@ by {
                    assert(tally@[a] == before[a]);
                    if b < before.len() {
                        assert(tally@[b] == before[b]);
                    }
                }
                assert forall|m: int| 0 <= m < next.len() implies exists|j: int| 0 <= j < tally@.len() && (#[trigger] tally@[j]).0@ == (#[trigger] next[m]).0@ by {
                    if m < prefix.len() {
                        assert(next[m] == prefix[m]);
                        let j = choose|j: int| 0 <= j < before.len() && (#[trigger] before[j]).0@ == (#[trigger] prefix[m]).0@;
                        assert(tally@[j] == before[j]);
                    } else {
                        assert(tally@[before.len() as int].0@ == next[m].0@);
                    }
                }
            }
        }
        k = k + 1;
    }
    proof { assert(files@.take(k as int) =~= files@); }
    (tally, total)
}

/// No extension is counted more often than there are files.
proof fn lemma_files_count_bound(files: Seq<(String, u64)>, ext: Seq<char>)
    ensures
        files_with_extension(files, ext) <= files.len(),
    decreases files.len(),
{
    if files.len() > 0 {
        lemma_files_count_bound(files.drop_last(), ext);
    }
}

} // verus!
