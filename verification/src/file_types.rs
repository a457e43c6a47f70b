//! The file types the carver recognises and their signatures: header and
//! footer magic bytes and plausible sizes.

use vstd::prelude::*;

verus! {

/// A recoverable file type.
#[derive(Debug, Clone, Copy, PartialEq, Eq, Hash, Structural)]
pub enum FileType {
    Jpeg,
    Png,
    Gif,
    Pdf,
    Zip,
    Rar,
    SevenZip,
    Tar,
    Gzip,
    Bzip2,
    Xz,
    Mpeg,
    Avi,
    Mp4,
    Mp3,
    Wav,
    Bmp,
    Tiff,
    Rtf,
    Exe,
    Elf,
    Dmg,
    Iso,
    Doc,
    Xls,
    Ppt,
    Docx,
    Xlsx,
    Pptx,
    Sqlite,
}

/// How a file type is recognised and how large its files may be.
#[derive(Debug, Clone, Copy)]
pub struct FileSignature {
    pub file_type: FileType,
    pub extension: &'static str,
    pub description: &'static str,
    pub header: &'static [u8],
    pub footer: Option<&'static [u8]>,
    pub min_size: u64,
    pub max_size: u64,
}

/// Every file type, in declaration order.
pub open spec fn all_file_types() -> Seq<FileType> {
    seq![
        FileType::Jpeg,
        FileType::Png,
        FileType::Gif,
        FileType::Pdf,
        FileType::Zip,
        FileType::Rar,
        FileType::SevenZip,
        FileType::Tar,
        FileType::Gzip,
        FileType::Bzip2,
        FileType::Xz,
        FileType::Mpeg,
        FileType::Avi,
        FileType::Mp4,
        FileType::Mp3,
        FileType::Wav,
        FileType::Bmp,
        FileType::Tiff,
        FileType::Rtf,
        FileType::Exe,
        FileType::Elf,
        FileType::Dmg,
        FileType::Iso,
        FileType::Doc,
        FileType::Xls,
        FileType::Ppt,
        FileType::Docx,
        FileType::Xlsx,
        FileType::Pptx,
        FileType::Sqlite,
    ]
}

/// File-name extension of type `t`.
pub open spec fn extension_of(t: FileType) -> &'static str {
    match t {
        FileType::Jpeg => "jpg",
        FileType::Png => "png",
        FileType::Gif => "gif",
        FileType::Pdf => "pdf",
        FileType::Zip => "zip",
        FileType::Rar => "rar",
        FileType::SevenZip => "7z",
        FileType::Tar => "tar",
        FileType::Gzip => "gz",
        FileType::Bzip2 => "bz2",
        FileType::Xz => "xz",
        FileType::Mpeg => "mpeg",
        FileType::Avi => "avi",
        FileType::Mp4 => "mp4",
        FileType::Mp3 => "mp3",
        FileType::Wav => "wav",
        FileType::Bmp => "bmp",
        FileType::Tiff => "tiff",
        FileType::Rtf => "rtf",
        FileType::Exe => "exe",
        FileType::Elf => "elf",
        FileType::Dmg => "dmg",
        FileType::Iso => "iso",
        FileType::Doc => "doc",
        FileType::Xls => "xls",
        FileType::Ppt => "ppt",
        FileType::Docx => "docx",
        FileType::Xlsx => "xlsx",
        FileType::Pptx => "pptx",
        FileType::Sqlite => "sqlite",
    }
}

/// Human-readable description of type `t`.
pub open spec fn description_of(t: FileType) -> &'static str {
    match t {
        FileType::Jpeg => "JPEG 图像",
        FileType::Png => "PNG 图像",
        FileType::Gif => "GIF 图像",
        FileType::Pdf => "PDF 文档",
        FileType::Zip => "ZIP 压缩包",
        FileType::Rar => "RAR 压缩包",
        FileType::SevenZip => "7-Zip 压缩包",
        FileType::Tar => "TAR 归档",
        FileType::Gzip => "GZIP 压缩",
        FileType::Bzip2 => "BZIP2 压缩",
        FileType::Xz => "XZ 压缩",
        FileType::Mpeg => "MPEG 视频",
        FileType::Avi => "AVI 视频",
        FileType::Mp4 => "MP4 视频",
        FileType::Mp3 => "MP3 音频",
        FileType::Wav => "WAV 音频",
        FileType::Bmp => "BMP 图像",
        FileType::Tiff => "TIFF 图像",
        FileType::Rtf => "RTF 文档",
        FileType::Exe => "Windows 可执行文件",
        FileType::Elf => "ELF 可执行文件",
        FileType::Dmg => "Apple DMG 镜像",
        FileType::Iso => "ISO 光盘镜像",
        FileType::Doc => "Microsoft Word 文档",
        FileType::Xls => "Microsoft Excel 表格",
        FileType::Ppt => "Microsoft PowerPoint 演示",
        FileType::Docx => "Microsoft Word 2007+ 文档",
        FileType::Xlsx => "Microsoft Excel 2007+ 表格",
        FileType::Pptx => "Microsoft PowerPoint 2007+ 演示",
        FileType::Sqlite => "SQLite 数据库",
    }
}

/// Magic bytes that start a file of type `t`.
pub open spec fn header_of(t: FileType) -> Seq<u8> {
    match t {
        FileType::Jpeg => seq![0xFFu8, 0xD8, 0xFF],
        FileType::Png => seq![0x89u8, 0x50, 0x4E, 0x47, 0x0D, 0x0A, 0x1A, 0x0A],
        FileType::Gif => seq![0x47u8, 0x49, 0x46, 0x38],
        FileType::Pdf => seq![0x25u8, 0x50, 0x44, 0x46],
        FileType::Zip => seq![0x50u8, 0x4B, 0x03, 0x04],
        FileType::Rar => seq![0x52u8, 0x61, 0x72, 0x21, 0x1A, 0x07, 0x00],
        FileType::SevenZip => seq![0x37u8, 0x7A, 0xBC, 0xAF, 0x27, 0x1C],
        FileType::Tar => seq![0x75u8, 0x73, 0x74, 0x61, 0x72],
        FileType::Gzip => seq![0x1Fu8, 0x8B, 0x08],
        FileType::Bzip2 => seq![0x42u8, 0x5A, 0x68],
        FileType::Xz => seq![0xFDu8, 0x37, 0x7A, 0x58, 0x5A, 0x00],
        FileType::Mpeg => seq![0x00u8, 0x00, 0x01, 0xB3],
        FileType::Avi => seq![0x52u8, 0x49, 0x46, 0x46],
        FileType::Mp4 => seq![0x66u8, 0x74, 0x79, 0x70],
        FileType::Mp3 => seq![0x49u8, 0x44, 0x33],
        FileType::Wav => seq![0x52u8, 0x49, 0x46, 0x46],
        FileType::Bmp => seq![0x42u8, 0x4D],
        FileType::Tiff => seq![0x49u8, 0x49, 0x2A, 0x00],
        FileType::Rtf => seq![0x7Bu8, 0x5C, 0x72, 0x74, 0x66],
        FileType::Exe => seq![0x4Du8, 0x5A],
        FileType::Elf => seq![0x7Fu8, 0x45, 0x4C, 0x46],
        FileType::Dmg => seq![0x78u8, 0x01, 0x73, 0x0D, 0x62, 0x62, 0x60],
        FileType::Iso => seq![0x43u8, 0x44, 0x30, 0x30, 0x31],
        FileType::Doc => seq![0xD0u8, 0xCF, 0x11, 0xE0, 0xA1, 0xB1, 0x1A, 0xE1],
        FileType::Xls => seq![0xD0u8, 0xCF, 0x11, 0xE0, 0xA1, 0xB1, 0x1A, 0xE1],
        FileType::Ppt => seq![0xD0u8, 0xCF, 0x11, 0xE0, 0xA1, 0xB1, 0x1A, 0xE1],
        FileType::Docx => seq![0x50u8, 0x4B, 0x03, 0x04],
        FileType::Xlsx => seq![0x50u8, 0x4B, 0x03, 0x04],
        FileType::Pptx => seq![0x50u8, 0x4B, 0x03, 0x04],
        FileType::Sqlite => seq![0x53u8, 0x51, 0x4C, 0x69, 0x74, 0x65, 0x20, 0x66],
    }
}

/// Magic bytes that end a file of type `t`, when the format has them.
pub open spec fn footer_of(t: FileType) -> Option<Seq<u8>> {
    match t {
        FileType::Jpeg => Some(seq![0xFFu8, 0xD9]),
        FileType::Png => Some(seq![0x49u8, 0x45, 0x4E, 0x44, 0xAE, 0x42, 0x60, 0x82]),
        FileType::Gif => Some(seq![0x00u8, 0x3B]),
        FileType::Pdf => Some(seq![0x25u8, 0x25, 0x45, 0x4F, 0x46]),
        FileType::Zip => Some(seq![0x50u8, 0x4B, 0x05, 0x06]),
        FileType::Rar => None,
        FileType::SevenZip => None,
        FileType::Tar => None,
        FileType::Gzip => None,
        FileType::Bzip2 => None,
        FileType::Xz => None,
        FileType::Mpeg => None,
        FileType::Avi => None,
        FileType::Mp4 => None,
        FileType::Mp3 => None,
        FileType::Wav => None,
        FileType::Bmp => None,
        FileType::Tiff => None,
        FileType::Rtf => None,
        FileType::Exe => None,
        FileType::Elf => None,
        FileType::Dmg => None,
        FileType::Iso => None,
        FileType::Doc => None,
        FileType::Xls => None,
        FileType::Ppt => None,
        FileType::Docx => None,
        FileType::Xlsx => None,
        FileType::Pptx => None,
        FileType::Sqlite => None,
    }
}

/// Smallest plausible size of a file of type `t`, in bytes.
pub open spec fn min_size_of(t: FileType) -> u64 {
    match t {
        FileType::Jpeg => 100,
        FileType::Png => 100,
        FileType::Gif => 50,
        FileType::Pdf => 100,
        FileType::Zip => 100,
        FileType::Rar => 100,
        FileType::SevenZip => 100,
        FileType::Tar => 512,
        FileType::Gzip => 50,
        FileType::Bzip2 => 50,
        FileType::Xz => 50,
        FileType::Mpeg => 1024,
        FileType::Avi => 1024,
        FileType::Mp4 => 1024,
        FileType::Mp3 => 1024,
        FileType::Wav => 1024,
        FileType::Bmp => 100,
        FileType::Tiff => 100,
        FileType::Rtf => 100,
        FileType::Exe => 1024,
        FileType::Elf => 1024,
        FileType::Dmg => 1024,
        FileType::Iso => 32768,
        FileType::Doc => 1024,
        FileType::Xls => 1024,
        FileType::Ppt => 1024,
        FileType::Docx => 1024,
        FileType::Xlsx => 1024,
        FileType::Pptx => 1024,
        FileType::Sqlite => 1024,
    }
}

/// Largest plausible size of a file of type `t`, in bytes.
pub open spec fn max_size_of(t: FileType) -> u64 {
    match t {
        FileType::Jpeg => 104857600,
        FileType::Png => 524288000,
        FileType::Gif => 52428800,
        FileType::Pdf => 2147483648,
        FileType::Zip => 10737418240,
        FileType::Rar => 10737418240,
        FileType::SevenZip => 10737418240,
        FileType::Tar => 10737418240,
        FileType::Gzip => 10737418240,
        FileType::Bzip2 => 10737418240,
        FileType::Xz => 10737418240,
        FileType::Mpeg => 53687091200,
        FileType::Avi => 53687091200,
        FileType::Mp4 => 53687091200,
        FileType::Mp3 => 1073741824,
        FileType::Wav => 1073741824,
        FileType::Bmp => 524288000,
        FileType::Tiff => 524288000,
        FileType::Rtf => 104857600,
        FileType::Exe => 1073741824,
        FileType::Elf => 1073741824,
        FileType::Dmg => 10737418240,
        FileType::Iso => 53687091200,
        FileType::Doc => 524288000,
        FileType::Xls => 524288000,
        FileType::Ppt => 524288000,
        FileType::Docx => 524288000,
        FileType::Xlsx => 524288000,
        FileType::Pptx => 524288000,
        FileType::Sqlite => 10737418240,
    }
}

/// `sig` is the signature of type `t`.
pub open spec fn is_signature_of(sig: FileSignature, t: FileType) -> bool {
    &&& sig.file_type == t
    &&& sig.extension == extension_of(t)
    &&& sig.description == description_of(t)
    &&& sig.header@ == header_of(t)
    &&& match footer_of(t) {
        Some(f) => sig.footer matches Some(g) && g@ == f,
        None => sig.footer is None,
    }
    &&& sig.min_size == min_size_of(t)
    &&& sig.max_size == max_size_of(t)
}

/// Length of the footer of `t`, 0 when it has none.
pub open spec fn footer_len_of(t: FileType) -> nat {
    match footer_of(t) {
        Some(f) => f.len(),
        None => 0,
    }
}

/// The number that stands for type `t` where counts are kept by type: its
/// place in the declaration order.
pub open spec fn type_code(t: FileType) -> u64 {
    match t {
        FileType::Jpeg => 0,
        FileType::Png => 1,
        FileType::Gif => 2,
        FileType::Pdf => 3,
        FileType::Zip => 4,
        FileType::Rar => 5,
        FileType::SevenZip => 6,
        FileType::Tar => 7,
        FileType::Gzip => 8,
        FileType::Bzip2 => 9,
        FileType::Xz => 10,
        FileType::Mpeg => 11,
        FileType::Avi => 12,
        FileType::Mp4 => 13,
        FileType::Mp3 => 14,
        FileType::Wav => 15,
        FileType::Bmp => 16,
        FileType::Tiff => 17,
        FileType::Rtf => 18,
        FileType::Exe => 19,
        FileType::Elf => 20,
        FileType::Dmg => 21,
        FileType::Iso => 22,
        FileType::Doc => 23,
        FileType::Xls => 24,
        FileType::Ppt => 25,
        FileType::Docx => 26,
        FileType::Xlsx => 27,
        FileType::Pptx => 28,
        FileType::Sqlite => 29,
    }
}

/// Different types have different numbers, all below 30.
pub proof fn lemma_type_code_distinct(a: FileType, b: FileType)
    ensures
        type_code(a) < 30,
        type_code(a) == type_code(b) ==> a == b,
{
}

impl FileType {
    /// The number that stands for this type (see [`type_code`]).
    pub fn code(&self) -> (c: u64)
        ensures
            c == type_code(*self),
    {
        match self {
            FileType::Jpeg => 0,
            FileType::Png => 1,
            FileType::Gif => 2,
            FileType::Pdf => 3,
            FileType::Zip => 4,
            FileType::Rar => 5,
            FileType::SevenZip => 6,
            FileType::Tar => 7,
            FileType::Gzip => 8,
            FileType::Bzip2 => 9,
            FileType::Xz => 10,
            FileType::Mpeg => 11,
            FileType::Avi => 12,
            FileType::Mp4 => 13,
            FileType::Mp3 => 14,
            FileType::Wav => 15,
            FileType::Bmp => 16,
            FileType::Tiff => 17,
            FileType::Rtf => 18,
            FileType::Exe => 19,
            FileType::Elf => 20,
            FileType::Dmg => 21,
            FileType::Iso => 22,
            FileType::Doc => 23,
            FileType::Xls => 24,
            FileType::Ppt => 25,
            FileType::Docx => 26,
            FileType::Xlsx => 27,
            FileType::Pptx => 28,
            FileType::Sqlite => 29,
        }
    }

    /// The type that number `c` stands for, if any (see [`type_code`]).
    pub fn from_code(c: u64) -> (t: Option<FileType>)
        ensures
            t matches Some(u) ==> type_code(u) == c,
            t is None <==> c >= 30,
    {
        if c == 0 {
            Some(FileType::Jpeg)
        } else if c == 1 {
            Some(FileType::Png)
        } else if c == 2 {
            Some(FileType::Gif)
        } else if c == 3 {
            Some(FileType::Pdf)
        } else if c == 4 {
            Some(FileType::Zip)
        } else if c == 5 {
            Some(FileType::Rar)
        } else if c == 6 {
            Some(FileType::SevenZip)
        } else if c == 7 {
            Some(FileType::Tar)
        } else if c == 8 {
            Some(FileType::Gzip)
        } else if c == 9 {
            Some(FileType::Bzip2)
        } else if c == 10 {
            Some(FileType::Xz)
        } else if c == 11 {
            Some(FileType::Mpeg)
        } else if c == 12 {
            Some(FileType::Avi)
        } else if c == 13 {
            Some(FileType::Mp4)
        } else if c == 14 {
            Some(FileType::Mp3)
        } else if c == 15 {
            Some(FileType::Wav)
        } else if c == 16 {
            Some(FileType::Bmp)
        } else if c == 17 {
            Some(FileType::Tiff)
        } else if c == 18 {
            Some(FileType::Rtf)
        } else if c == 19 {
            Some(FileType::Exe)
        } else if c == 20 {
            Some(FileType::Elf)
        } else if c == 21 {
            Some(FileType::Dmg)
        } else if c == 22 {
            Some(FileType::Iso)
        } else if c == 23 {
            Some(FileType::Doc)
        } else if c == 24 {
            Some(FileType::Xls)
        } else if c == 25 {
            Some(FileType::Ppt)
        } else if c == 26 {
            Some(FileType::Docx)
        } else if c == 27 {
            Some(FileType::Xlsx)
        } else if c == 28 {
            Some(FileType::Pptx)
        } else if c == 29 {
            Some(FileType::Sqlite)
        } else {
            None
        }
    }
}

impl FileType {
    /// Every file type, in declaration order.
    pub fn all_types() -> (types: &'static [FileType])
        ensures
            types@ == all_file_types(),
    {
        &[
            FileType::Jpeg,
            FileType::Png,
            FileType::Gif,
            FileType::Pdf,
            FileType::Zip,
            FileType::Rar,
            FileType::SevenZip,
            FileType::Tar,
            FileType::Gzip,
            FileType::Bzip2,
            FileType::Xz,
            FileType::Mpeg,
            FileType::Avi,
            FileType::Mp4,
            FileType::Mp3,
            FileType::Wav,
            FileType::Bmp,
            FileType::Tiff,
            FileType::Rtf,
            FileType::Exe,
            FileType::Elf,
            FileType::Dmg,
            FileType::Iso,
            FileType::Doc,
            FileType::Xls,
            FileType::Ppt,
            FileType::Docx,
            FileType::Xlsx,
            FileType::Pptx,
            FileType::Sqlite,
        ]
    }

    /// The signature of this file type.
    pub fn get_signature(&self) -> (sig: FileSignature)
        ensures
            is_signature_of(sig, *self),
    {
        match self {
            FileType::Jpeg => FileSignature {
                file_type: *self,
                extension: "jpg",
                description: "JPEG 图像",
                header: &[0xFF, 0xD8, 0xFF],
                footer: Some(&[0xFF, 0xD9]),
                min_size: 100,
                max_size: 100 * 1024 * 1024,
            },
            FileType::Png => FileSignature {
                file_type: *self,
                extension: "png",
                description: "PNG 图像",
                header: &[0x89, 0x50, 0x4E, 0x47, 0x0D, 0x0A, 0x1A, 0x0A],
                footer: Some(&[0x49, 0x45, 0x4E, 0x44, 0xAE, 0x42, 0x60, 0x82]),
                min_size: 100,
                max_size: 500 * 1024 * 1024,
            },
            FileType::Gif => FileSignature {
                file_type: *self,
                extension: "gif",
                description: "GIF 图像",
                header: &[0x47, 0x49, 0x46, 0x38],
                footer: Some(&[0x00, 0x3B]),
                min_size: 50,
                max_size: 50 * 1024 * 1024,
            },
            FileType::Pdf => FileSignature {
                file_type: *self,
                extension: "pdf",
                description: "PDF 文档",
                header: &[0x25, 0x50, 0x44, 0x46],
                footer: Some(&[0x25, 0x25, 0x45, 0x4F, 0x46]),
                min_size: 100,
                max_size: 2 * 1024 * 1024 * 1024,
            },
            FileType::Zip => FileSignature {
                file_type: *self,
                extension: "zip",
                description: "ZIP 压缩包",
                header: &[0x50, 0x4B, 0x03, 0x04],
                footer: Some(&[0x50, 0x4B, 0x05, 0x06]),
                min_size: 100,
                max_size: 10 * 1024 * 1024 * 1024,
            },
            FileType::Rar => FileSignature {
                file_type: *self,
                extension: "rar",
                description: "RAR 压缩包",
                header: &[0x52, 0x61, 0x72, 0x21, 0x1A, 0x07, 0x00],
                footer: None,
                min_size: 100,
                max_size: 10 * 1024 * 1024 * 1024,
            },
            FileType::SevenZip => FileSignature {
                file_type: *self,
                extension: "7z",
                description: "7-Zip 压缩包",
                header: &[0x37, 0x7A, 0xBC, 0xAF, 0x27, 0x1C],
                footer: None,
                min_size: 100,
                max_size: 10 * 1024 * 1024 * 1024,
            },
            FileType::Tar => FileSignature {
                file_type: *self,
                extension: "tar",
                description: "TAR 归档",
                header: &[0x75, 0x73, 0x74, 0x61, 0x72],
                footer: None,
                min_size: 512,
                max_size: 10 * 1024 * 1024 * 1024,
            },
            FileType::Gzip => FileSignature {
                file_type: *self,
                extension: "gz",
                description: "GZIP 压缩",
                header: &[0x1F, 0x8B, 0x08],
                footer: None,
                min_size: 50,
                max_size: 10 * 1024 * 1024 * 1024,
            },
            FileType::Bzip2 => FileSignature {
                file_type: *self,
                extension: "bz2",
                description: "BZIP2 压缩",
                header: &[0x42, 0x5A, 0x68],
                footer: None,
                min_size: 50,
                max_size: 10 * 1024 * 1024 * 1024,
            },
            FileType::Xz => FileSignature {
                file_type: *self,
                extension: "xz",
                description: "XZ 压缩",
                header: &[0xFD, 0x37, 0x7A, 0x58, 0x5A, 0x00],
                footer: None,
                min_size: 50,
                max_size: 10 * 1024 * 1024 * 1024,
            },
            FileType::Mpeg => FileSignature {
                file_type: *self,
                extension: "mpeg",
                description: "MPEG 视频",
                header: &[0x00, 0x00, 0x01, 0xB3],
                footer: None,
                min_size: 1024,
                max_size: 50 * 1024 * 1024 * 1024,
            },
            FileType::Avi => FileSignature {
                file_type: *self,
                extension: "avi",
                description: "AVI 视频",
                header: &[0x52, 0x49, 0x46, 0x46],
                footer: None,
                min_size: 1024,
                max_size: 50 * 1024 * 1024 * 1024,
            },
            FileType::Mp4 => FileSignature {
                file_type: *self,
                extension: "mp4",
                description: "MP4 视频",
                header: &[0x66, 0x74, 0x79, 0x70],
                footer: None,
                min_size: 1024,
                max_size: 50 * 1024 * 1024 * 1024,
            },
            FileType::Mp3 => FileSignature {
                file_type: *self,
                extension: "mp3",
                description: "MP3 音频",
                header: &[0x49, 0x44, 0x33],
                footer: None,
                min_size: 1024,
                max_size: 1 * 1024 * 1024 * 1024,
            },
            FileType::Wav => FileSignature {
                file_type: *self,
                extension: "wav",
                description: "WAV 音频",
                header: &[0x52, 0x49, 0x46, 0x46],
                footer: None,
                min_size: 1024,
                max_size: 1 * 1024 * 1024 * 1024,
            },
            FileType::Bmp => FileSignature {
                file_type: *self,
                extension: "bmp",
                description: "BMP 图像",
                header: &[0x42, 0x4D],
                footer: None,
                min_size: 100,
                max_size: 500 * 1024 * 1024,
            },
            FileType::Tiff => FileSignature {
                file_type: *self,
                extension: "tiff",
                description: "TIFF 图像",
                header: &[0x49, 0x49, 0x2A, 0x00],
                footer: None,
                min_size: 100,
                max_size: 500 * 1024 * 1024,
            },
            FileType::Rtf => FileSignature {
                file_type: *self,
                extension: "rtf",
                description: "RTF 文档",
                header: &[0x7B, 0x5C, 0x72, 0x74, 0x66],
                footer: None,
                min_size: 100,
                max_size: 100 * 1024 * 1024,
            },
            FileType::Exe => FileSignature {
                file_type: *self,
                extension: "exe",
                description: "Windows 可执行文件",
                header: &[0x4D, 0x5A],
                footer: None,
                min_size: 1024,
                max_size: 1 * 1024 * 1024 * 1024,
            },
            FileType::Elf => FileSignature {
                file_type: *self,
                extension: "elf",
                description: "ELF 可执行文件",
                header: &[0x7F, 0x45, 0x4C, 0x46],
                footer: None,
                min_size: 1024,
                max_size: 1 * 1024 * 1024 * 1024,
            },
            FileType::Dmg => FileSignature {
                file_type: *self,
                extension: "dmg",
                description: "Apple DMG 镜像",
                header: &[0x78, 0x01, 0x73, 0x0D, 0x62, 0x62, 0x60],
                footer: None,
                min_size: 1024,
                max_size: 10 * 1024 * 1024 * 1024,
            },
            FileType::Iso => FileSignature {
                file_type: *self,
                extension: "iso",
                description: "ISO 光盘镜像",
                header: &[0x43, 0x44, 0x30, 0x30, 0x31],
                footer: None,
                min_size: 32 * 1024,
                max_size: 50 * 1024 * 1024 * 1024,
            },
            FileType::Doc => FileSignature {
                file_type: *self,
                extension: "doc",
                description: "Microsoft Word 文档",
                header: &[0xD0, 0xCF, 0x11, 0xE0, 0xA1, 0xB1, 0x1A, 0xE1],
                footer: None,
                min_size: 1024,
                max_size: 500 * 1024 * 1024,
            },
            FileType::Xls => FileSignature {
                file_type: *self,
                extension: "xls",
                description: "Microsoft Excel 表格",
                header: &[0xD0, 0xCF, 0x11, 0xE0, 0xA1, 0xB1, 0x1A, 0xE1],
                footer: None,
                min_size: 1024,
                max_size: 500 * 1024 * 1024,
            },
            FileType::Ppt => FileSignature {
                file_type: *self,
                extension: "ppt",
                description: "Microsoft PowerPoint 演示",
                header: &[0xD0, 0xCF, 0x11, 0xE0, 0xA1, 0xB1, 0x1A, 0xE1],
                footer: None,
                min_size: 1024,
                max_size: 500 * 1024 * 1024,
            },
            FileType::Docx => FileSignature {
                file_type: *self,
                extension: "docx",
                description: "Microsoft Word 2007+ 文档",
                header: &[0x50, 0x4B, 0x03, 0x04],
                footer: None,
                min_size: 1024,
                max_size: 500 * 1024 * 1024,
            },
            FileType::Xlsx => FileSignature {
                file_type: *self,
                extension: "xlsx",
                description: "Microsoft Excel 2007+ 表格",
                header: &[0x50, 0x4B, 0x03, 0x04],
                footer: None,
                min_size: 1024,
                max_size: 500 * 1024 * 1024,
            },
            FileType::Pptx => FileSignature {
                file_type: *self,
                extension: "pptx",
                description: "Microsoft PowerPoint 2007+ 演示",
                header: &[0x50, 0x4B, 0x03, 0x04],
                footer: None,
                min_size: 1024,
                max_size: 500 * 1024 * 1024,
            },
            FileType::Sqlite => FileSignature {
                file_type: *self,
                extension: "sqlite",
                description: "SQLite 数据库",
                header: &[0x53, 0x51, 0x4C, 0x69, 0x74, 0x65, 0x20, 0x66],
                footer: None,
                min_size: 1024,
                max_size: 10 * 1024 * 1024 * 1024,
            },
        }
    }

    /// The text this type is displayed as: its description.
    pub fn to_display_string(&self) -> (s: String)
        ensures
            s@ == description_of(*self)@,
    {
        let sig = self.get_signature();
        sig.description.to_owned()
    }
}

/// The signatures of all file types, in declaration order.
pub fn get_all_signatures() -> (sigs: Vec<FileSignature>)
    ensures
        sigs@.len() == all_file_types().len(),
        forall|i: int| 0 <= i < sigs@.len() ==> is_signature_of(#[trigger] sigs@[i], all_file_types()[i]),
{
    let types = FileType::all_types();
    let mut sigs: Vec<FileSignature> = Vec::new();
    let mut i: usize = 0;
    while i < types.len()
        invariant
            types@ == all_file_types(),
            i <= types@.len(),
            sigs@.len() == i,
            forall|k: int| 0 <= k < i ==> is_signature_of(#[trigger] sigs@[k], all_file_types()[k]),
        decreases types@.len() - i,
    {
        sigs.push(types[i].get_signature());
        i = i + 1;
    }
    sigs
}

/// The longest header of all file types (16 if there were none).
pub fn get_max_header_length() -> (r: usize)
    ensures
        forall|i: int| 0 <= i < all_file_types().len() ==> header_of(#[trigger] all_file_types()[i]).len() <= r,
        exists|i: int| 0 <= i < all_file_types().len() && header_of(#[trigger] all_file_types()[i]).len() == r,
        r == 8,
{
    let sigs = get_all_signatures();
    if sigs.len() == 0 {
        return 16;
    }
    let mut best: usize = sigs[0].header.len();
    let mut i: usize = 1;
    while i < sigs.len()
        invariant
            sigs@.len() == all_file_types().len(),
            forall|k: int| 0 <= k < sigs@.len() ==> is_signature_of(#[trigger] sigs@[k], all_file_types()[k]),
            1 <= i <= sigs@.len(),
            forall|k: int| 0 <= k < i ==> header_of(#[trigger] all_file_types()[k]).len() <= best,
            exists|k: int| 0 <= k < i && header_of(#[trigger] all_file_types()[k]).len() == best,
        decreases sigs@.len() - i,
    {
        let len = sigs[i].header.len();
        proof { assert(is_signature_of(sigs@[i as int], all_file_types()[i as int])); }
        if len > best {
            best = len;
        }
        i = i + 1;
    }
    proof {
        let all = all_file_types();
        assert(header_of(all[1]).len() == 8);
        assert forall|k: int| 0 <= k < all.len() implies header_of(#[trigger] all[k]).len() <= 8 by {}
    }
    best
}

/// The longest footer of all file types, a type without footer counting
/// as 0 (16 if there were no types).
pub fn get_max_footer_length() -> (r: usize)
    ensures
        forall|i: int| 0 <= i < all_file_types().len() ==> footer_len_of(#[trigger] all_file_types()[i]) <= r,
        exists|i: int| 0 <= i < all_file_types().len() && footer_len_of(#[trigger] all_file_types()[i]) == r,
        r == 8,
{
    let sigs = get_all_signatures();
    if sigs.len() == 0 {
        return 16;
    }
    let mut best: usize = match sigs[0].footer {
        Some(f) => f.len(),
        None => 0,
    };
    let mut i: usize = 1;
    while i < sigs.len()
        invariant
            sigs@.len() == all_file_types().len(),
            forall|k: int| 0 <= k < sigs@.len() ==> is_signature_of(#[trigger] sigs@[k], all_file_types()[k]),
            1 <= i <= sigs@.len(),
            forall|k: int| 0 <= k < i ==> footer_len_of(#[trigger] all_file_types()[k]) <= best,
            exists|k: int| 0 <= k < i && footer_len_of(#[trigger] all_file_types()[k]) == best,
        decreases sigs@.len() - i,
    {
        let len = match sigs[i].footer {
            Some(f) => f.len(),
            None => 0,
        };
        proof { assert(is_signature_of(sigs@[i as int], all_file_types()[i as int])); }
        if len > best {
            best = len;
        }
        i = i + 1;
    }
    proof {
        let all = all_file_types();
        assert(footer_len_of(all[1]) == 8);
        assert forall|k: int| 0 <= k < all.len() implies footer_len_of(#[trigger] all[k]) <= 8 by {}
    }
    best
}

} // verus!
