//! File-system metadata used to rebuild carved files: MBR partition tables,
//! NTFS boot sectors, MFT records and data runlists, and FAT16/FAT32 boot
//! sectors and allocation chains.

use vstd::prelude::*;

use crate::binary::{le16, le32, le64, le_value, pow256, read_u16_le, read_u32_le, read_u64_le, read_uint_le, lemma_le_value_bound, lemma_pow256_monotone};
use crate::disk_reader::{image_byte, image_window, lemma_read_into_zeros, DiskImageReader, DiskReaderError, SECTOR_SIZE};
use crate::recovery::{CopyJob, chain_fits};
use vstd::arithmetic::power2::pow2;
use vstd::bits::{lemma_u64_pow2_no_overflow, lemma_u64_shl_is_mul};

verus! {

/// File system found in a partition.
#[derive(Debug, Clone, Copy, PartialEq, Eq, Structural)]
pub enum FileSystemType {
    Ntfs,
    Fat32,
    Fat16,
    Unknown,
}

/// A run of consecutive clusters.
#[derive(Debug, Clone, Copy)]
pub struct DataRun {
    pub start_cluster: u64,
    pub cluster_count: u64,
}

/// The clusters that hold a file, in file order.
#[derive(Debug)]
pub struct ClusterChain {
    pub runs: Vec<DataRun>,
    pub total_clusters: u64,
    pub total_bytes: u64,
    pub is_fragmented: bool,
}

/// Why file-system metadata could not be used.
#[derive(Debug)]
pub enum FsError {
    /// The image could not be read.
    Read(DiskReaderError),
    /// The boot sector does not carry the NTFS signature.
    NotNtfs,
    /// The boot sector's geometry is unusable (a size that the parser
    /// divides by is zero, a record size past 64 bits, or sector counts that
    /// do not fit).
    InvalidBootSector,
    /// An MFT record does not start with `FILE`.
    InvalidMftSignature,
    /// A cluster number outside the data area.
    InvalidCluster(u32),
    /// A FAT entry does not fit in the sector that should hold it.
    FatEntryOutOfBounds,
    /// The allocation chain runs into a cluster marked bad.
    BadCluster,
    /// A byte position that does not fit in 64 bits.
    OffsetOverflow,
    /// A runlist entry declares a field wider than eight bytes, or moves the
    /// start cluster outside the signed 64-bit range.
    MalformedRunlist,
    /// No file system was detected, so there is no metadata to follow.
    NoFileSystem,
}

/// Sum of the cluster counts of `runs`.
pub open spec fn sum_counts(runs: Seq<DataRun>) -> int
    decreases runs.len(),
{
    if runs.len() == 0 {
        0
    } else {
        sum_counts(runs.drop_last()) + runs.last().cluster_count
    }
}

/// Appending a run adds its count to the total.
pub proof fn lemma_sum_counts_push(runs: Seq<DataRun>, r: DataRun)
    ensures
        sum_counts(runs.push(r)) == sum_counts(runs) + r.cluster_count,
{
    assert(runs.push(r).drop_last() =~= runs);
}

/// Counts are never negative.
pub proof fn lemma_sum_counts_nonneg(runs: Seq<DataRun>)
    ensures
        sum_counts(runs) >= 0,
    decreases runs.len(),
{
    if runs.len() > 0 {
        lemma_sum_counts_nonneg(runs.drop_last());
    }
}

impl ClusterChain {
    /// The chain's totals agree with its runs, and every run is nonempty.
    pub open spec fn wf(&self) -> bool {
        &&& self.total_clusters == sum_counts(self.runs@)
        &&& self.is_fragmented == (self.runs@.len() > 1)
        &&& forall|i: int| 0 <= i < self.runs@.len() ==> #[trigger] self.runs@[i].cluster_count > 0
    }

    /// An empty chain.
    pub fn new() -> (chain: Self)
        ensures
            chain.runs@.len() == 0,
            chain.total_clusters == 0,
            chain.total_bytes == 0,
            !chain.is_fragmented,
            chain.wf(),
    {
        ClusterChain { runs: Vec::new(), total_clusters: 0, total_bytes: 0, is_fragmented: false }
    }

    /// Appends the run `[start_cluster, start_cluster + cluster_count)` of
    /// clusters of `bytes_per_cluster` bytes.
    pub fn add_run(&mut self, start_cluster: u64, cluster_count: u64, bytes_per_cluster: u64)
        requires
            old(self).total_clusters + cluster_count <= u64::MAX,
            old(self).total_bytes + cluster_count * bytes_per_cluster <= u64::MAX,
        ensures
            add_run_effect(*old(self), *final(self), start_cluster, cluster_count, bytes_per_cluster),
    {
        self.runs.push(DataRun { start_cluster, cluster_count });
        self.total_clusters = self.total_clusters + cluster_count;
        self.total_bytes = self.total_bytes + cluster_count * bytes_per_cluster;
        self.is_fragmented = self.runs.len() > 1;
    }

    /// Whether the chain holds no run.
    pub fn is_empty(&self) -> (r: bool)
        ensures
            r == (self.runs@.len() == 0),
    {
        self.runs.len() == 0
    }
}

/// `after` is `before` with the run `[start_cluster, start_cluster +
/// cluster_count)` of clusters of `bytes_per_cluster` bytes appended (see
/// [`ClusterChain::add_run`]).
pub open spec fn add_run_effect(before: ClusterChain, after: ClusterChain, start_cluster: u64, cluster_count: u64, bytes_per_cluster: u64) -> bool {
    &&& after.runs@ == before.runs@.push(DataRun { start_cluster, cluster_count })
    &&& after.total_clusters == before.total_clusters + cluster_count
    &&& after.total_bytes == before.total_bytes + cluster_count * bytes_per_cluster
    &&& after.is_fragmented == (after.runs@.len() > 1)
}

/// A chain built by adding runs one after another to an empty chain (see
/// [`ClusterChain::new`] and [`ClusterChain::add_run`]) holds those runs in
/// order, as many clusters as their counts add up to, that many clusters'
/// bytes, and is fragmented exactly when it holds more than one run.
pub proof fn lemma_add_runs_from_empty(states: Seq<ClusterChain>, runs: Seq<DataRun>, bytes_per_cluster: u64)
    requires
        states.len() == runs.len() + 1,
        states[0].runs@.len() == 0,
        states[0].total_clusters == 0,
        states[0].total_bytes == 0,
        !states[0].is_fragmented,
        forall|i: int| 0 <= i < runs.len() ==> #[trigger] add_run_effect(states[i], states[i + 1],
            runs[i].start_cluster, runs[i].cluster_count, bytes_per_cluster),
    ensures
        states.last().runs@ == runs,
        states.last().total_clusters == sum_counts(runs),
        states.last().total_bytes == sum_counts(runs) * bytes_per_cluster,
        states.last().is_fragmented == (runs.len() > 1),
    decreases runs.len(),
{
    if runs.len() == 0 {
        assert(states[0].runs@ =~= runs);
    } else {
        let k = runs.len() - 1;
        let s0 = states.drop_last();
        let r0 = runs.drop_last();
        assert forall|i: int| 0 <= i < r0.len() implies #[trigger] add_run_effect(s0[i], s0[i + 1],
            r0[i].start_cluster, r0[i].cluster_count, bytes_per_cluster) by {
            assert(s0[i] == states[i] && s0[i + 1] == states[i + 1] && r0[i] == runs[i]);
            assert(add_run_effect(states[i], states[i + 1], runs[i].start_cluster, runs[i].cluster_count, bytes_per_cluster));
        }
        lemma_add_runs_from_empty(s0, r0, bytes_per_cluster);
        assert(add_run_effect(states[k], states[k + 1], runs[k].start_cluster, runs[k].cluster_count, bytes_per_cluster));
        assert(s0.last() == states[k]);
        assert(states.last() == states[k + 1]);
        assert(runs.last() == runs[k]);
        assert(r0.push(DataRun { start_cluster: runs[k].start_cluster, cluster_count: runs[k].cluster_count }) =~= runs);
        let t = sum_counts(r0);
        let n = runs[k].cluster_count as int;
        let b = bytes_per_cluster as int;
        assert(t * b + n * b == (t + n) * b) by (nonlinear_arith);
    }
}

/// Adding a nonempty run to a well-formed chain keeps it well-formed.
pub proof fn lemma_add_run_keeps_wf(
    before: Seq<DataRun>,
    after: Seq<DataRun>,
    total_before: int,
    total_after: int,
    r: DataRun,
)
    requires
        total_before == sum_counts(before),
        forall|i: int| 0 <= i < before.len() ==> #[trigger] before[i].cluster_count > 0,
        after == before.push(r),
        total_after == total_before + r.cluster_count,
        r.cluster_count > 0,
    ensures
        total_after == sum_counts(after),
        forall|i: int| 0 <= i < after.len() ==> #[trigger] after[i].cluster_count > 0,
{
    lemma_sum_counts_push(before, r);
    assert forall|i: int| 0 <= i < after.len() implies #[trigger] after[i].cluster_count > 0 by {
        if i < before.len() {
            assert(after[i] == before[i]);
        }
    }
}

// ---------------------------------------------------------------------------
// File-system detection
// ---------------------------------------------------------------------------

/// Bytes 3..11 of the boot sector read `NTFS` followed by four spaces.
pub open spec fn has_ntfs_oem(b: Seq<u8>) -> bool {
    &&& b[3] == 0x4E && b[4] == 0x54 && b[5] == 0x46 && b[6] == 0x53
    &&& b[7] == 0x20 && b[8] == 0x20 && b[9] == 0x20 && b[10] == 0x20
}

/// The file-system type field at 82..90 starts with `FAT3` `2` (or `FAT1` `6`
/// when `second_digit` is `0x36`).
pub open spec fn has_fat_label(b: Seq<u8>, second_digit: u8) -> bool {
    &&& b[82] == 0x46 && b[83] == 0x41 && b[84] == 0x54
    &&& (if second_digit == 0x32 { b[85] == 0x33 } else { b[85] == 0x31 })
    &&& b[86] == second_digit
}

/// The total sector count of a FAT boot sector: the 16-bit field, or the
/// 32-bit one when the 16-bit field is zero.
pub open spec fn fat_total_sectors(b: Seq<u8>) -> int {
    if le16(b, 19) == 0 {
        le32(b, 32)
    } else {
        le16(b, 19)
    }
}

/// The file system that the boot sector `b` describes.
///
/// Without a label, the FAT variant follows from the cluster count computed
/// from the BPB. A BPB with a zero sector or cluster size, or with more
/// metadata sectors than sectors, describes no file system.
pub open spec fn detected_filesystem(b: Seq<u8>) -> FileSystemType {
    if b.len() >= 11 && has_ntfs_oem(b) {
        FileSystemType::Ntfs
    } else if b.len() >= 90 && has_fat_label(b, 0x32) {
        FileSystemType::Fat32
    } else if b.len() >= 90 && has_fat_label(b, 0x36) {
        FileSystemType::Fat16
    } else if b.len() >= 36 {
        let bytes_per_sector = le16(b, 11);
        let sectors_per_cluster = b[13] as int;
        if bytes_per_sector == 0 || sectors_per_cluster == 0 {
            FileSystemType::Unknown
        } else {
            let root_dir_sectors = (le16(b, 17) * 32 + bytes_per_sector - 1) / bytes_per_sector;
            let used = b[14] + b[16] * le16(b, 22) + root_dir_sectors;
            if used > fat_total_sectors(b) {
                FileSystemType::Unknown
            } else {
                let clusters = (fat_total_sectors(b) - used) / sectors_per_cluster;
                if clusters < 4085 {
                    FileSystemType::Unknown
                } else if clusters < 65525 {
                    FileSystemType::Fat16
                } else {
                    FileSystemType::Fat32
                }
            }
        }
    } else {
        FileSystemType::Unknown
    }
}

/// A boot sector is NTFS where its OEM name at 3 is `NTFS` and four spaces;
/// otherwise FAT32 where its type field at 82 starts with `FAT32`, FAT16
/// where it starts with `FAT16` instead.
pub proof fn lemma_detected_by_label(b: Seq<u8>)
    requires
        b.len() >= 90,
    ensures
        b.subrange(3, 11) == seq![0x4Eu8, 0x54, 0x46, 0x53, 0x20, 0x20, 0x20, 0x20]
            ==> detected_filesystem(b) == FileSystemType::Ntfs,
        b.subrange(3, 11) != seq![0x4Eu8, 0x54, 0x46, 0x53, 0x20, 0x20, 0x20, 0x20]
            && b.subrange(82, 87) == seq![0x46u8, 0x41, 0x54, 0x33, 0x32]
            ==> detected_filesystem(b) == FileSystemType::Fat32,
        b.subrange(3, 11) != seq![0x4Eu8, 0x54, 0x46, 0x53, 0x20, 0x20, 0x20, 0x20]
            && b.subrange(82, 87) == seq![0x46u8, 0x41, 0x54, 0x31, 0x36]
            ==> detected_filesystem(b) == FileSystemType::Fat16,
{
    let oem = seq![0x4Eu8, 0x54, 0x46, 0x53, 0x20, 0x20, 0x20, 0x20];
    if b.subrange(3, 11) == oem {
        assert(b[3] == b.subrange(3, 11)[0] && b[4] == b.subrange(3, 11)[1] && b[5] == b.subrange(3, 11)[2]);
        assert(b[6] == b.subrange(3, 11)[3] && b[7] == b.subrange(3, 11)[4] && b[8] == b.subrange(3, 11)[5]);
        assert(b[9] == b.subrange(3, 11)[6] && b[10] == b.subrange(3, 11)[7]);
    } else {
        if has_ntfs_oem(b) {
            assert(b.subrange(3, 11) =~= oem);
        }
        let l = b.subrange(82, 87);
        assert(b[82] == l[0] && b[83] == l[1] && b[84] == l[2] && b[85] == l[3] && b[86] == l[4]);
    }
}

/// The sectors of a FAT volume with boot sector `b` left for file data:
/// its sectors after the reserved sectors (the low byte of that count), the
/// FATs and the root directory.
pub open spec fn fat_data_sectors(b: Seq<u8>) -> int {
    let bytes_per_sector = le16(b, 11);
    fat_total_sectors(b) - (b[14] + b[16] * le16(b, 22) + (le16(b, 17) * 32 + bytes_per_sector - 1) / bytes_per_sector)
}

/// `q` is at least `k` exactly when `k` copies of `d` fit in `x`, for the
/// quotient `q` of `x` by `d`.
proof fn lemma_quotient_at_least(x: int, d: int, k: int)
    requires
        x >= 0,
        d > 0,
    ensures
        x / d >= k <==> x >= k * d,
{
    let q = x / d;
    let r = x % d;
    vstd::arithmetic::div_mod::lemma_fundamental_div_mod(x, d);
    if q >= k {
        assert(x >= k * d) by (nonlinear_arith) requires x == d * q + r, r >= 0, q >= k, d > 0;
    } else {
        assert(x < k * d) by (nonlinear_arith) requires x == d * q + r, r < d, q < k, d > 0;
    }
}

/// Without a label, the FAT variant of a boot sector follows from its
/// cluster count, its data sectors divided by its sectors per cluster: a
/// volume of 4085 to 65524 clusters is FAT16, one of more is FAT32, one of
/// fewer is none, whatever its sectors per cluster.
pub proof fn lemma_fat_variant_by_cluster_count(b: Seq<u8>)
    requires
        b.len() >= 90,
        !has_ntfs_oem(b),
        !has_fat_label(b, 0x32),
        !has_fat_label(b, 0x36),
        le16(b, 11) > 0,
        b[13] > 0,
        fat_data_sectors(b) >= 0,
    ensures
        detected_filesystem(b) == FileSystemType::Fat16
            <==> 4085 * (b[13] as int) <= fat_data_sectors(b) < 65525 * (b[13] as int),
        detected_filesystem(b) == FileSystemType::Fat32 <==> fat_data_sectors(b) >= 65525 * (b[13] as int),
        detected_filesystem(b) == FileSystemType::Unknown <==> fat_data_sectors(b) < 4085 * (b[13] as int),
{
    let spc = b[13] as int;
    lemma_quotient_at_least(fat_data_sectors(b), spc, 4085);
    lemma_quotient_at_least(fat_data_sectors(b), spc, 65525);
}

/// Classifies a boot sector.
pub fn detect_filesystem_in_boot_sector(b: &[u8]) -> (t: FileSystemType)
    ensures
        t == detected_filesystem(b@),
{
    let n = b.len();
    if n >= 11 && b[3] == 0x4E && b[4] == 0x54 && b[5] == 0x46 && b[6] == 0x53 && b[7] == 0x20
        && b[8] == 0x20 && b[9] == 0x20 && b[10] == 0x20 {
        return FileSystemType::Ntfs;
    }
    if n >= 90 && b[82] == 0x46 && b[83] == 0x41 && b[84] == 0x54 {
        if b[85] == 0x33 && b[86] == 0x32 {
            return FileSystemType::Fat32;
        }
        if b[85] == 0x31 && b[86] == 0x36 {
            return FileSystemType::Fat16;
        }
    }
    if n >= 36 {
        let sectors_per_fat = read_u16_le(b, 22) as u32;
        let root_entries = read_u16_le(b, 17) as u32;
        let total_sectors_16 = read_u16_le(b, 19) as u32;
        let total_sectors = if total_sectors_16 == 0 {
            read_u32_le(b, 32)
        } else {
            total_sectors_16
        };
        let bytes_per_sector = read_u16_le(b, 11) as u32;
        let sectors_per_cluster = b[13] as u32;
        let fats = b[16] as u32;
        if bytes_per_sector == 0 || sectors_per_cluster == 0 {
            return FileSystemType::Unknown;
        }
        let root_dir_sectors = ((root_entries * 32) + (bytes_per_sector - 1)) / bytes_per_sector;
        assert(fats * sectors_per_fat <= 255 * 65535) by (nonlinear_arith)
            requires fats <= 255, sectors_per_fat <= 65535;
        assert(root_dir_sectors <= 65535 * 32 + 65534) by (nonlinear_arith)
            requires root_dir_sectors as int == ((root_entries * 32) + (bytes_per_sector - 1)) as int / bytes_per_sector as int,
                root_entries <= 65535, 1 <= bytes_per_sector <= 65535;
        let used = b[14] as u32 + (fats * sectors_per_fat) + root_dir_sectors;
        if used > total_sectors {
            return FileSystemType::Unknown;
        }
        let data_sectors = total_sectors - used;
        let total_clusters = data_sectors / sectors_per_cluster;
        if total_clusters < 4085 {
        } else if total_clusters < 65525 {
            return FileSystemType::Fat16;
        } else {
            return FileSystemType::Fat32;
        }
    }
    FileSystemType::Unknown
}

/// The 512-byte sector of image `img` at byte `offset`.
pub open spec fn sector_at(img: Seq<u8>, offset: u64) -> Seq<u8> {
    image_window(img, offset as int, 512)
}

/// The boot sector of a partition is the 512 bytes of the image from the
/// partition's first byte.
pub proof fn lemma_sector_at_bytes(img: Seq<u8>, offset: u64, i: int)
    requires
        0 <= i < 512,
    ensures
        sector_at(img, offset).len() == 512,
        sector_at(img, offset)[i] == if offset + i < img.len() { img[offset + i] } else { 0u8 },
{
}

/// Reads `len` bytes at `offset` into a zeroed buffer: the image's bytes
/// there, or the read's error.
fn read_zeroed<R: DiskImageReader>(reader: &mut R, offset: u64, len: u64) -> (res: Result<Vec<u8>, DiskReaderError>)
    requires
        len <= usize::MAX,
    ensures
        final(reader).image() == old(reader).image(),
        res matches Ok(b) ==> b@ == image_window(old(reader).image(), offset as int, len as int),
{
    let mut buffer: Vec<u8> = vec![0u8; len as usize];
    let ghost before = buffer@;
    match reader.read_offset(offset, len, buffer.as_mut_slice()) {
        Err(e) => Err(e),
        Ok(n) => {
            proof {
                lemma_read_into_zeros(old(reader).image(), offset as int, len as int, before, buffer@, n as int);
            }
            Ok(buffer)
        }
    }
}

/// Reads the boot sector at `partition_offset` and classifies it; an image
/// that cannot be read there holds no known file system.
pub fn detect_filesystem<R: DiskImageReader>(reader: &mut R, partition_offset: u64) -> (t: FileSystemType)
    ensures
        final(reader).image() == old(reader).image(),
        t == FileSystemType::Unknown || t == detected_filesystem(sector_at(old(reader).image(), partition_offset)),
{
    match read_zeroed(reader, partition_offset, SECTOR_SIZE) {
        Err(_) => FileSystemType::Unknown,
        Ok(boot_sector) => detect_filesystem_in_boot_sector(boot_sector.as_slice()),
    }
}


// ---------------------------------------------------------------------------
// NTFS
// ---------------------------------------------------------------------------

/// The geometry an NTFS boot sector gives.
pub struct NtfsLayout {
    pub partition_offset: u64,
    pub bytes_per_cluster: u64,
    pub mft_start_cluster: u64,
    pub mft_record_size: u64,
    pub sectors_per_cluster: u32,
}

/// Reader of NTFS metadata in the partition that starts at `partition_offset`.
pub struct NtfsParser {
    partition_offset: u64,
    bytes_per_cluster: u64,
    mft_start_cluster: u64,
    mft_record_size: u64,
    sectors_per_cluster: u32,
}

/// The signed value of the MFT record size byte of an NTFS boot sector.
pub open spec fn signed_byte(v: u8) -> int {
    if v >= 128 {
        v - 256
    } else {
        v as int
    }
}

/// The clusters-per-record byte of an NTFS boot sector, decoded: a positive
/// value counts clusters, a value `-n` means `2^n` bytes.
pub open spec fn mft_record_size_of(raw: int, bytes_per_cluster: int) -> int {
    if raw > 0 {
        raw * bytes_per_cluster
    } else {
        pow2((-raw) as nat) as int
    }
}

/// The NTFS layout described by boot sector `b` of the partition at
/// `partition_offset`: `None` when the sector lacks the NTFS signature or
/// gives a record size of `2^64` bytes or more. A cluster size of zero is
/// kept as it is.
pub open spec fn ntfs_layout_of(b: Seq<u8>, partition_offset: u64) -> Option<NtfsLayout> {
    let bytes_per_cluster = le16(b, 11) * b[13];
    let raw = signed_byte(b[64]);
    if !has_ntfs_oem(b) || raw <= -64 {
        None
    } else {
        Some(
            NtfsLayout {
                partition_offset,
                bytes_per_cluster: bytes_per_cluster as u64,
                mft_start_cluster: le64(b, 48) as u64,
                mft_record_size: mft_record_size_of(raw, bytes_per_cluster) as u64,
                sectors_per_cluster: b[13] as u32,
            },
        )
    }
}

impl View for NtfsParser {
    type V = NtfsLayout;

    closed spec fn view(&self) -> NtfsLayout {
        NtfsLayout {
            partition_offset: self.partition_offset,
            bytes_per_cluster: self.bytes_per_cluster,
            mft_start_cluster: self.mft_start_cluster,
            mft_record_size: self.mft_record_size,
            sectors_per_cluster: self.sectors_per_cluster,
        }
    }
}

/// A cluster of an NTFS layout is at most 65535 bytes per sector times 255
/// sectors.
pub open spec fn ntfs_layout_wf(l: NtfsLayout) -> bool {
    &&& l.bytes_per_cluster <= 65535 * 255
}

/// A search of layout `l` for the file at byte `offset` divides by nothing
/// that is zero and reads records long enough to hold a signature: records
/// of at least 4 bytes, and a nonzero cluster size for an offset inside the
/// partition.
pub open spec fn ntfs_can_search(l: NtfsLayout, offset: int) -> bool {
    &&& l.mft_record_size >= 4
    &&& offset >= l.partition_offset ==> l.bytes_per_cluster > 0
}

/// Byte at which the MFT record `record_number` of layout `l` starts.
pub open spec fn mft_record_position(l: NtfsLayout, record_number: int) -> int {
    l.partition_offset + l.mft_start_cluster * l.bytes_per_cluster + record_number
        * l.mft_record_size
}

/// The bytes of MFT record `record_number` of layout `l` in image `img`.
pub open spec fn mft_record_in(l: NtfsLayout, img: Seq<u8>, record_number: int) -> Seq<u8> {
    image_window(img, mft_record_position(l, record_number), l.mft_record_size as int)
}

/// An NTFS boot sector gives clusters of its bytes per sector (at 11)
/// times its sectors per cluster (at 13) bytes, the MFT's first cluster
/// from its 64-bit field at 48, and records of the number of clusters at 64
/// where that byte is below 128, or of `2^(256 - v)` bytes where it is a
/// byte `v` of 128 or more (a negative exponent).
pub proof fn lemma_ntfs_layout_fields(b: Seq<u8>, partition_offset: u64)
    requires
        b.len() >= 72,
        ntfs_layout_of(b, partition_offset) is Some,
    ensures
        ({
            let l = ntfs_layout_of(b, partition_offset)->0;
            &&& l.partition_offset == partition_offset
            &&& l.bytes_per_cluster == le16(b, 11) * b[13]
            &&& l.mft_start_cluster == le64(b, 48)
            &&& (0 < b[64] < 128 ==> l.mft_record_size == b[64] * l.bytes_per_cluster)
            &&& (b[64] >= 128 ==> l.mft_record_size == pow2((256 - b[64]) as nat))
        }),
{
    let l = ntfs_layout_of(b, partition_offset)->0;
    let bpc = le16(b, 11) * b[13];
    assert(bpc <= 65535 * 255) by (nonlinear_arith)
        requires bpc == le16(b, 11) * b[13], le16(b, 11) <= 65535, b[13] <= 255, le16(b, 11) >= 0;
    assert(0 <= bpc) by (nonlinear_arith) requires bpc == le16(b, 11) * b[13], le16(b, 11) >= 0;
    if 0 < b[64] < 128 {
        assert(b[64] * bpc <= 127 * (65535 * 255)) by (nonlinear_arith)
            requires b[64] <= 127, bpc <= 65535 * 255, bpc >= 0, b[64] >= 0;
        assert(b[64] * bpc >= 0) by (nonlinear_arith) requires bpc >= 0, b[64] >= 0;
    }
    if b[64] >= 128 {
        vstd::arithmetic::power2::lemma_pow2_pos((256 - b[64]) as nat);
        lemma_u64_pow2_no_overflow((256 - b[64]) as nat);
    }
    let lo = le32(b, 48);
    let hi = le32(b, 52);
    assert(0 <= lo <= 0xFFFF_FFFF && 0 <= hi <= 0xFFFF_FFFF);
    assert(0 <= lo + 4294967296 * hi <= u64::MAX) by (nonlinear_arith)
        requires 0 <= lo <= 0xFFFF_FFFF, 0 <= hi <= 0xFFFF_FFFF;
}

/// MFT record `n` is the record size's worth of image bytes from where the
/// record starts.
pub proof fn lemma_mft_record_bytes(l: NtfsLayout, img: Seq<u8>, record_number: int, i: int)
    requires
        0 <= i < l.mft_record_size,
    ensures
        mft_record_in(l, img, record_number).len() == l.mft_record_size,
        mft_record_in(l, img, record_number)[i] == image_byte(img, mft_record_position(l, record_number) + i),
{
}

/// The MFT lies inside its partition: every MFT record starts at or after
/// the partition's first byte, and moving the partition by `d` bytes (its
/// offset raised by `d`) moves every record by `d`.
pub proof fn lemma_mft_record_in_partition(l: NtfsLayout, record_number: int, d: int)
    requires
        record_number >= 0,
        0 <= l.partition_offset + d <= u64::MAX,
    ensures
        mft_record_position(l, record_number) >= l.partition_offset,
        mft_record_position(NtfsLayout { partition_offset: (l.partition_offset + d) as u64, ..l }, record_number)
            == mft_record_position(l, record_number) + d,
{
    assert(l.mft_start_cluster * l.bytes_per_cluster >= 0) by (nonlinear_arith);
    assert(record_number * l.mft_record_size >= 0) by (nonlinear_arith) requires record_number >= 0;
}

/// The MFT's records follow one another from its first cluster: record 0
/// starts at the MFT's first cluster of the partition, and each next record
/// one record size further on.
pub proof fn lemma_mft_records_in_sequence(l: NtfsLayout, record_number: int)
    ensures
        mft_record_position(l, 0) == l.partition_offset + l.mft_start_cluster * l.bytes_per_cluster,
        mft_record_position(l, record_number + 1) == mft_record_position(l, record_number) + l.mft_record_size,
{
    assert((record_number + 1) * l.mft_record_size == record_number * l.mft_record_size + l.mft_record_size) by (nonlinear_arith);
}

/// An image that holds the partition `d` bytes further on, behind `d`
/// other bytes, with the partition offset raised by `d`, gives the same MFT
/// records.
pub proof fn lemma_mft_record_moved(l: NtfsLayout, img: Seq<u8>, pad: Seq<u8>, record_number: int)
    requires
        record_number >= 0,
        l.partition_offset + pad.len() <= u64::MAX,
    ensures
        mft_record_in(NtfsLayout { partition_offset: (l.partition_offset + pad.len()) as u64, ..l }, pad + img, record_number)
            == mft_record_in(l, img, record_number),
{
    let moved = NtfsLayout { partition_offset: (l.partition_offset + pad.len()) as u64, ..l };
    lemma_mft_record_in_partition(l, record_number, pad.len() as int);
    let p = mft_record_position(l, record_number);
    assert(mft_record_position(moved, record_number) == p + pad.len());
    assert(p >= 0);
    assert forall|i: int| 0 <= i < l.mft_record_size implies #[trigger] mft_record_in(moved, pad + img, record_number)[i]
        == mft_record_in(l, img, record_number)[i] by {
        assert((pad + img).len() == pad.len() + img.len());
        if p + i < img.len() {
            assert((pad + img)[pad.len() + p + i] == img[p + i]);
        }
    }
    assert(mft_record_in(moved, pad + img, record_number) =~= mft_record_in(l, img, record_number));
}

/// How many MFT records a search for the file at an offset scans:
/// `max_size` divided by the record size, clamped to `100..=10000`.
pub open spec fn ntfs_scan_limit(max_size: int, record_size: int) -> int {
    let by_size = max_size / record_size;
    let capped = if by_size < 10000 { by_size } else { 10000 };
    if capped > 100 { capped } else { 100 }
}

/// Record `r` rebuilds the file at `target` as chain `c`: `c` is what the
/// first of its data attributes that rebuilds a file there describes.
pub open spec fn record_gives_chain(r: Seq<u8>, target: int, max_size: int, bytes_per_cluster: int, c: ClusterChain) -> bool {
    exists|i: int|
        0 <= i < data_attributes(r).len()
        && #[trigger] attr_rebuilds_file_at(data_attributes(r)[i], target, max_size, bytes_per_cluster)
        && (forall|k: int| 0 <= k < i ==> !#[trigger] attr_rebuilds_file_at(data_attributes(r)[k], target, max_size, bytes_per_cluster))
        && chain_of_attr(c, data_attributes(r)[i], bytes_per_cluster)
}

/// A buffer is an MFT record when it starts with `FILE`.
pub open spec fn is_mft_record(r: Seq<u8>) -> bool {
    r.len() >= 4 && r[0] == 0x46 && r[1] == 0x49 && r[2] == 0x4C && r[3] == 0x45
}

/// The data attributes found in the attribute list of `r` that starts at
/// `offset`: for each `$DATA` (0x80) attribute, its data size and its bytes.
/// The list ends at an end marker, a zero-sized attribute, an attribute that
/// runs past the record, or within the last eight bytes of the record.
pub open spec fn data_attributes_from(r: Seq<u8>, offset: int) -> Seq<(u64, Seq<u8>)>
    decreases r.len() - offset,
{
    if offset < 0 || offset >= r.len() - 8 {
        Seq::empty()
    } else {
        let attr_type = le32(r, offset);
        let attr_size = le32(r, offset + 4);
        if attr_type == 0xFFFFFFFF || attr_size == 0 || offset + attr_size > r.len() {
            Seq::empty()
        } else {
            let rest = data_attributes_from(r, offset + attr_size);
            let bytes = r.subrange(offset, offset + attr_size);
            if attr_type == 0x80 && r[offset + 8] != 0 && attr_size >= 0x40 {
                seq![(le64(r, offset + 0x30) as u64, bytes)] + rest
            } else if attr_type == 0x80 && r[offset + 8] == 0 && attr_size >= 0x18 {
                seq![(le32(r, offset + 0x10) as u64, bytes)] + rest
            } else {
                rest
            }
        }
    }
}

/// The data attributes of MFT record `r`.
pub open spec fn data_attributes(r: Seq<u8>) -> Seq<(u64, Seq<u8>)> {
    if r.len() < 0x14 {
        Seq::empty()
    } else {
        data_attributes_from(r, le16(r, 0x14))
    }
}

/// Spec view of a list of attributes as held in memory.
pub open spec fn attrs_view(v: Seq<(u64, Vec<u8>)>) -> Seq<(u64, Seq<u8>)> {
    v.map_values(|p: (u64, Vec<u8>)| (p.0, p.1@))
}

/// The signed displacement encoded by the `size` bytes of `raw`.
pub open spec fn signed_le(raw: nat, size: nat) -> int {
    if size > 0 && raw >= pow256(size) / 2 {
        raw - pow256(size)
    } else {
        raw as int
    }
}

/// A field of `size` bytes read as a signed number is the two's-complement
/// value of its bits: the number in `[-2^(8 size - 1), 2^(8 size - 1))`
/// that differs from the unsigned value by a multiple of `2^(8 size)`.
pub proof fn lemma_signed_le_twos_complement(raw: nat, size: nat)
    requires
        size > 0,
        raw < pow256(size),
    ensures
        -(pow256(size) as int) / 2 <= signed_le(raw, size) < pow256(size) as int / 2,
        signed_le(raw, size) == raw || signed_le(raw, size) == raw - pow256(size),
{
    assert(pow256(size) == 256 * pow256((size - 1) as nat));
}

/// Decodes the runlist of `a` from `offset` on, the previous run having
/// started at cluster `current`. `None` when a run header declares a field
/// wider than eight bytes or a start cluster outside the signed 64-bit range;
/// runs that start before cluster 0 or hold no cluster are left out.
pub open spec fn runlist_from(a: Seq<u8>, offset: int, current: int) -> Option<Seq<DataRun>>
    decreases a.len() - offset,
{
    if offset < 0 || offset >= a.len() {
        Some(Seq::empty())
    } else {
        let header = a[offset];
        let length_size = (header % 16) as int;
        let offset_size = (header / 16) as int;
        let p = offset + 1;
        if header == 0 || length_size == 0 || p + length_size + offset_size > a.len() {
            Some(Seq::empty())
        } else if length_size > 8 || offset_size > 8 {
            None
        } else {
            let run_length = le_value(a.subrange(p, p + length_size));
            let raw = le_value(a.subrange(p + length_size, p + length_size + offset_size));
            let next = current + signed_le(raw, offset_size as nat);
            if next < i64::MIN || next > i64::MAX {
                None
            } else {
                match runlist_from(a, p + length_size + offset_size, next) {
                    None => None,
                    Some(rest) => Some(
                        if next >= 0 && run_length > 0 {
                            seq![DataRun { start_cluster: next as u64, cluster_count: run_length as u64 }] + rest
                        } else {
                            rest
                        },
                    ),
                }
            }
        }
    }
}

/// A runlist of one run: a header byte whose low four bits give the size
/// of the length field and whose high four bits give the size of the start
/// field, those two little-endian fields, then an end byte 0, describes one
/// run of that many clusters starting at the start field read as a signed
/// number (the first run's start is relative to cluster 0).
pub proof fn lemma_runlist_single_run(a: Seq<u8>, o: int)
    requires
        0 <= o < a.len(),
        1 <= a[o] % 16 <= 8,
        1 <= a[o] / 16 <= 8,
        o + 1 + a[o] % 16 + a[o] / 16 < a.len(),
        a[o + 1 + a[o] % 16 + a[o] / 16] == 0,
        le_value(a.subrange(o + 1, o + 1 + a[o] % 16)) > 0,
        signed_le(le_value(a.subrange(o + 1 + a[o] % 16, o + 1 + a[o] % 16 + a[o] / 16)), (a[o] / 16) as nat) >= 0,
    ensures
        runlist_from(a, o, 0) == Some(seq![DataRun {
            start_cluster: signed_le(le_value(a.subrange(o + 1 + a[o] % 16, o + 1 + a[o] % 16 + a[o] / 16)), (a[o] / 16) as nat) as u64,
            cluster_count: le_value(a.subrange(o + 1, o + 1 + a[o] % 16)) as u64,
        }]),
{
    let ls = (a[o] % 16) as int;
    let os = (a[o] / 16) as int;
    let p = o + 1;
    let len_field = a.subrange(p, p + ls);
    let start_field = a.subrange(p + ls, p + ls + os);
    lemma_le_value_bound(len_field);
    lemma_le_value_bound(start_field);
    lemma_pow256_monotone(ls as nat, 8);
    lemma_pow256_monotone(os as nat, 8);
    lemma_signed_le_twos_complement(le_value(start_field), os as nat);
    reveal_with_fuel(pow256, 9);
    assert(pow256(8) == 0x1_0000_0000_0000_0000);
    let rest = runlist_from(a, p + ls + os, signed_le(le_value(start_field), os as nat));
    assert(rest == Some(Seq::<DataRun>::empty()));
    let run = DataRun { start_cluster: signed_le(le_value(start_field), os as nat) as u64, cluster_count: le_value(len_field) as u64 };
    assert(seq![run] + Seq::<DataRun>::empty() =~= seq![run]);
}

/// The runs of a non-resident `$DATA` attribute `a`.
pub open spec fn runlist_of(a: Seq<u8>) -> Option<Seq<DataRun>> {
    if a.len() < 0x40 || le16(a, 0x20) >= a.len() {
        Some(Seq::empty())
    } else {
        runlist_from(a, le16(a, 0x20), 0)
    }
}

/// `256^n` for `n` at most eight.
fn pow256_u128(n: usize) -> (r: u128)
    requires
        n <= 8,
    ensures
        r == pow256(n as nat),
        r <= 18446744073709551616,
{
    let mut r: u128 = 1;
    let mut i: usize = 0;
    while i < n
        invariant
            i <= n <= 8,
            r == pow256(i as nat),
        decreases n - i,
    {
        proof {
            lemma_pow256_monotone(i as nat, 7);
            reveal_with_fuel(pow256, 8);
            assert(pow256(7) == 72057594037927936);
        }
        r = r * 256;
        i = i + 1;
    }
    proof {
        lemma_pow256_monotone(n as nat, 8);
        reveal_with_fuel(pow256, 9);
        assert(pow256(8) == 18446744073709551616);
    }
    r
}

impl NtfsParser {
    #[verifier::type_invariant]
    spec fn inv(&self) -> bool {
        ntfs_layout_wf(self@)
    }

    /// Builds the parser from the partition's boot sector `b`.
    pub fn from_boot_sector(b: &[u8], partition_offset: u64) -> (res: Result<Self, FsError>)
        requires
            b@.len() >= 72,
        ensures
            res matches Ok(p) ==> ntfs_layout_of(b@, partition_offset) == Some(p@),
            res is Ok <==> ntfs_layout_of(b@, partition_offset) is Some,
            res matches Err(e) ==> (e is NotNtfs <==> !has_ntfs_oem(b@)),
            res matches Err(e) ==> (e is NotNtfs || e is InvalidBootSector),
    {
        if !(b[3] == 0x4E && b[4] == 0x54 && b[5] == 0x46 && b[6] == 0x53 && b[7] == 0x20
            && b[8] == 0x20 && b[9] == 0x20 && b[10] == 0x20) {
            return Err(FsError::NotNtfs);
        }
        let bytes_per_sector = read_u16_le(b, 11) as u32;
        let sectors_per_cluster = b[13] as u32;
        assert(bytes_per_sector * sectors_per_cluster <= 65535 * 255) by (nonlinear_arith)
            requires bytes_per_sector <= 65535, sectors_per_cluster <= 255;
        let bytes_per_cluster = (bytes_per_sector * sectors_per_cluster) as u64;
        let mft_start_cluster = read_u64_le(b, 48);
        let raw_byte = b[64];
        let raw: i32 = if raw_byte >= 128 { raw_byte as i32 - 256 } else { raw_byte as i32 };
        if raw <= -64 {
            return Err(FsError::InvalidBootSector);
        }
        let mft_record_size = if raw > 0 {
            assert((raw as u64) * bytes_per_cluster <= 127 * (65535 * 255)) by (nonlinear_arith)
                requires raw <= 127, bytes_per_cluster <= 65535 * 255, raw > 0;
            (raw as u64) * bytes_per_cluster
        } else {
            let e = (-raw) as u64;
            proof {
                lemma_u64_pow2_no_overflow(e as nat);
                lemma_u64_shl_is_mul(1, e);
            }
            1u64 << e
        };
        Ok(NtfsParser {
            partition_offset,
            bytes_per_cluster,
            mft_start_cluster,
            mft_record_size,
            sectors_per_cluster,
        })
    }

    /// Reads the partition's boot sector and builds the parser from it.
    pub fn new<R: DiskImageReader>(reader: &mut R, partition_offset: u64) -> (res: Result<Self, FsError>)
        ensures
            final(reader).image() == old(reader).image(),
            res matches Ok(p) ==> p@.partition_offset == partition_offset
                && ntfs_layout_of(sector_at(old(reader).image(), partition_offset), partition_offset) == Some(p@),
            ntfs_layout_of(sector_at(old(reader).image(), partition_offset), partition_offset) is None ==> res is Err,
            res matches Err(e) ==> e is Read
                || ntfs_layout_of(sector_at(old(reader).image(), partition_offset), partition_offset) is None,
    {
        match read_zeroed(reader, partition_offset, SECTOR_SIZE) {
            Err(e) => Err(FsError::Read(e)),
            Ok(boot_sector) => Self::from_boot_sector(boot_sector.as_slice(), partition_offset),
        }
    }

    /// Byte at which MFT record `record_number` starts; `None` when that
    /// position does not fit in 64 bits.
    fn mft_record_offset(&self, record_number: u64) -> (res: Option<u64>)
        ensures
            res matches Some(o) ==> o == mft_record_position(self@, record_number as int),
            res is None ==> mft_record_position(self@, record_number as int) > u64::MAX,
    {
        let x = self.mft_start_cluster as u128;
        let y = self.bytes_per_cluster as u128;
        let z = record_number as u128;
        let w = self.mft_record_size as u128;
        assert(x * y <= 18446744073709551615 * 18446744073709551615) by (nonlinear_arith)
            requires x <= 18446744073709551615, y <= 18446744073709551615;
        assert(z * w <= 18446744073709551615 * 18446744073709551615) by (nonlinear_arith)
            requires z <= 18446744073709551615, w <= 18446744073709551615;
        let a = x * y;
        let b = z * w;
        if a > u64::MAX as u128 || b > u64::MAX as u128 {
            return None;
        }
        let total = self.partition_offset as u128 + a + b;
        if total > u64::MAX as u128 {
            None
        } else {
            Some(total as u64)
        }
    }

    /// Reads MFT record `record_number` (see [`mft_record_in`]) and checks
    /// its signature. A record position past 64 bits, or a record size past
    /// what memory can address, is refused as an overflow.
    pub fn read_mft_record<R: DiskImageReader>(&self, reader: &mut R, record_number: u64) -> (res: Result<Vec<u8>, FsError>)
        requires
            self@.mft_record_size >= 4,
        ensures
            final(reader).image() == old(reader).image(),
            res matches Ok(r) ==> is_mft_record(r@) && r@ == mft_record_in(self@, old(reader).image(), record_number as int),
            mft_record_position(self@, record_number as int) > u64::MAX ==> res matches Err(FsError::OffsetOverflow),
            !is_mft_record(mft_record_in(self@, old(reader).image(), record_number as int)) ==> res is Err,
            res matches Err(e) ==> e is OffsetOverflow || e is Read
                || !is_mft_record(mft_record_in(self@, old(reader).image(), record_number as int)),
    {
        let offset = match self.mft_record_offset(record_number) {
            Some(o) => o,
            None => return Err(FsError::OffsetOverflow),
        };
        if self.mft_record_size > usize::MAX as u64 {
            return Err(FsError::OffsetOverflow);
        }
        match read_zeroed(reader, offset, self.mft_record_size) {
            Err(e) => Err(FsError::Read(e)),
            Ok(buffer) => {
                if buffer.len() >= 4 && buffer[0] == 0x46 && buffer[1] == 0x49 && buffer[2] == 0x4C
                    && buffer[3] == 0x45 {
                    Ok(buffer)
                } else {
                    Err(FsError::InvalidMftSignature)
                }
            }
        }
    }

    /// The `$DATA` attributes of an MFT record, each with its data size and
    /// its bytes.
    pub fn find_data_attributes(&self, record: &[u8]) -> (attrs: Vec<(u64, Vec<u8>)>)
        requires
            record@.len() < 0x14 || record@.len() >= 0x16,
        ensures
            attrs_view(attrs@) == data_attributes(record@),
    {
        let mut attrs: Vec<(u64, Vec<u8>)> = Vec::new();
        let n = record.len();
        if n < 0x14 {
            proof { assert(attrs_view(attrs@) =~= Seq::<(u64, Seq<u8>)>::empty()); }
            return attrs;
        }
        let attr_offset = read_u16_le(record, 0x14) as usize;
        let mut offset = attr_offset;
        proof { assert(attrs_view(attrs@) =~= Seq::<(u64, Seq<u8>)>::empty()); }
        while offset < n - 8
            invariant
                n == record@.len(),
                n >= 0x16,
                attrs_view(attrs@) + data_attributes_from(record@, offset as int)
                    == data_attributes(record@),
            decreases n - offset,
        {
            let ghost before = attrs_view(attrs@);
            let attr_type = read_u32_le(record, offset);
            let attr_size = read_u32_le(record, offset + 4) as usize;
            if attr_type == 0xFFFFFFFF || attr_size == 0 || attr_size > n - offset {
                proof { assert(before + Seq::<(u64, Seq<u8>)>::empty() =~= before); }
                return attrs;
            }
            let ghost rest = data_attributes_from(record@, offset + attr_size);
            let ghost bytes = record@.subrange(offset as int, offset + attr_size);
            if attr_type == 0x80 {
                let non_resident = record[offset + 8] != 0;
                if non_resident {
                    if attr_size >= 0x40 {
                        let data_size = read_u64_le(record, offset + 0x30);
                        let data = vstd::slice::slice_to_vec(vstd::slice::slice_subrange(record, offset, offset + attr_size));
                        attrs.push((data_size, data));
                        proof {
                            assert(attrs_view(attrs@) =~= before.push((data_size, bytes)));
                            assert(before.push((data_size, bytes)) + rest =~= before + (seq![(data_size, bytes)] + rest));
                        }
                    }
                } else {
                    if attr_size >= 0x18 {
                        let data_size = read_u32_le(record, offset + 0x10) as u64;
                        let data = vstd::slice::slice_to_vec(vstd::slice::slice_subrange(record, offset, offset + attr_size));
                        attrs.push((data_size, data));
                        proof {
                            assert(attrs_view(attrs@) =~= before.push((data_size, bytes)));
                            assert(before.push((data_size, bytes)) + rest =~= before + (seq![(data_size, bytes)] + rest));
                        }
                    }
                }
            }
            offset = offset + attr_size;
        }
        proof {
            if offset >= n - 8 {
                assert(attrs_view(attrs@) + Seq::<(u64, Seq<u8>)>::empty() =~= attrs_view(attrs@));
            }
        }
        attrs
    }

    /// Decodes the runlist of a non-resident `$DATA` attribute. Fails when a
    /// run header declares a field wider than eight bytes or a start cluster
    /// outside the signed 64-bit range.
    pub fn parse_data_runlist(&self, data_attr: &[u8]) -> (res: Result<Vec<DataRun>, FsError>)
        ensures
            res matches Ok(runs) ==> runlist_of(data_attr@) == Some(runs@),
            res is Err <==> runlist_of(data_attr@) is None,
            res matches Err(e) ==> e is MalformedRunlist,
    {
        runlist_decode(data_attr)
    }

    /// First byte of `cluster`.
    pub fn cluster_to_offset(&self, cluster: u64) -> (r: u64)
        requires
            self@.partition_offset + cluster * self@.bytes_per_cluster <= u64::MAX,
        ensures
            r == self@.partition_offset + cluster * self@.bytes_per_cluster,
    {
        self.partition_offset + cluster * self.bytes_per_cluster
    }

    /// Cluster that holds byte `offset` (cluster 0 for bytes before the
    /// partition).
    pub fn offset_to_cluster(&self, offset: u64) -> (r: u64)
        requires
            offset >= self@.partition_offset ==> self@.bytes_per_cluster > 0,
        ensures
            offset < self@.partition_offset ==> r == 0,
            offset >= self@.partition_offset ==> r == (offset - self@.partition_offset) / (self@.bytes_per_cluster as int),
    {
        proof { use_type_invariant(self); }
        if offset < self.partition_offset {
            0
        } else {
            (offset - self.partition_offset) / self.bytes_per_cluster
        }
    }
}

/// Decodes the runlist of `a` (see [`runlist_of`]).
fn runlist_decode(a: &[u8]) -> (res: Result<Vec<DataRun>, FsError>)
    ensures
        res matches Ok(runs) ==> runlist_of(a@) == Some(runs@),
        res is Err <==> runlist_of(a@) is None,
        res matches Err(e) ==> e is MalformedRunlist,
{
    let mut runs: Vec<DataRun> = Vec::new();
    let n = a.len();
    if n < 0x40 {
        proof { assert(runs@ =~= Seq::<DataRun>::empty()); }
        return Ok(runs);
    }
    let runlist_offset = read_u16_le(a, 0x20) as usize;
    if runlist_offset >= n {
        proof { assert(runs@ =~= Seq::<DataRun>::empty()); }
        return Ok(runs);
    }
    let mut offset = runlist_offset;
    let mut current: i64 = 0;
    proof { assert(Seq::<DataRun>::empty() + Seq::<DataRun>::empty() =~= Seq::<DataRun>::empty()); }
    while offset < n
        invariant
            n == a@.len(),
            n >= 0x40,
            offset <= n,
            runlist_of(a@) == (match runlist_from(a@, offset as int, current as int) {
                None => None,
                Some(rest) => Some(runs@ + rest),
            }),
        decreases n - offset,
    {
        let ghost before = runs@;
        let header = a[offset];
        let p = offset + 1;
        let length_size = (header % 16) as usize;
        let offset_size = (header / 16) as usize;
        if header == 0 || length_size == 0 || length_size + offset_size > n - p {
            proof { assert(before + Seq::<DataRun>::empty() =~= before); }
            return Ok(runs);
        }
        if length_size > 8 || offset_size > 8 {
            return Err(FsError::MalformedRunlist);
        }
        let run_length = read_uint_le(a, p, length_size);
        let raw = read_uint_le(a, p + length_size, offset_size);
        let full = pow256_u128(offset_size);
        proof {
            lemma_le_value_bound(a@.subrange((p + length_size) as int, (p + length_size + offset_size) as int));
        }
        let delta: i128 = if offset_size > 0 && raw as u128 >= full / 2 {
            raw as i128 - full as i128
        } else {
            raw as i128
        };
        let next: i128 = current as i128 + delta;
        if next < i64::MIN as i128 || next > i64::MAX as i128 {
            return Err(FsError::MalformedRunlist);
        }
        current = next as i64;
        offset = p + length_size + offset_size;
        if current >= 0 && run_length > 0 {
            let r = DataRun { start_cluster: current as u64, cluster_count: run_length };
            runs.push(r);
            proof {
                let rest = runlist_from(a@, offset as int, current as int);
                if rest is Some {
                    assert(before.push(r) + rest.unwrap() =~= before + (seq![r] + rest.unwrap()));
                }
            }
        }
    }
    proof { assert(runs@ + Seq::<DataRun>::empty() =~= runs@); }
    Ok(runs)
}


/// Every run that a runlist yields holds at least one cluster.
pub proof fn lemma_runlist_runs_nonempty(a: Seq<u8>, offset: int, current: int, runs: Seq<DataRun>)
    requires
        runlist_from(a, offset, current) == Some(runs),
    ensures
        forall|i: int| 0 <= i < runs.len() ==> #[trigger] runs[i].cluster_count > 0,
    decreases a.len() - offset,
{
    if !(offset < 0 || offset >= a.len()) {
        let header = a[offset];
        let length_size = (header % 16) as int;
        let offset_size = (header / 16) as int;
        let p = offset + 1;
        if !(header == 0 || length_size == 0 || p + length_size + offset_size > a.len()) && !(
        length_size > 8 || offset_size > 8) {
            let raw = le_value(a.subrange(p + length_size, p + length_size + offset_size));
            let next = current + signed_le(raw, offset_size as nat);
            let run_length = le_value(a.subrange(p, p + length_size));
            lemma_le_value_bound(a.subrange(p, p + length_size));
            lemma_pow256_monotone(length_size as nat, 8);
            reveal_with_fuel(pow256, 9);
            assert(pow256(8) == 18446744073709551616);
            let rest = runlist_from(a, p + length_size + offset_size, next).unwrap();
            lemma_runlist_runs_nonempty(a, p + length_size + offset_size, next, rest);
            if next >= 0 && run_length > 0 {
                let r = DataRun { start_cluster: next as u64, cluster_count: run_length as u64 };
                assert(runs == seq![r] + rest);
                assert forall|i: int| 0 <= i < runs.len() implies #[trigger] runs[i].cluster_count > 0 by {
                    if i > 0 {
                        assert(runs[i] == rest[i - 1]);
                    } else {
                        assert(runs[i] == r);
                    }
                }
            }
        }
    }
}

/// Every run of a decoded runlist holds at least one cluster.
pub proof fn lemma_runlist_of_runs_nonempty(a: Seq<u8>, runs: Seq<DataRun>)
    requires
        runlist_of(a) == Some(runs),
    ensures
        forall|i: int| 0 <= i < runs.len() ==> #[trigger] runs[i].cluster_count > 0,
{
    if !(a.len() < 0x40 || le16(a, 0x20) >= a.len()) {
        lemma_runlist_runs_nonempty(a, le16(a, 0x20), 0, runs);
    }
}

/// The first cluster of byte `offset` relative to layout `l` (0 before the
/// partition).
pub open spec fn ntfs_cluster_of(l: NtfsLayout, offset: int) -> int {
    if offset < l.partition_offset {
        0
    } else {
        (offset - l.partition_offset) / (l.bytes_per_cluster as int)
    }
}

/// One of `runs` starts at cluster `target`.
pub open spec fn has_run_starting_at(runs: Seq<DataRun>, target: int) -> bool {
    exists|j: int| 0 <= j < runs.len() && #[trigger] runs[j].start_cluster == target && runs[j].cluster_count > 0
}

/// Data attribute `attr` is nonempty and has a run starting at `target`.
pub open spec fn attr_has_run_at(attr: (u64, Seq<u8>), target: int) -> bool {
    &&& attr.0 != 0
    &&& runlist_of(attr.1) is Some
    &&& has_run_starting_at(runlist_of(attr.1).unwrap(), target)
}

/// MFT record `r` has a data run that starts at cluster `target`, and the
/// searched byte lies in the first 512 bytes of that cluster.
pub open spec fn record_locates(r: Seq<u8>, target: int, within: int) -> bool {
    &&& r.len() != 0x14 && r.len() != 0x15
    &&& within < 512
    &&& exists|i: int| 0 <= i < data_attributes(r).len() && #[trigger] attr_has_run_at(data_attributes(r)[i], target)
}

/// A data attribute whose runlist rebuilds a file that starts at cluster
/// `target`: nonempty, at most ten times `max_size` bytes, with a decodable
/// runlist whose first run starts at `target`, and whose cluster and byte
/// totals fit in 64 bits.
pub open spec fn attr_rebuilds_file_at(attr: (u64, Seq<u8>), target: int, max_size: int, bytes_per_cluster: int) -> bool {
    &&& attr.0 != 0
    &&& attr.0 <= max_size * 10
    &&& runlist_of(attr.1) matches Some(runs) && {
        &&& runs.len() > 0
        &&& runs[0].start_cluster == target
        &&& sum_counts(runs) <= u64::MAX
        &&& sum_counts(runs) * bytes_per_cluster <= u64::MAX
    }
}

/// `c` is the chain that data attribute `attr` describes: its runs, their
/// cluster total, and the byte total capped at the attribute's data size.
pub open spec fn chain_of_attr(c: ClusterChain, attr: (u64, Seq<u8>), bytes_per_cluster: int) -> bool {
    &&& runlist_of(attr.1) == Some(c.runs@)
    &&& c.total_clusters == sum_counts(c.runs@)
    &&& c.total_bytes == (if attr.0 < sum_counts(c.runs@) * bytes_per_cluster {
        attr.0 as int
    } else {
        sum_counts(c.runs@) * bytes_per_cluster
    })
    &&& c.is_fragmented == (c.runs@.len() > 1)
}

/// The prefix sums of nonnegative counts grow towards the total.
pub proof fn lemma_sum_counts_prefix(runs: Seq<DataRun>, i: int)
    requires
        0 <= i <= runs.len(),
    ensures
        sum_counts(runs.take(i)) <= sum_counts(runs),
        i < runs.len() ==> sum_counts(runs.take(i + 1)) == sum_counts(runs.take(i))
            + runs[i].cluster_count,
    decreases runs.len() - i,
{
    if i < runs.len() {
        assert(runs.take(i + 1) =~= runs.take(i).push(runs[i]));
        lemma_sum_counts_push(runs.take(i), runs[i]);
        lemma_sum_counts_prefix(runs, i + 1);
    } else {
        assert(runs.take(i) =~= runs);
    }
}

/// The chain made of `runs` with clusters of `bytes_per_cluster` bytes;
/// `None` when its cluster or byte total does not fit in 64 bits.
fn chain_from_runs(runs: &Vec<DataRun>, bytes_per_cluster: u64) -> (res: Option<ClusterChain>)
    requires
        forall|i: int| 0 <= i < runs@.len() ==> #[trigger] runs@[i].cluster_count > 0,
    ensures
        res is Some <==> (sum_counts(runs@) <= u64::MAX && sum_counts(runs@) * bytes_per_cluster <= u64::MAX),
        res matches Some(c) ==> {
            &&& c.runs@ == runs@
            &&& c.total_clusters == sum_counts(runs@)
            &&& c.total_bytes == sum_counts(runs@) * bytes_per_cluster
            &&& c.wf()
        },
{
    let mut chain = ClusterChain::new();
    let mut i: usize = 0;
    let n = runs.len();
    while i < n
        invariant
            n == runs@.len(),
            i <= n,
            forall|k: int| 0 <= k < runs@.len() ==> #[trigger] runs@[k].cluster_count > 0,
            chain.runs@ == runs@.take(i as int),
            chain.total_clusters == sum_counts(runs@.take(i as int)),
            chain.total_bytes == chain.total_clusters * bytes_per_cluster,
            chain.wf(),
        decreases n - i,
    {
        let r = runs[i];
        proof { lemma_sum_counts_prefix(runs@, i as int); }
        let clusters = chain.total_clusters as u128 + r.cluster_count as u128;
        if clusters > u64::MAX as u128 {
            proof { lemma_sum_counts_prefix(runs@, i + 1); }
            return None;
        }
        let x = clusters;
        let y = bytes_per_cluster as u128;
        assert(x * y <= 18446744073709551615 * 18446744073709551615) by (nonlinear_arith)
            requires x <= 18446744073709551615, y <= 18446744073709551615;
        if clusters * bytes_per_cluster as u128 > u64::MAX as u128 {
            proof {
                lemma_sum_counts_prefix(runs@, i + 1);
                let t = sum_counts(runs@);
                assert(t * y >= x * y) by (nonlinear_arith)
                    requires t >= x, y >= 0;
            }
            return None;
        }
        proof {
            assert(x * y == chain.total_clusters * y + r.cluster_count * y) by (nonlinear_arith)
                requires x == chain.total_clusters + r.cluster_count;
            lemma_add_run_keeps_wf(chain.runs@, chain.runs@.push(r), chain.total_clusters as int,
                chain.total_clusters + r.cluster_count, r);
            assert(runs@.take(i + 1) =~= runs@.take(i as int).push(r));
        }
        chain.add_run(r.start_cluster, r.cluster_count, bytes_per_cluster);
        i = i + 1;
    }
    proof { assert(runs@.take(n as int) =~= runs@); }
    Some(chain)
}

impl NtfsParser {
    /// Whether MFT record `record` has a data run starting at cluster
    /// `target_cluster` while the searched byte lies `target_within` bytes
    /// into that cluster, within its first 512 bytes.
    #[verifier::loop_isolation(false)]
    pub fn record_has_run_at(&self, record: &[u8], target_cluster: u64, target_within: u64) -> (r: bool)
        ensures
            r == record_locates(record@, target_cluster as int, target_within as int),
    {
        let n = record.len();
        if n == 0x14 || n == 0x15 || target_within >= 512 {
            return false;
        }
        let attrs = self.find_data_attributes(record);
        let ghost spec_attrs = data_attributes(record@);
        let mut i: usize = 0;
        while i < attrs.len()
            invariant
                attrs_view(attrs@) == spec_attrs,
                spec_attrs == data_attributes(record@),
                i <= attrs@.len(),
                forall|k: int| 0 <= k < i ==> !#[trigger] attr_has_run_at(spec_attrs[k], target_cluster as int),
            decreases attrs@.len() - i,
        {
            let data_size = attrs[i].0;
            let attr = attrs[i].1.as_slice();
            assert(spec_attrs[i as int] == (data_size, attr@));
            if data_size != 0 {
                if let Ok(runs) = self.parse_data_runlist(attr) {
                    let mut j: usize = 0;
                    while j < runs.len()
                        invariant
                            j <= runs@.len(),
                            runlist_of(attr@) == Some(runs@),
                            forall|k: int| 0 <= k < j ==> !(#[trigger] runs@[k].start_cluster == target_cluster
                                && runs@[k].cluster_count > 0),
                            spec_attrs[i as int].1 == attr@,
                        decreases runs@.len() - j,
                    {
                        let run = runs[j];
                        if (run.start_cluster as u128) <= target_cluster as u128
                            && (target_cluster as u128) < run.start_cluster as u128 + run.cluster_count as u128
                            && target_cluster == run.start_cluster {
                            proof {
                                assert(runs@[j as int].start_cluster == target_cluster);
                                assert(runs@[j as int].cluster_count > 0);
                                assert(spec_attrs[i as int].1 == attr@);
                                assert(runlist_of(spec_attrs[i as int].1) == Some(runs@));
                                assert(has_run_starting_at(runs@, target_cluster as int));
                                assert(attr_has_run_at(spec_attrs[i as int], target_cluster as int));
                            }
                            return true;
                        }
                        j = j + 1;
                    }
                }
            }
            i = i + 1;
        }
        false
    }

    /// Scans the first `max_scan_records` MFT records for a data run that
    /// starts at the cluster of byte `offset`, that byte lying in the first
    /// 512 bytes of the cluster; returns the number of the first such record.
    /// Records that cannot be read are passed over.
    pub fn find_mft_entry_by_offset<R: DiskImageReader>(&self, reader: &mut R, offset: u64, max_scan_records: u64) -> (res: Option<u64>)
        requires
            offset >= self@.partition_offset,
            ntfs_can_search(self@, offset as int),
        ensures
            final(reader).image() == old(reader).image(),
            res matches Some(n) ==> n < max_scan_records
                && is_mft_record(mft_record_in(self@, old(reader).image(), n as int))
                && record_locates(
                    mft_record_in(self@, old(reader).image(), n as int),
                    ntfs_cluster_of(self@, offset as int),
                    (offset - self@.partition_offset) % (self@.bytes_per_cluster as int),
                ),
    {
        proof { use_type_invariant(self); }
        let target_cluster = self.offset_to_cluster(offset);
        let rel = offset - self.partition_offset;
        proof {
            vstd::arithmetic::div_mod::lemma_fundamental_div_mod(rel as int, self.bytes_per_cluster as int);
        }
        let target_within = rel % self.bytes_per_cluster;
        let mut mft_num: u64 = 0;
        while mft_num < max_scan_records
            invariant
                mft_num <= max_scan_records,
                target_cluster == ntfs_cluster_of(self@, offset as int),
                target_within == (offset - self@.partition_offset) % (self@.bytes_per_cluster as int),
                reader.image() == old(reader).image(),
                self@.mft_record_size >= 4,
            decreases max_scan_records - mft_num,
        {
            if let Ok(record) = self.read_mft_record(reader, mft_num) {
                if self.record_has_run_at(record.as_slice(), target_cluster, target_within) {
                    return Some(mft_num);
                }
            }
            mft_num = mft_num + 1;
        }
        None
    }

    /// The chain that the first data attribute of MFT record `record` that
    /// rebuilds a file at `target_cluster` describes (see
    /// [`attr_rebuilds_file_at`]), its byte total capped at the attribute's
    /// data size.
    #[verifier::loop_isolation(false)]
    pub fn chain_for_record(&self, record: &[u8], target_cluster: u64, max_size: u64) -> (res: Option<ClusterChain>)
        ensures
            (record@.len() == 0x14 || record@.len() == 0x15) ==> res is None,
            (record@.len() != 0x14 && record@.len() != 0x15) ==> (res is None <==> forall|i: int|
                0 <= i < data_attributes(record@).len() ==> !#[trigger] attr_rebuilds_file_at(
                    data_attributes(record@)[i], target_cluster as int, max_size as int,
                    self@.bytes_per_cluster as int)),
            res matches Some(c) ==> c.wf() && exists|i: int|
                0 <= i < data_attributes(record@).len()
                && #[trigger] attr_rebuilds_file_at(data_attributes(record@)[i], target_cluster as int, max_size as int, self@.bytes_per_cluster as int)
                && (forall|k: int| 0 <= k < i ==> !#[trigger] attr_rebuilds_file_at(data_attributes(record@)[k], target_cluster as int, max_size as int, self@.bytes_per_cluster as int))
                && chain_of_attr(c, data_attributes(record@)[i], self@.bytes_per_cluster as int),
    {
        let n = record.len();
        if n == 0x14 || n == 0x15 {
            return None;
        }
        let attrs = self.find_data_attributes(record);
        let ghost spec_attrs = data_attributes(record@);
        let ghost bpc = self@.bytes_per_cluster as int;
        let mut i: usize = 0;
        while i < attrs.len()
            invariant
                attrs_view(attrs@) == spec_attrs,
                spec_attrs == data_attributes(record@),
                bpc == self@.bytes_per_cluster,
                n == record@.len(),
                n != 0x14 && n != 0x15,
                i <= attrs@.len(),
                forall|k: int| 0 <= k < i ==> !#[trigger] attr_rebuilds_file_at(spec_attrs[k], target_cluster as int, max_size as int, bpc),
            decreases attrs@.len() - i,
        {
            let data_size = attrs[i].0;
            let attr = attrs[i].1.as_slice();
            assert(spec_attrs[i as int] == (data_size, attr@));
            if data_size != 0 && (data_size as u128) <= (max_size as u128) * 10 {
                if let Ok(runs) = self.parse_data_runlist(attr) {
                    proof {
                        assert(runlist_of(attr@) == Some(runs@));
                        lemma_runlist_of_runs_nonempty(attr@, runs@);
                        assert(forall|k: int| 0 <= k < runs@.len() ==> #[trigger] runs@[k].cluster_count > 0);
                    }
                    if runs.len() > 0 && runs[0].start_cluster == target_cluster {
                        if let Some(mut chain) = chain_from_runs(&runs, self.bytes_per_cluster) {
                            if data_size < chain.total_bytes {
                                chain.total_bytes = data_size;
                            }
                            proof {
                                assert(attr_rebuilds_file_at(spec_attrs[i as int], target_cluster as int, max_size as int, bpc));
                                assert(chain_of_attr(chain, spec_attrs[i as int], bpc));
                            }
                            return Some(chain);
                        }
                    }
                }
            }
            i = i + 1;
        }
        None
    }
}


// ---------------------------------------------------------------------------
// FAT allocation chains
// ---------------------------------------------------------------------------

/// `runs` with the run `[start, start + length)` appended when it holds a
/// cluster.
pub open spec fn flushed(runs: Seq<DataRun>, start: u32, length: u32) -> Seq<DataRun> {
    if length > 0 {
        runs.push(DataRun { start_cluster: start as u64, cluster_count: length as u64 })
    } else {
        runs
    }
}

/// Progress of a walk along a FAT allocation chain.
pub struct FatWalk {
    /// Runs completed so far.
    pub chain: ClusterChain,
    /// The cluster whose entry is read next.
    pub current: u32,
    /// Entries read so far.
    pub count: u32,
    /// First cluster of the run in progress.
    pub run_start: u32,
    /// Clusters in the run in progress.
    pub run_length: u32,
}

/// What the walk does after an entry.
#[derive(Debug, Clone, Copy, PartialEq, Eq, Structural)]
pub enum FatStep {
    /// Read the entry of the new current cluster.
    Continue,
    /// The chain is complete.
    Finished,
    /// The chain reached a cluster marked bad.
    BadCluster,
}

/// A walk whose chain has consistent totals for clusters of
/// `bytes_per_cluster` bytes, and that counts every entry read either in the
/// chain or in the run in progress.
pub open spec fn fat_walk_wf(w: FatWalk, bytes_per_cluster: int) -> bool {
    &&& w.chain.wf()
    &&& w.chain.total_bytes == w.chain.total_clusters * bytes_per_cluster
    &&& w.chain.total_clusters + w.run_length == w.count
}

/// The result of one walk step on the FAT entry `next` of `w.current`:
/// runs, current cluster, count, run start, run length and decision. An
/// entry at or above `eoc_min` ends the chain, `bad_marker` marks a bad
/// cluster; a successor of the current cluster extends the run in progress,
/// another one starts a new run; a successor outside `2..=total_clusters`
/// ends the chain after it.
pub open spec fn fat_step(
    w: FatWalk,
    next: u32,
    eoc_min: u32,
    bad_marker: u32,
    total_clusters: u32,
) -> (Seq<DataRun>, u32, u32, u32, u32, FatStep) {
    fat_step_from(w.chain.runs@, w.current, w.count, w.run_start, w.run_length, next, eoc_min, bad_marker, total_clusters)
}

/// [`fat_step`] on a walk given by its runs, current cluster, count, run
/// start and run length.
pub open spec fn fat_step_from(
    runs: Seq<DataRun>,
    current: u32,
    count: u32,
    run_start: u32,
    run_length: u32,
    next: u32,
    eoc_min: u32,
    bad_marker: u32,
    total_clusters: u32,
) -> (Seq<DataRun>, u32, u32, u32, u32, FatStep) {
    if next >= eoc_min || next == bad_marker {
        (
            flushed(runs, run_start, run_length),
            current,
            count,
            run_start,
            run_length,
            if next >= eoc_min { FatStep::Finished } else { FatStep::BadCluster },
        )
    } else {
        let extends = next == current + 1;
        let runs1 = if extends { runs } else { flushed(runs, run_start, run_length) };
        let start1 = if extends { run_start } else { next };
        let length1 = if extends { (run_length + 1) as u32 } else { 1u32 };
        if next < 2 || next > total_clusters {
            (flushed(runs1, start1, length1), next, (count + 1) as u32, start1, length1, FatStep::Finished)
        } else {
            (runs1, next, (count + 1) as u32, start1, length1, FatStep::Continue)
        }
    }
}

/// The walk from cluster `start` after the FAT entries `entries`, in turn
/// (see [`fat_step`]): runs, current cluster, count, run start, run length
/// and the decision on the last entry.
pub open spec fn fat_walk_after(
    start: u32,
    entries: Seq<u32>,
    eoc_min: u32,
    bad_marker: u32,
    total_clusters: u32,
) -> (Seq<DataRun>, u32, u32, u32, u32, FatStep)
    decreases entries.len(),
{
    if entries.len() == 0 {
        (Seq::empty(), start, 0u32, start, 0u32, FatStep::Continue)
    } else {
        let w = fat_walk_after(start, entries.drop_last(), eoc_min, bad_marker, total_clusters);
        fat_step_from(w.0, w.1, w.2, w.3, w.4, entries.last(), eoc_min, bad_marker, total_clusters)
    }
}

/// The runs of the chain that the walk from cluster `start` builds when the
/// FAT entries it reads are `entries`, in turn, and it reads no more: each
/// entry but the last lets it go on, and it stops at the last one by an end
/// of chain, or after `max_clusters` entries with the run in progress left
/// out. `None` where no such walk reads exactly these entries, or where it
/// reaches a bad cluster.
pub open spec fn fat_chain_runs(
    start: u32,
    entries: Seq<u32>,
    max_clusters: u32,
    eoc_min: u32,
    bad_marker: u32,
    total_clusters: u32,
) -> Option<Seq<DataRun>> {
    let w = fat_walk_after(start, entries, eoc_min, bad_marker, total_clusters);
    if entries.len() <= max_clusters && forall|i: int| 0 <= i < entries.len()
        ==> (#[trigger] fat_walk_after(start, entries.take(i), eoc_min, bad_marker, total_clusters)).5 == FatStep::Continue {
        if entries.len() > 0 && w.5 == FatStep::Finished {
            Some(w.0)
        } else if w.5 == FatStep::Continue && entries.len() == max_clusters {
            Some(w.0)
        } else {
            None
        }
    } else {
        None
    }
}

/// The entries of clusters `start`, `start + 1`, ... that each name the
/// cluster after them: `start + 1`, ..., `start + n`.
pub open spec fn successive_entries(start: u32, n: nat) -> Seq<u32> {
    Seq::new(n, |i: int| (start + 1 + i) as u32)
}

/// A walk that has followed `j` successive clusters from `start` holds no
/// finished run: its run in progress starts at `start` and counts `j`.
proof fn lemma_fat_walk_successive(start: u32, j: nat, eoc_min: u32, bad_marker: u32, total_clusters: u32)
    requires
        2 <= start,
        start + j <= total_clusters,
        start + j < bad_marker,
        start + j < eoc_min,
    ensures
        fat_walk_after(start, successive_entries(start, j), eoc_min, bad_marker, total_clusters)
            == (Seq::<DataRun>::empty(), (start + j) as u32, j as u32, start, j as u32, FatStep::Continue),
    decreases j,
{
    if j > 0 {
        lemma_fat_walk_successive(start, (j - 1) as nat, eoc_min, bad_marker, total_clusters);
        assert(successive_entries(start, j).drop_last() =~= successive_entries(start, (j - 1) as nat));
    }
}

/// A file whose clusters follow one another from `start`, each FAT entry
/// naming the next cluster up to an end-of-chain mark after `n` of them, is
/// one run that starts at `start` and counts `n` clusters, when the walk may
/// read all `n + 1` entries.
pub proof fn lemma_fat_chain_one_run(
    start: u32,
    n: nat,
    end_mark: u32,
    max_clusters: u32,
    eoc_min: u32,
    bad_marker: u32,
    total_clusters: u32,
)
    requires
        2 <= start,
        n >= 1,
        start + n <= total_clusters,
        start + n < bad_marker,
        start + n < eoc_min,
        end_mark >= eoc_min,
        n + 1 <= max_clusters,
    ensures
        fat_chain_runs(start, successive_entries(start, n).push(end_mark), max_clusters, eoc_min, bad_marker, total_clusters)
            == Some(seq![DataRun { start_cluster: start as u64, cluster_count: n as u64 }]),
{
    let e = successive_entries(start, n).push(end_mark);
    assert(e.drop_last() =~= successive_entries(start, n));
    lemma_fat_walk_successive(start, n, eoc_min, bad_marker, total_clusters);
    assert forall|i: int| 0 <= i < e.len() implies (#[trigger] fat_walk_after(start, e.take(i), eoc_min, bad_marker, total_clusters)).5 == FatStep::Continue by {
        assert(e.take(i) =~= successive_entries(start, i as nat));
        lemma_fat_walk_successive(start, i as nat, eoc_min, bad_marker, total_clusters);
    }
    assert(Seq::<DataRun>::empty().push(DataRun { start_cluster: start as u64, cluster_count: n as u64 })
        =~= seq![DataRun { start_cluster: start as u64, cluster_count: n as u64 }]);
}

/// How many FAT entries a search for the file at an offset reads at most:
/// `max_size` bytes' worth of clusters of `bytes_per_cluster` bytes, at
/// least one, at most `total_clusters`.
pub open spec fn fat_chain_limit(max_size: int, bytes_per_cluster: int, total_clusters: int) -> int {
    let by_size = max_size / bytes_per_cluster;
    let at_least_one = if by_size > 1 { by_size } else { 1 };
    if at_least_one < total_clusters { at_least_one } else { total_clusters }
}

/// Reading one more entry applies one more step (see [`fat_step_from`]),
/// and leaves the walks after the earlier entries as they were.
pub proof fn lemma_fat_walk_push(start: u32, entries: Seq<u32>, next: u32, eoc_min: u32, bad_marker: u32, total_clusters: u32)
    ensures
        ({
            let w = fat_walk_after(start, entries, eoc_min, bad_marker, total_clusters);
            fat_walk_after(start, entries.push(next), eoc_min, bad_marker, total_clusters)
                == fat_step_from(w.0, w.1, w.2, w.3, w.4, next, eoc_min, bad_marker, total_clusters)
        }),
        forall|i: int| 0 <= i <= entries.len() ==> #[trigger] entries.push(next).take(i) == entries.take(i),
        entries.push(next).take(entries.len() + 1int) == entries.push(next),
        entries.take(entries.len() as int) == entries,
{
    assert(entries.push(next).drop_last() =~= entries);
    assert forall|i: int| 0 <= i <= entries.len() implies #[trigger] entries.push(next).take(i) == entries.take(i) by {
        assert(entries.push(next).take(i) =~= entries.take(i));
    }
    assert(entries.push(next).take(entries.len() + 1int) =~= entries.push(next));
    assert(entries.take(entries.len() as int) =~= entries);
}

/// The entries are those that the FAT `entry` gives for the clusters the
/// walk from `start` visits: each the entry of the walk's current cluster
/// after the entries before it.
pub open spec fn fat_entries_follow(
    start: u32,
    entries: Seq<u32>,
    eoc_min: u32,
    bad_marker: u32,
    total_clusters: u32,
    entry: spec_fn(u32) -> int,
) -> bool {
    forall|i: int| 0 <= i < entries.len() ==> entries[i] as int
        == entry((#[trigger] fat_walk_after(start, entries.take(i), eoc_min, bad_marker, total_clusters)).1)
}

/// What a walk along a FAT allocation chain from `start` through at most
/// `max_clusters` entries gives: a chain with consistent totals for clusters
/// of `bytes_per_cluster` bytes, built from the entries read (see
/// [`fat_chain_runs`]) when the FAT gives `entry` for each cluster; an
/// empty chain when no entry is to be read; and
/// `InvalidCluster` when one is, but `start` lies outside
/// `2..=total_clusters`.
pub open spec fn fat_chain_result(
    res: Result<ClusterChain, FsError>,
    start: u32,
    max_clusters: u32,
    eoc_min: u32,
    bad_marker: u32,
    total_clusters: u32,
    bytes_per_cluster: int,
    entry: spec_fn(u32) -> int,
) -> bool {
    &&& res matches Ok(c) ==> {
        &&& c.wf()
        &&& c.total_bytes == c.total_clusters * bytes_per_cluster
        &&& c.total_clusters <= max_clusters
        &&& exists|entries: Seq<u32>| #[trigger] fat_chain_runs(start, entries, max_clusters, eoc_min, bad_marker, total_clusters) == Some(c.runs@)
            && fat_entries_follow(start, entries, eoc_min, bad_marker, total_clusters, entry)
    }
    &&& max_clusters == 0 ==> (res matches Ok(c) && c.runs@.len() == 0)
    &&& max_clusters > 0 && (start < 2 || start > total_clusters) ==> (res matches Err(FsError::InvalidCluster(c)) && c == start)
}

/// Appends the run in progress to the chain when it holds a cluster.
fn flush_run(chain: &mut ClusterChain, start: u32, length: u32, bytes_per_cluster: u64)
    requires
        old(chain).wf(),
        old(chain).total_bytes == old(chain).total_clusters * bytes_per_cluster,
        old(chain).total_clusters + length <= u32::MAX + 1,
        bytes_per_cluster <= 65535 * 255,
    ensures
        final(chain).wf(),
        final(chain).runs@ == flushed(old(chain).runs@, start, length),
        final(chain).total_clusters == old(chain).total_clusters + length,
        final(chain).total_bytes == final(chain).total_clusters * bytes_per_cluster,
{
    if length > 0 {
        let ghost r = DataRun { start_cluster: start as u64, cluster_count: length as u64 };
        proof {
            let t = old(chain).total_clusters as int;
            let l = length as int;
            let b = bytes_per_cluster as int;
            assert((t + l) * b <= (u32::MAX + 1) * (65535 * 255)) by (nonlinear_arith)
                requires t + l <= u32::MAX + 1, 0 <= b <= 65535 * 255, t >= 0, l >= 0;
            assert((t + l) * b == t * b + l * b) by (nonlinear_arith);
            lemma_add_run_keeps_wf(old(chain).runs@, old(chain).runs@.push(r), t, t + l, r);
        }
        chain.add_run(start as u64, length as u64, bytes_per_cluster);
    }
}

/// Applies the FAT entry `next` of the walk's current cluster (see
/// [`fat_step`]).
pub fn fat_walk_step(
    walk: &mut FatWalk,
    next: u32,
    eoc_min: u32,
    bad_marker: u32,
    total_clusters: u32,
    bytes_per_cluster: u64,
) -> (step: FatStep)
    requires
        fat_walk_wf(*old(walk), bytes_per_cluster as int),
        old(walk).count < u32::MAX,
        bytes_per_cluster <= 65535 * 255,
    ensures
        ({
            let (runs, current, count, run_start, run_length, s) = fat_step(
                *old(walk),
                next,
                eoc_min,
                bad_marker,
                total_clusters,
            );
            &&& final(walk).chain.runs@ == runs
            &&& final(walk).current == current
            &&& final(walk).count == count
            &&& final(walk).run_start == run_start
            &&& final(walk).run_length == run_length
            &&& step == s
        }),
        final(walk).chain.wf(),
        final(walk).chain.total_bytes == final(walk).chain.total_clusters * bytes_per_cluster,
        final(walk).chain.total_clusters <= final(walk).count,
        step == FatStep::Continue ==> fat_walk_wf(*final(walk), bytes_per_cluster as int),
{
    let is_eoc = next >= eoc_min;
    let is_bad = next == bad_marker;
    if is_eoc || is_bad {
        flush_run(&mut walk.chain, walk.run_start, walk.run_length, bytes_per_cluster);
        return if is_eoc { FatStep::Finished } else { FatStep::BadCluster };
    }
    if next as u64 == walk.current as u64 + 1 {
        walk.run_length = walk.run_length + 1;
    } else {
        flush_run(&mut walk.chain, walk.run_start, walk.run_length, bytes_per_cluster);
        walk.run_start = next;
        walk.run_length = 1;
    }
    walk.current = next;
    walk.count = walk.count + 1;
    if next < 2 || next > total_clusters {
        flush_run(&mut walk.chain, walk.run_start, walk.run_length, bytes_per_cluster);
        return FatStep::Finished;
    }
    FatStep::Continue
}

/// The walk that starts at cluster `start`, with nothing read yet.
pub fn fat_walk_start(start: u32) -> (w: FatWalk)
    ensures
        w.chain.runs@.len() == 0,
        w.current == start,
        w.count == 0,
        w.run_start == start,
        w.run_length == 0,
        forall|b: int| fat_walk_wf(w, b),
{
    FatWalk { chain: ClusterChain::new(), current: start, count: 0, run_start: start, run_length: 0 }
}

// ---------------------------------------------------------------------------
// FAT32
// ---------------------------------------------------------------------------

/// The geometry a FAT32 boot sector gives.
pub struct Fat32Layout {
    pub partition_offset: u64,
    pub bytes_per_sector: u16,
    pub sectors_per_cluster: u8,
    pub reserved_sectors: u16,
    pub number_of_fats: u8,
    pub fat_size_sectors: u32,
    pub root_cluster: u32,
    pub total_clusters: u32,
    pub bytes_per_cluster: u64,
    pub fat_start_sector: u32,
    pub data_start_sector: u32,
}

/// Reader of FAT32 metadata in the partition that starts at `partition_offset`.
pub struct Fat32Parser {
    partition_offset: u64,
    bytes_per_sector: u16,
    sectors_per_cluster: u8,
    reserved_sectors: u16,
    number_of_fats: u8,
    fat_size_sectors: u32,
    root_cluster: u32,
    total_clusters: u32,
    bytes_per_cluster: u64,
    fat_start_sector: u32,
    data_start_sector: u32,
}

/// The FAT32 layout described by boot sector `b`: `None` when a sector or
/// cluster size is zero, when the FAT region does not fit in 32 bits, or
/// when it is larger than the volume.
pub open spec fn fat32_layout_of(b: Seq<u8>, partition_offset: u64) -> Option<Fat32Layout> {
    let bytes_per_sector = le16(b, 11);
    let sectors_per_cluster = b[13] as int;
    let reserved = le16(b, 14);
    let fat_sectors = b[16] * le32(b, 36);
    let data_start = reserved + fat_sectors;
    let total_sectors = le32(b, 32);
    if sectors_per_cluster == 0 || fat_sectors > u32::MAX || data_start
        > u32::MAX || data_start > total_sectors {
        None
    } else {
        Some(
            Fat32Layout {
                partition_offset,
                bytes_per_sector: bytes_per_sector as u16,
                sectors_per_cluster: b[13],
                reserved_sectors: reserved as u16,
                number_of_fats: b[16],
                fat_size_sectors: le32(b, 36) as u32,
                root_cluster: le32(b, 44) as u32,
                total_clusters: ((total_sectors - data_start) / sectors_per_cluster) as u32,
                bytes_per_cluster: (bytes_per_sector * sectors_per_cluster) as u64,
                fat_start_sector: reserved as u32,
                data_start_sector: data_start as u32,
            },
        )
    }
}

/// Sector and cluster sizes of a FAT32 layout are positive and the cluster
/// size is their product.
pub open spec fn fat32_layout_wf(l: Fat32Layout) -> bool {
    &&& l.sectors_per_cluster > 0
    &&& l.bytes_per_cluster == l.bytes_per_sector * l.sectors_per_cluster
}

/// A walk along the FAT32 allocation chain of layout `l` from `start`
/// through at most `max_clusters` entries divides by nothing that is zero:
/// where it reads an entry, the sector size is nonzero.
pub open spec fn fat32_can_walk(l: Fat32Layout, start: int, max_clusters: int) -> bool {
    max_clusters > 0 && 2 <= start <= l.total_clusters ==> l.bytes_per_sector > 0
}

impl View for Fat32Parser {
    type V = Fat32Layout;

    closed spec fn view(&self) -> Fat32Layout {
        Fat32Layout {
            partition_offset: self.partition_offset,
            bytes_per_sector: self.bytes_per_sector,
            sectors_per_cluster: self.sectors_per_cluster,
            reserved_sectors: self.reserved_sectors,
            number_of_fats: self.number_of_fats,
            fat_size_sectors: self.fat_size_sectors,
            root_cluster: self.root_cluster,
            total_clusters: self.total_clusters,
            bytes_per_cluster: self.bytes_per_cluster,
            fat_start_sector: self.fat_start_sector,
            data_start_sector: self.data_start_sector,
        }
    }
}

/// Cluster that holds byte `offset` in a FAT layout with data area at
/// sector `data_start`: `None` before the data area, or when the cluster
/// number, taken modulo `modulus` (the range of the FAT's cluster type),
/// exceeds `total_clusters`.
pub open spec fn fat_cluster_of(
    modulus: int,
    partition_offset: int,
    bytes_per_sector: int,
    sectors_per_cluster: int,
    data_start: int,
    total_clusters: int,
    offset: int,
) -> Option<int> {
    if offset < partition_offset {
        None
    } else {
        let rel_sector = (offset - partition_offset) / bytes_per_sector;
        if rel_sector < data_start {
            None
        } else {
            let cluster = (rel_sector - data_start) / sectors_per_cluster + 2;
            if cluster % modulus > total_clusters {
                None
            } else {
                Some(cluster % modulus)
            }
        }
    }
}

/// First byte of the FAT sector that holds the entry of `cluster`, for a
/// FAT of `entry_bytes`-byte entries from sector `fat_start` of a partition
/// at `partition_offset` with `bytes_per_sector`-byte sectors.
pub open spec fn fat_entry_sector(partition_offset: int, fat_start: int, bytes_per_sector: int, entry_bytes: int, cluster: int) -> int {
    partition_offset + (fat_start + (cluster * entry_bytes) / bytes_per_sector) * bytes_per_sector
}

/// The FAT32 entry of `cluster` in image `img` of layout `l`.
pub open spec fn fat32_entry_of(l: Fat32Layout, img: Seq<u8>, cluster: int) -> int {
    let bps = l.bytes_per_sector as int;
    let sector = image_window(img, fat_entry_sector(l.partition_offset as int, l.fat_start_sector as int, bps, 4, cluster), bps);
    fat32_entry_value(sector, (cluster * 4) % bps)
}

/// A FAT32 entry is the little-endian 32-bit word at byte `4 * cluster` of
/// the FAT, without its top four bits; the FAT begins at sector
/// `fat_start_sector` of the partition (for sectors whose size is a
/// multiple of 4, so that no entry straddles two sectors).
pub proof fn lemma_fat32_entry_in_fat(l: Fat32Layout, img: Seq<u8>, cluster: int)
    requires
        l.bytes_per_sector > 0,
        l.bytes_per_sector % 4 == 0,
        cluster >= 0,
    ensures
        ({
            let at = l.partition_offset + l.fat_start_sector * l.bytes_per_sector + 4 * cluster;
            fat32_entry_of(l, img, cluster) == (image_byte(img, at) + 256 * image_byte(img, at + 1)
                + 65536 * image_byte(img, at + 2) + 16777216 * image_byte(img, at + 3)) % 0x10000000
        }),
{
    let bps = l.bytes_per_sector as int;
    let x = cluster * 4;
    let q = x / bps;
    let r = x % bps;
    vstd::arithmetic::div_mod::lemma_fundamental_div_mod(x, bps);
    let m = bps / 4;
    assert(bps == 4 * m);
    assert(r == 4 * (cluster - q * m)) by (nonlinear_arith)
        requires x == bps * q + r, bps == 4 * m, x == cluster * 4;
    assert(r + 4 <= bps);
    let start = fat_entry_sector(l.partition_offset as int, l.fat_start_sector as int, bps, 4, cluster);
    let w = image_window(img, start, bps);
    let at = l.partition_offset + l.fat_start_sector * bps + 4 * cluster;
    assert(start + r == at) by (nonlinear_arith)
        requires start == l.partition_offset + (l.fat_start_sector + q) * bps, x == bps * q + r, x == cluster * 4,
            at == l.partition_offset + l.fat_start_sector * bps + 4 * cluster;
    assert(w[r] == image_byte(img, at));
    assert(w[r + 1] == image_byte(img, at + 1));
    assert(w[r + 2] == image_byte(img, at + 2));
    assert(w[r + 3] == image_byte(img, at + 3));
    lemma_fat32_entry_value(w, r);
}

/// The FAT32 entries of image `img` of layout `l`, by cluster.
pub open spec fn fat32_entries(l: Fat32Layout, img: Seq<u8>) -> spec_fn(u32) -> int {
    |c: u32| fat32_entry_of(l, img, c as int)
}

/// The little-endian 32-bit FAT entry at `i` of `s`, without its top four
/// bits.
pub open spec fn fat32_entry_value(s: Seq<u8>, i: int) -> int {
    s[i] + 256 * s[i + 1] + 65536 * s[i + 2] + 16777216 * (s[i + 3] % 16)
}

/// The FAT32 entry value is the 32-bit field with its top four bits cleared.
pub proof fn lemma_fat32_entry_value(s: Seq<u8>, i: int)
    requires
        0 <= i,
        i + 4 <= s.len(),
    ensures
        fat32_entry_value(s, i) == le32(s, i) % 0x10000000,
{
    let low = s[i] + 256 * s[i + 1] + 65536 * s[i + 2];
    let hi = s[i + 3] as int;
    assert(0 <= low < 16777216);
    vstd::arithmetic::div_mod::lemma_fundamental_div_mod(hi, 16);
    let q = hi / 16;
    let r = hi % 16;
    assert(le32(s, i) == (low + 16777216 * r) + 0x10000000 * q) by (nonlinear_arith)
        requires hi == 16 * q + r, le32(s, i) == low + 16777216 * hi;
    assert(0 <= low + 16777216 * r < 0x10000000) by (nonlinear_arith)
        requires 0 <= r < 16, 0 <= low < 16777216;
    vstd::arithmetic::div_mod::lemma_mod_multiples_vanish(q, low + 16777216 * r, 0x10000000);
    vstd::arithmetic::div_mod::lemma_small_mod((low + 16777216 * r) as nat, 0x10000000);
}

impl Fat32Parser {
    #[verifier::type_invariant]
    spec fn inv(&self) -> bool {
        fat32_layout_wf(self@)
    }

    /// Builds the parser from the partition's boot sector `b`.
    pub fn from_boot_sector(b: &[u8], partition_offset: u64) -> (res: Result<Self, FsError>)
        requires
            b@.len() >= 48,
        ensures
            res matches Ok(p) ==> fat32_layout_of(b@, partition_offset) == Some(p@),
            res is Ok <==> fat32_layout_of(b@, partition_offset) is Some,
            res matches Err(e) ==> e is InvalidBootSector,
    {
        let bytes_per_sector = read_u16_le(b, 11);
        let sectors_per_cluster = b[13];
        let reserved_sectors = read_u16_le(b, 14);
        let number_of_fats = b[16];
        let fat_size_sectors = read_u32_le(b, 36);
        let root_cluster = read_u32_le(b, 44);
        let total_sectors_32 = read_u32_le(b, 32);
        if sectors_per_cluster == 0 {
            return Err(FsError::InvalidBootSector);
        }
        assert((bytes_per_sector as u64) * (sectors_per_cluster as u64) <= 65535 * 255) by (nonlinear_arith)
            requires bytes_per_sector <= 65535, sectors_per_cluster <= 255;
        let bytes_per_cluster = (bytes_per_sector as u64) * (sectors_per_cluster as u64);
        assert(number_of_fats as u64 * fat_size_sectors as u64 <= 255 * 4294967295) by (nonlinear_arith)
            requires number_of_fats <= 255, fat_size_sectors <= 4294967295;
        let total_fat_sectors = number_of_fats as u64 * fat_size_sectors as u64;
        let data_start = reserved_sectors as u64 + total_fat_sectors;
        if total_fat_sectors > u32::MAX as u64 || data_start > u32::MAX as u64
            || data_start > total_sectors_32 as u64 {
            return Err(FsError::InvalidBootSector);
        }
        let fat_start_sector = reserved_sectors as u32;
        let data_start_sector = data_start as u32;
        let data_sectors = total_sectors_32 - data_start_sector;
        let total_clusters = data_sectors / sectors_per_cluster as u32;
        Ok(Fat32Parser {
            partition_offset,
            bytes_per_sector,
            sectors_per_cluster,
            reserved_sectors,
            number_of_fats,
            fat_size_sectors,
            root_cluster,
            total_clusters,
            bytes_per_cluster,
            fat_start_sector,
            data_start_sector,
        })
    }

    /// Reads the partition's boot sector and builds the parser from it.
    pub fn new<R: DiskImageReader>(reader: &mut R, partition_offset: u64) -> (res: Result<Self, FsError>)
        ensures
            final(reader).image() == old(reader).image(),
            res matches Ok(p) ==> p@.partition_offset == partition_offset
                && fat32_layout_of(sector_at(old(reader).image(), partition_offset), partition_offset) == Some(p@),
            fat32_layout_of(sector_at(old(reader).image(), partition_offset), partition_offset) is None ==> res is Err,
            res matches Err(e) ==> e is Read
                || fat32_layout_of(sector_at(old(reader).image(), partition_offset), partition_offset) is None,
    {
        match read_zeroed(reader, partition_offset, SECTOR_SIZE) {
            Err(e) => Err(FsError::Read(e)),
            Ok(boot_sector) => Self::from_boot_sector(boot_sector.as_slice(), partition_offset),
        }
    }

    /// First byte of data cluster `cluster` (clusters are numbered from 2).
    pub fn cluster_to_offset(&self, cluster: u32) -> (r: u64)
        requires
            cluster >= 2,
            self@.data_start_sector + (cluster - 2) * self@.sectors_per_cluster <= u32::MAX,
            self@.partition_offset + (self@.data_start_sector + (cluster - 2)
                * self@.sectors_per_cluster) * self@.bytes_per_sector <= u64::MAX,
        ensures
            r == fat32_cluster_start(self@, cluster as int),
    {
        let cluster_sector = self.data_start_sector + (cluster - 2) * self.sectors_per_cluster as u32;
        self.partition_offset + cluster_sector as u64 * self.bytes_per_sector as u64
    }

    /// Data cluster that holds byte `offset` (see [`fat_cluster_of`]).
    pub fn offset_to_cluster(&self, offset: u64) -> (res: Option<u32>)
        requires
            offset >= self@.partition_offset ==> self@.bytes_per_sector > 0,
        ensures
            res matches Some(c) ==> fat_cluster_of(0x1_0000_0000, self@.partition_offset as int, self@.bytes_per_sector as int,
                self@.sectors_per_cluster as int, self@.data_start_sector as int, self@.total_clusters as int,
                offset as int) == Some(c as int),
            res is None ==> fat_cluster_of(0x1_0000_0000, self@.partition_offset as int, self@.bytes_per_sector as int,
                self@.sectors_per_cluster as int, self@.data_start_sector as int, self@.total_clusters as int,
                offset as int) is None,
    {
        proof { use_type_invariant(self); }
        if offset < self.partition_offset {
            return None;
        }
        let rel_offset = offset - self.partition_offset;
        let rel_sector = rel_offset / self.bytes_per_sector as u64;
        if rel_sector < self.data_start_sector as u64 {
            return None;
        }
        let data_sector = rel_sector - self.data_start_sector as u64;
        let cluster = (data_sector / self.sectors_per_cluster as u64) as u128 + 2;
        let c32 = (cluster % 0x1_0000_0000) as u32;
        if cluster < 2 || c32 > self.total_clusters {
            return None;
        }
        Some(c32)
    }

    /// Reads the FAT entry of `cluster`: its 32-bit little-endian value
    /// without the top four bits, taken from the FAT sector that holds it.
    pub fn read_fat_entry<R: DiskImageReader>(&self, reader: &mut R, cluster: u32) -> (res: Result<u32, FsError>)
        requires
            2 <= cluster <= self@.total_clusters ==> self@.bytes_per_sector > 0,
        ensures
            final(reader).image() == old(reader).image(),
            (cluster < 2 || cluster > self@.total_clusters) ==> (res matches Err(FsError::InvalidCluster(c)) && c == cluster),
            res matches Ok(e) ==> 2 <= cluster <= self@.total_clusters && e < 0x10000000
                && e == fat32_entry_of(self@, old(reader).image(), cluster as int),
    {
        proof { use_type_invariant(self); }
        if cluster < 2 || cluster > self.total_clusters {
            return Err(FsError::InvalidCluster(cluster));
        }
        let bps = self.bytes_per_sector as u64;
        let fat_offset = cluster as u64 * 4;
        let fat_sector = self.fat_start_sector as u64 + (fat_offset / bps);
        let sector_offset = fat_offset % bps;
        assert(fat_offset / bps <= fat_offset) by (nonlinear_arith)
            requires bps >= 1;
        assert(fat_sector as u128 * bps as u128 <= 0x6_0000_0000 * 65535) by (nonlinear_arith)
            requires fat_sector <= 0x6_0000_0000, bps <= 65535;
        let disk = self.partition_offset as u128 + fat_sector as u128 * bps as u128;
        if disk > u64::MAX as u128 {
            return Err(FsError::OffsetOverflow);
        }
        match read_zeroed(reader, disk as u64, bps) {
            Err(e) => Err(FsError::Read(e)),
            Ok(sector_buf) => {
                let so = sector_offset as usize;
                if sector_buf.len() < 4 || so > sector_buf.len() - 4 {
                    return Err(FsError::FatEntryOutOfBounds);
                }
                let entry = sector_buf[so] as u32 + (sector_buf[so + 1] as u32) * 256
                    + (sector_buf[so + 2] as u32) * 65536 + ((sector_buf[so + 3] % 16) as u32) * 16777216;
                proof {
                    assert(entry == fat32_entry_value(sector_buf@, so as int));
                    assert(so as int == (cluster * 4) % (self@.bytes_per_sector as int));
                }
                Ok(entry)
            }
        }
    }

    /// Follows the allocation chain from `start_cluster` through at most
    /// `max_clusters` FAT entries. An end-of-chain mark (`0x0FFFFFF8` and
    /// above) or a successor outside the data area ends it; a bad-cluster
    /// mark (`0x0FFFFFF7`) fails it.
    pub fn build_cluster_chain_from_fat<R: DiskImageReader>(&self, reader: &mut R, start_cluster: u32, max_clusters: u32) -> (res: Result<ClusterChain, FsError>)
        requires
            fat32_can_walk(self@, start_cluster as int, max_clusters as int),
        ensures
            final(reader).image() == old(reader).image(),
            fat_chain_result(res, start_cluster, max_clusters, 0x0FFFFFF8, 0x0FFFFFF7, self@.total_clusters,
                self@.bytes_per_cluster as int, fat32_entries(self@, old(reader).image())),
    {
        proof {
            use_type_invariant(self);
            let a = self@.bytes_per_sector as int;
            let b = self@.sectors_per_cluster as int;
            assert(a * b <= 65535 * 255) by (nonlinear_arith)
                requires 0 <= a <= 65535, 0 <= b <= 255;
        }
        let ghost eoc: u32 = 0x0FFFFFF8;
        let ghost bad: u32 = 0x0FFFFFF7;
        let ghost total: u32 = self@.total_clusters;
        let ghost read: Seq<u32> = Seq::empty();
        let ghost img = reader.image();
        let ghost entry = fat32_entries(self@, img);
        let mut walk = fat_walk_start(start_cluster);
        proof { assert(walk.chain.runs@ =~= Seq::<DataRun>::empty()); }
        while walk.count < max_clusters
            invariant
                fat_walk_wf(walk, self@.bytes_per_cluster as int),
                walk.count <= max_clusters,
                fat32_layout_wf(self@),
                self@.bytes_per_cluster <= 65535 * 255,
                max_clusters == 0 ==> walk.chain.runs@.len() == 0,
                total == self@.total_clusters,
                eoc == 0x0FFFFFF8,
                bad == 0x0FFFFFF7,
                walk.count == read.len(),
                ({
                    let w = fat_walk_after(start_cluster, read, eoc, bad, total);
                    &&& walk.chain.runs@ == w.0
                    &&& walk.current == w.1
                    &&& walk.count == w.2
                    &&& walk.run_start == w.3
                    &&& walk.run_length == w.4
                }),
                forall|i: int| 0 <= i <= read.len()
                    ==> (#[trigger] fat_walk_after(start_cluster, read.take(i), eoc, bad, total)).5 == FatStep::Continue,
                walk.count > 0 ==> 2 <= start_cluster <= total,
                reader.image() == img,
                img == old(reader).image(),
                entry == fat32_entries(self@, img),
                fat_entries_follow(start_cluster, read, eoc, bad, total, entry),
                fat32_can_walk(self@, start_cluster as int, max_clusters as int),
                walk.count > 0 ==> self@.bytes_per_sector > 0,
            decreases max_clusters - walk.count,
        {
            let next = match self.read_fat_entry(reader, walk.current) {
                Ok(e) => e,
                Err(e) => return Err(e),
            };
            let ghost read1 = read.push(next);
            proof {
                lemma_fat_walk_push(start_cluster, read, next, eoc, bad, total);
                assert(fat_entries_follow(start_cluster, read1, eoc, bad, total, entry)) by {
                    assert forall|i: int| 0 <= i < read1.len() implies read1[i] as int
                        == entry((#[trigger] fat_walk_after(start_cluster, read1.take(i), eoc, bad, total)).1) by {
                        if i < read.len() {
                            assert(read1[i] == read[i]);
                            assert(read1.take(i) == read.take(i));
                        } else {
                            assert(read1.take(i) == read.take(i));
                            assert(read.take(i) == read);
                        }
                    }
                }
            }
            let step = fat_walk_step(&mut walk, next, 0x0FFFFFF8, 0x0FFFFFF7, self.total_clusters, self.bytes_per_cluster);
            match step {
                FatStep::Continue => {
                    proof { read = read1; }
                }
                FatStep::Finished => {
                    proof {
                        assert(fat_chain_runs(start_cluster, read1, max_clusters, eoc, bad, total) == Some(walk.chain.runs@));
                    }
                    return Ok(walk.chain);
                }
                FatStep::BadCluster => return Err(FsError::BadCluster),
            }
        }
        proof {
            assert(read.take(read.len() as int) =~= read);
            assert(fat_chain_runs(start_cluster, read, max_clusters, eoc, bad, total) == Some(walk.chain.runs@));
        }
        Ok(walk.chain)
    }
}


// ---------------------------------------------------------------------------
// FAT16
// ---------------------------------------------------------------------------

/// The geometry a FAT16 boot sector gives.
pub struct Fat16Layout {
    pub partition_offset: u64,
    pub bytes_per_sector: u16,
    pub sectors_per_cluster: u8,
    pub reserved_sectors: u16,
    pub number_of_fats: u8,
    pub fat_size_sectors: u16,
    pub root_entries: u16,
    pub total_sectors: u32,
    pub total_clusters: u16,
    pub bytes_per_cluster: u64,
    pub fat_start_sector: u16,
    pub root_dir_start_sector: u16,
    pub data_start_sector: u16,
}

/// Reader of FAT16 metadata in the partition that starts at `partition_offset`.
pub struct Fat16Parser {
    partition_offset: u64,
    bytes_per_sector: u16,
    sectors_per_cluster: u8,
    reserved_sectors: u16,
    number_of_fats: u8,
    fat_size_sectors: u16,
    root_entries: u16,
    total_sectors: u32,
    total_clusters: u16,
    bytes_per_cluster: u64,
    fat_start_sector: u16,
    root_dir_start_sector: u16,
    data_start_sector: u16,
}

/// The FAT16 entry of `cluster` in image `img` of layout `l`.
pub open spec fn fat16_entry_of(l: Fat16Layout, img: Seq<u8>, cluster: int) -> int {
    let bps = l.bytes_per_sector as int;
    let sector = image_window(img, fat_entry_sector(l.partition_offset as int, l.fat_start_sector as int, bps, 2, cluster), bps);
    le16(sector, (cluster * 2) % bps)
}

/// A FAT16 entry is the little-endian 16-bit word at byte `2 * cluster` of
/// the FAT, which begins at sector `fat_start_sector` of the partition (for
/// sectors of an even size, so that no entry straddles two sectors).
pub proof fn lemma_fat16_entry_in_fat(l: Fat16Layout, img: Seq<u8>, cluster: int)
    requires
        l.bytes_per_sector > 0,
        l.bytes_per_sector % 2 == 0,
        cluster >= 0,
    ensures
        ({
            let at = l.partition_offset + l.fat_start_sector * l.bytes_per_sector + 2 * cluster;
            fat16_entry_of(l, img, cluster) == image_byte(img, at) + 256 * image_byte(img, at + 1)
        }),
{
    let bps = l.bytes_per_sector as int;
    let x = cluster * 2;
    let q = x / bps;
    let r = x % bps;
    vstd::arithmetic::div_mod::lemma_fundamental_div_mod(x, bps);
    let m = bps / 2;
    assert(bps == 2 * m);
    assert(r == 2 * (cluster - q * m)) by (nonlinear_arith)
        requires x == bps * q + r, bps == 2 * m, x == cluster * 2;
    assert(r + 2 <= bps);
    let start = fat_entry_sector(l.partition_offset as int, l.fat_start_sector as int, bps, 2, cluster);
    let w = image_window(img, start, bps);
    let at = l.partition_offset + l.fat_start_sector * bps + 2 * cluster;
    assert(start + r == at) by (nonlinear_arith)
        requires start == l.partition_offset + (l.fat_start_sector + q) * bps, x == bps * q + r, x == cluster * 2,
            at == l.partition_offset + l.fat_start_sector * bps + 2 * cluster;
    assert(w[r] == image_byte(img, at));
    assert(w[r + 1] == image_byte(img, at + 1));
}

/// The FAT16 entries of image `img` of layout `l`, by cluster.
pub open spec fn fat16_entries(l: Fat16Layout, img: Seq<u8>) -> spec_fn(u32) -> int {
    |c: u32| fat16_entry_of(l, img, c as int)
}

/// The FAT16 layout described by boot sector `b`: `None` when a sector or
/// cluster size is zero, when a sector number of the layout does not fit in
/// 16 bits, or when the metadata is larger than the volume. The root
/// directory's sector count is kept modulo `2^16`, and so is the cluster
/// count.
pub open spec fn fat16_layout_of(b: Seq<u8>, partition_offset: u64) -> Option<Fat16Layout> {
    let bytes_per_sector = le16(b, 11);
    let sectors_per_cluster = b[13] as int;
    let reserved = le16(b, 14);
    let fat_sectors = b[16] * le16(b, 22);
    let root_dir_start = reserved + fat_sectors;
    let total_sectors = fat_total_sectors(b);
    if bytes_per_sector == 0 || sectors_per_cluster == 0 {
        None
    } else {
        let root_dir_sectors = (le16(b, 17) * 32 + bytes_per_sector - 1) / bytes_per_sector;
        let data_start = root_dir_start + root_dir_sectors % 0x10000;
        if fat_sectors > u16::MAX || root_dir_start > u16::MAX || data_start > u16::MAX || data_start
            > total_sectors {
            None
        } else {
            Some(
                Fat16Layout {
                    partition_offset,
                    bytes_per_sector: bytes_per_sector as u16,
                    sectors_per_cluster: b[13],
                    reserved_sectors: reserved as u16,
                    number_of_fats: b[16],
                    fat_size_sectors: le16(b, 22) as u16,
                    root_entries: le16(b, 17) as u16,
                    total_sectors: total_sectors as u32,
                    total_clusters: (((total_sectors - data_start) / sectors_per_cluster) % 0x10000) as u16,
                    bytes_per_cluster: (bytes_per_sector * sectors_per_cluster) as u64,
                    fat_start_sector: reserved as u16,
                    root_dir_start_sector: root_dir_start as u16,
                    data_start_sector: data_start as u16,
                },
            )
        }
    }
}

/// Sector and cluster sizes of a FAT16 layout are positive and the cluster
/// size is their product.
pub open spec fn fat16_layout_wf(l: Fat16Layout) -> bool {
    &&& l.bytes_per_sector > 0
    &&& l.sectors_per_cluster > 0
    &&& l.bytes_per_cluster > 0
    &&& l.bytes_per_cluster == l.bytes_per_sector * l.sectors_per_cluster
}

impl View for Fat16Parser {
    type V = Fat16Layout;

    closed spec fn view(&self) -> Fat16Layout {
        Fat16Layout {
            partition_offset: self.partition_offset,
            bytes_per_sector: self.bytes_per_sector,
            sectors_per_cluster: self.sectors_per_cluster,
            reserved_sectors: self.reserved_sectors,
            number_of_fats: self.number_of_fats,
            fat_size_sectors: self.fat_size_sectors,
            root_entries: self.root_entries,
            total_sectors: self.total_sectors,
            total_clusters: self.total_clusters,
            bytes_per_cluster: self.bytes_per_cluster,
            fat_start_sector: self.fat_start_sector,
            root_dir_start_sector: self.root_dir_start_sector,
            data_start_sector: self.data_start_sector,
        }
    }
}

impl Fat16Parser {
    #[verifier::type_invariant]
    spec fn inv(&self) -> bool {
        fat16_layout_wf(self@)
    }

    /// Builds the parser from the partition's boot sector `b`.
    pub fn from_boot_sector(b: &[u8], partition_offset: u64) -> (res: Result<Self, FsError>)
        requires
            b@.len() >= 36,
        ensures
            res matches Ok(p) ==> fat16_layout_of(b@, partition_offset) == Some(p@),
            res is Ok <==> fat16_layout_of(b@, partition_offset) is Some,
            res matches Err(e) ==> e is InvalidBootSector,
    {
        let bytes_per_sector = read_u16_le(b, 11);
        let sectors_per_cluster = b[13];
        let reserved_sectors = read_u16_le(b, 14);
        let number_of_fats = b[16];
        let fat_size_sectors = read_u16_le(b, 22);
        let root_entries = read_u16_le(b, 17);
        let total_sectors_16 = read_u16_le(b, 19);
        let total_sectors = if total_sectors_16 == 0 {
            read_u32_le(b, 32)
        } else {
            total_sectors_16 as u32
        };
        if bytes_per_sector == 0 || sectors_per_cluster == 0 {
            return Err(FsError::InvalidBootSector);
        }
        let bps32 = bytes_per_sector as u32;
        let root_dir_sectors = ((root_entries as u32 * 32) + (bps32 - 1)) / bps32;
        assert(number_of_fats as u32 * fat_size_sectors as u32 <= 255 * 65535) by (nonlinear_arith)
            requires number_of_fats <= 255, fat_size_sectors <= 65535;
        let total_fat_sectors = number_of_fats as u32 * fat_size_sectors as u32;
        let root_dir_start = reserved_sectors as u32 + total_fat_sectors;
        let data_start = root_dir_start + root_dir_sectors % 0x10000;
        if total_fat_sectors > u16::MAX as u32 || root_dir_start > u16::MAX as u32
            || data_start > u16::MAX as u32 || data_start > total_sectors {
            return Err(FsError::InvalidBootSector);
        }
        let fat_start_sector = reserved_sectors;
        let data_sectors = total_sectors - data_start;
        let total_clusters = ((data_sectors / sectors_per_cluster as u32) % 0x10000) as u16;
        assert((bytes_per_sector as u64) * (sectors_per_cluster as u64) <= 65535 * 255) by (nonlinear_arith)
            requires bytes_per_sector <= 65535, sectors_per_cluster <= 255;
        assert((bytes_per_sector as u64) * (sectors_per_cluster as u64) > 0) by (nonlinear_arith)
            requires bytes_per_sector > 0, sectors_per_cluster > 0;
        let bytes_per_cluster = (bytes_per_sector as u64) * (sectors_per_cluster as u64);
        Ok(Fat16Parser {
            partition_offset,
            bytes_per_sector,
            sectors_per_cluster,
            reserved_sectors,
            number_of_fats,
            fat_size_sectors,
            root_entries,
            total_sectors,
            total_clusters,
            bytes_per_cluster,
            fat_start_sector,
            root_dir_start_sector: root_dir_start as u16,
            data_start_sector: data_start as u16,
        })
    }

    /// Reads the partition's boot sector and builds the parser from it.
    pub fn new<R: DiskImageReader>(reader: &mut R, partition_offset: u64) -> (res: Result<Self, FsError>)
        ensures
            final(reader).image() == old(reader).image(),
            res matches Ok(p) ==> p@.partition_offset == partition_offset
                && fat16_layout_of(sector_at(old(reader).image(), partition_offset), partition_offset) == Some(p@),
            fat16_layout_of(sector_at(old(reader).image(), partition_offset), partition_offset) is None ==> res is Err,
            res matches Err(e) ==> e is Read
                || fat16_layout_of(sector_at(old(reader).image(), partition_offset), partition_offset) is None,
    {
        match read_zeroed(reader, partition_offset, SECTOR_SIZE) {
            Err(e) => Err(FsError::Read(e)),
            Ok(boot_sector) => Self::from_boot_sector(boot_sector.as_slice(), partition_offset),
        }
    }

    /// First byte of data cluster `cluster` (clusters are numbered from 2).
    pub fn cluster_to_offset(&self, cluster: u16) -> (r: u64)
        requires
            cluster >= 2,
            self@.partition_offset + (self@.data_start_sector + (cluster - 2)
                * self@.sectors_per_cluster) * self@.bytes_per_sector <= u64::MAX,
        ensures
            r == fat16_cluster_start(self@, cluster as int),
    {
        let c = cluster as u64 - 2;
        let spc = self.sectors_per_cluster as u64;
        assert(c * spc <= 65535 * 255) by (nonlinear_arith)
            requires c <= 65535, spc <= 255;
        let cluster_sector = self.data_start_sector as u64 + c * spc;
        self.partition_offset + cluster_sector * self.bytes_per_sector as u64
    }

    /// Data cluster that holds byte `offset` (see [`fat_cluster_of`]).
    pub fn offset_to_cluster(&self, offset: u64) -> (res: Option<u16>)
        ensures
            res matches Some(c) ==> fat_cluster_of(0x10000, self@.partition_offset as int, self@.bytes_per_sector as int,
                self@.sectors_per_cluster as int, self@.data_start_sector as int, self@.total_clusters as int,
                offset as int) == Some(c as int),
            res is None ==> fat_cluster_of(0x10000, self@.partition_offset as int, self@.bytes_per_sector as int,
                self@.sectors_per_cluster as int, self@.data_start_sector as int, self@.total_clusters as int,
                offset as int) is None,
    {
        proof { use_type_invariant(self); }
        if offset < self.partition_offset {
            return None;
        }
        let rel_offset = offset - self.partition_offset;
        let rel_sector = rel_offset / self.bytes_per_sector as u64;
        if rel_sector < self.data_start_sector as u64 {
            return None;
        }
        let data_sector = rel_sector - self.data_start_sector as u64;
        let cluster = (data_sector / self.sectors_per_cluster as u64) as u128 + 2;
        let c16 = (cluster % 0x10000) as u16;
        if cluster < 2 || c16 > self.total_clusters {
            return None;
        }
        Some(c16)
    }

    /// Reads the FAT entry of `cluster`: the little-endian 16-bit value in
    /// the FAT sector that holds it.
    pub fn read_fat_entry<R: DiskImageReader>(&self, reader: &mut R, cluster: u16) -> (res: Result<u16, FsError>)
        ensures
            final(reader).image() == old(reader).image(),
            (cluster < 2 || cluster > self@.total_clusters) ==> (res matches Err(FsError::InvalidCluster(c)) && c == cluster),
            res matches Ok(e) ==> 2 <= cluster <= self@.total_clusters
                && e == fat16_entry_of(self@, old(reader).image(), cluster as int),
    {
        proof { use_type_invariant(self); }
        if cluster < 2 || cluster > self.total_clusters {
            return Err(FsError::InvalidCluster(cluster as u32));
        }
        let bps = self.bytes_per_sector as u64;
        let fat_offset = cluster as u64 * 2;
        assert(fat_offset / bps <= fat_offset) by (nonlinear_arith)
            requires bps >= 1;
        let fat_sector = self.fat_start_sector as u64 + (fat_offset / bps);
        let sector_offset = fat_offset % bps;
        assert(fat_sector as u128 * bps as u128 <= 0x3_0000 * 65535) by (nonlinear_arith)
            requires fat_sector <= 0x3_0000, bps <= 65535;
        let disk = self.partition_offset as u128 + fat_sector as u128 * bps as u128;
        if disk > u64::MAX as u128 {
            return Err(FsError::OffsetOverflow);
        }
        match read_zeroed(reader, disk as u64, bps) {
            Err(e) => Err(FsError::Read(e)),
            Ok(sector_buf) => {
                let so = sector_offset as usize;
                if sector_buf.len() < 2 || so > sector_buf.len() - 2 {
                    return Err(FsError::FatEntryOutOfBounds);
                }
                let entry = read_u16_le(sector_buf.as_slice(), so);
                proof {
                    assert(so as int == (cluster * 2) % (self@.bytes_per_sector as int));
                }
                Ok(entry)
            }
        }
    }

    /// Follows the allocation chain from `start_cluster` through at most
    /// `max_clusters` FAT entries. An end-of-chain mark (`0xFFF8` and above)
    /// or a successor outside the data area ends it; a bad-cluster mark
    /// (`0xFFF7`) fails it.
    pub fn build_cluster_chain_from_fat<R: DiskImageReader>(&self, reader: &mut R, start_cluster: u16, max_clusters: u16) -> (res: Result<ClusterChain, FsError>)
        ensures
            final(reader).image() == old(reader).image(),
            fat_chain_result(res, start_cluster as u32, max_clusters as u32, 0xFFF8, 0xFFF7, self@.total_clusters as u32,
                self@.bytes_per_cluster as int, fat16_entries(self@, old(reader).image())),
    {
        proof {
            use_type_invariant(self);
            let a = self@.bytes_per_sector as int;
            let b = self@.sectors_per_cluster as int;
            assert(a * b <= 65535 * 255) by (nonlinear_arith)
                requires 0 <= a <= 65535, 0 <= b <= 255;
        }
        let ghost start: u32 = start_cluster as u32;
        let ghost total: u32 = self@.total_clusters as u32;
        let ghost read: Seq<u32> = Seq::empty();
        let ghost img = reader.image();
        let ghost entry = fat16_entries(self@, img);
        let mut walk = fat_walk_start(start_cluster as u32);
        proof { assert(walk.chain.runs@ =~= Seq::<DataRun>::empty()); }
        while walk.count < max_clusters as u32
            invariant
                fat_walk_wf(walk, self@.bytes_per_cluster as int),
                walk.count <= max_clusters,
                walk.current <= 0xFFFF,
                self@.bytes_per_cluster <= 65535 * 255,
                max_clusters == 0 ==> walk.chain.runs@.len() == 0,
                start == start_cluster,
                total == self@.total_clusters,
                walk.count == read.len(),
                ({
                    let w = fat_walk_after(start, read, 0xFFF8, 0xFFF7, total);
                    &&& walk.chain.runs@ == w.0
                    &&& walk.current == w.1
                    &&& walk.count == w.2
                    &&& walk.run_start == w.3
                    &&& walk.run_length == w.4
                }),
                forall|i: int| 0 <= i <= read.len()
                    ==> (#[trigger] fat_walk_after(start, read.take(i), 0xFFF8, 0xFFF7, total)).5 == FatStep::Continue,
                walk.count > 0 ==> 2 <= start_cluster <= total,
                reader.image() == img,
                img == old(reader).image(),
                entry == fat16_entries(self@, img),
                fat_entries_follow(start, read, 0xFFF8, 0xFFF7, total, entry),
            decreases max_clusters - walk.count,
        {
            let next = match self.read_fat_entry(reader, walk.current as u16) {
                Ok(e) => e,
                Err(e) => return Err(e),
            };
            let ghost read1 = read.push(next as u32);
            proof {
                lemma_fat_walk_push(start, read, next as u32, 0xFFF8, 0xFFF7, total);
                assert(fat_entries_follow(start, read1, 0xFFF8, 0xFFF7, total, entry)) by {
                    assert forall|i: int| 0 <= i < read1.len() implies read1[i] as int
                        == entry((#[trigger] fat_walk_after(start, read1.take(i), 0xFFF8, 0xFFF7, total)).1) by {
                        if i < read.len() {
                            assert(read1[i] == read[i]);
                            assert(read1.take(i) == read.take(i));
                        } else {
                            assert(read1.take(i) == read.take(i));
                            assert(read.take(i) == read);
                        }
                    }
                }
            }
            let step = fat_walk_step(&mut walk, next as u32, 0xFFF8, 0xFFF7, self.total_clusters as u32, self.bytes_per_cluster);
            match step {
                FatStep::Continue => {
                    proof { read = read1; }
                }
                FatStep::Finished => {
                    proof {
                        assert(fat_chain_runs(start, read1, max_clusters as u32, 0xFFF8, 0xFFF7, total) == Some(walk.chain.runs@));
                    }
                    return Ok(walk.chain);
                }
                FatStep::BadCluster => return Err(FsError::BadCluster),
            }
        }
        proof {
            assert(read.take(read.len() as int) =~= read);
            assert(fat_chain_runs(start, read, max_clusters as u32, 0xFFF8, 0xFFF7, total) == Some(walk.chain.runs@));
        }
        Ok(walk.chain)
    }
}

// ---------------------------------------------------------------------------
// The parsers behind one interface
// ---------------------------------------------------------------------------

/// What the carver asks of a file-system parser.
pub trait FileSystemParser {
    /// The file system read.
    fn fs_type(&self) -> FileSystemType;

    /// Bytes per cluster.
    fn cluster_size(&self) -> u64;

    /// First byte of the partition.
    fn partition_offset(&self) -> u64;

    /// Whether [`FileSystemParser::find_file_by_offset`] can look for the
    /// file at byte `offset`.
    spec fn can_search(&self, offset: u64) -> bool;

    /// Whether [`FileSystemParser::build_cluster_chain`] can follow the
    /// chain from `start_cluster` through at most `max_clusters` clusters.
    spec fn can_build(&self, start_cluster: u64, max_clusters: u64) -> bool;

    /// The chain of at most `max_clusters` clusters that starts at
    /// `start_cluster`.
    fn build_cluster_chain<R: DiskImageReader>(&self, reader: &mut R, start_cluster: u64, max_clusters: u64) -> (res: Result<ClusterChain, FsError>)
        requires
            self.can_build(start_cluster, max_clusters),
        ensures
            res matches Ok(c) ==> c.wf();

    /// The chain of the file whose data starts at byte `offset`, of at most
    /// `max_size` bytes, when the metadata knows one.
    fn find_file_by_offset<R: DiskImageReader>(&self, reader: &mut R, offset: u64, max_size: u64) -> (res: Option<ClusterChain>)
        requires
            self.can_search(offset),
        ensures
            res matches Some(c) ==> c.wf();
}

impl FileSystemParser for NtfsParser {
    fn fs_type(&self) -> (t: FileSystemType)
        ensures
            t == FileSystemType::Ntfs,
    {
        FileSystemType::Ntfs
    }

    fn cluster_size(&self) -> (r: u64)
        ensures
            r == self@.bytes_per_cluster,
    {
        self.bytes_per_cluster
    }

    /// Any chain: NTFS reads nothing to build one.
    open spec fn can_build(&self, start_cluster: u64, max_clusters: u64) -> bool {
        true
    }

    /// Records of at least 4 bytes, and a nonzero cluster size for an
    /// offset inside the partition (see [`ntfs_can_search`]).
    open spec fn can_search(&self, offset: u64) -> bool {
        ntfs_can_search(self@, offset as int)
    }

    fn partition_offset(&self) -> (r: u64)
        ensures
            r == self@.partition_offset,
    {
        self.partition_offset
    }

    /// NTFS keeps no allocation chain: the chain is the start cluster alone.
    fn build_cluster_chain<R: DiskImageReader>(&self, _reader: &mut R, start_cluster: u64, _max_clusters: u64) -> (res: Result<ClusterChain, FsError>)
        ensures
            final(_reader).image() == old(_reader).image(),
            res matches Ok(c) && c.runs@ == seq![DataRun { start_cluster, cluster_count: 1 }]
                && c.total_clusters == 1 && c.total_bytes == self@.bytes_per_cluster,
    {
        let mut chain = ClusterChain::new();
        chain.add_run(start_cluster, 1, self.bytes_per_cluster);
        proof {
            assert(Seq::<DataRun>::empty().push(DataRun { start_cluster, cluster_count: 1 }) =~= seq![DataRun { start_cluster, cluster_count: 1 }]);
            assert(chain.runs@ =~= Seq::<DataRun>::empty().push(DataRun { start_cluster, cluster_count: 1 }));
            lemma_add_run_keeps_wf(Seq::empty(), chain.runs@, 0, 1, DataRun { start_cluster, cluster_count: 1 });
        }
        Ok(chain)
    }

    /// Scans between 100 and 10000 MFT records (`max_size` divided by the
    /// record size, clamped) for a data attribute whose runlist starts at
    /// the cluster of `offset` (see [`NtfsParser::chain_for_record`]).
    fn find_file_by_offset<R: DiskImageReader>(&self, reader: &mut R, offset: u64, max_size: u64) -> (res: Option<ClusterChain>)
        ensures
            res matches Some(c) ==> c.runs@.len() > 0 && c.runs@[0].start_cluster == ntfs_cluster_of(self@, offset as int)
                && c.total_bytes <= c.total_clusters * self@.bytes_per_cluster,
            final(reader).image() == old(reader).image(),
            res matches Some(c) ==> exists|k: int| 0 <= k < ntfs_scan_limit(max_size as int, self@.mft_record_size as int)
                && is_mft_record(mft_record_in(self@, old(reader).image(), k))
                && #[trigger] record_gives_chain(mft_record_in(self@, old(reader).image(), k), ntfs_cluster_of(self@, offset as int),
                    max_size as int, self@.bytes_per_cluster as int, c),
    {
        proof { use_type_invariant(self); }
        let target_cluster = self.offset_to_cluster(offset);
        let by_size = max_size / self.mft_record_size;
        let capped = if by_size < 10000 { by_size } else { 10000 };
        let max_scan = if capped > 100 { capped } else { 100 };
        let mut mft_num: u64 = 0;
        while mft_num < max_scan
            invariant
                target_cluster == ntfs_cluster_of(self@, offset as int),
                ntfs_layout_wf(self@),
                reader.image() == old(reader).image(),
                max_scan == ntfs_scan_limit(max_size as int, self@.mft_record_size as int),
                self@.mft_record_size >= 4,
            decreases max_scan - mft_num,
        {
            if let Ok(record) = self.read_mft_record(reader, mft_num) {
                if let Some(chain) = self.chain_for_record(record.as_slice(), target_cluster, max_size) {
                    proof {
                        let attrs = data_attributes(record@);
                        let i = choose|i: int| 0 <= i < attrs.len()
                            && #[trigger] attr_rebuilds_file_at(attrs[i], target_cluster as int, max_size as int, self@.bytes_per_cluster as int)
                            && (forall|k: int| 0 <= k < i ==> !#[trigger] attr_rebuilds_file_at(attrs[k], target_cluster as int, max_size as int, self@.bytes_per_cluster as int))
                            && chain_of_attr(chain, attrs[i], self@.bytes_per_cluster as int);
                        let t = sum_counts(chain.runs@);
                        let b = self@.bytes_per_cluster as int;
                        lemma_sum_counts_nonneg(chain.runs@);
                        assert(t * b >= 0) by (nonlinear_arith) requires t >= 0, b >= 0;
                        assert(record_gives_chain(mft_record_in(self@, old(reader).image(), mft_num as int), target_cluster as int,
                            max_size as int, self@.bytes_per_cluster as int, chain));
                    }
                    return Some(chain);
                }
            }
            mft_num = mft_num + 1;
        }
        None
    }
}

impl FileSystemParser for Fat32Parser {
    fn fs_type(&self) -> (t: FileSystemType)
        ensures
            t == FileSystemType::Fat32,
    {
        FileSystemType::Fat32
    }

    fn cluster_size(&self) -> (r: u64)
        ensures
            r == self@.bytes_per_cluster,
    {
        self.bytes_per_cluster
    }

    /// A walk that reads an entry needs a nonzero sector size (see
    /// [`fat32_can_walk`]).
    open spec fn can_build(&self, start_cluster: u64, max_clusters: u64) -> bool {
        fat32_can_walk(self@, (start_cluster % 0x1_0000_0000) as int, (max_clusters % 0x1_0000_0000) as int)
    }

    /// A nonzero sector size for an offset inside the partition.
    open spec fn can_search(&self, offset: u64) -> bool {
        offset >= self@.partition_offset ==> self@.bytes_per_sector > 0
    }

    fn partition_offset(&self) -> (r: u64)
        ensures
            r == self@.partition_offset,
    {
        self.partition_offset
    }

    /// The FAT chain from `start_cluster`, both numbers taken modulo `2^32`.
    fn build_cluster_chain<R: DiskImageReader>(&self, reader: &mut R, start_cluster: u64, max_clusters: u64) -> (res: Result<ClusterChain, FsError>)
        ensures
            final(reader).image() == old(reader).image(),
            fat_chain_result(res, (start_cluster % 0x1_0000_0000) as u32, (max_clusters % 0x1_0000_0000) as u32,
                0x0FFFFFF8, 0x0FFFFFF7, self@.total_clusters, self@.bytes_per_cluster as int, fat32_entries(self@, old(reader).image())),
    {
        self.build_cluster_chain_from_fat(reader, (start_cluster % 0x1_0000_0000) as u32, (max_clusters % 0x1_0000_0000) as u32)
    }

    /// The FAT chain of the cluster that holds `offset`, through at most
    /// `max_size` bytes' worth of clusters (at least one, at most the
    /// volume's cluster count).
    fn find_file_by_offset<R: DiskImageReader>(&self, reader: &mut R, offset: u64, max_size: u64) -> (res: Option<ClusterChain>)
        ensures
            res matches Some(c) ==> c.total_bytes == c.total_clusters * self@.bytes_per_cluster
                && c.total_clusters <= self@.total_clusters,
            fat_cluster_of(0x1_0000_0000, self@.partition_offset as int, self@.bytes_per_sector as int,
                self@.sectors_per_cluster as int, self@.data_start_sector as int, self@.total_clusters as int,
                offset as int) is None ==> res is None,
            res matches Some(c) ==> (fat_cluster_of(0x1_0000_0000, self@.partition_offset as int, self@.bytes_per_sector as int,
                self@.sectors_per_cluster as int, self@.data_start_sector as int, self@.total_clusters as int,
                offset as int) matches Some(s) && exists|entries: Seq<u32>| #[trigger] fat_chain_runs(s as u32, entries,
                    fat_chain_limit(max_size as int, self@.bytes_per_cluster as int, self@.total_clusters as int) as u32,
                    0x0FFFFFF8, 0x0FFFFFF7, self@.total_clusters) == Some(c.runs@)
                    && fat_entries_follow(s as u32, entries, 0x0FFFFFF8, 0x0FFFFFF7, self@.total_clusters, fat32_entries(self@, old(reader).image()))),
            final(reader).image() == old(reader).image(),
    {
        proof { use_type_invariant(self); }
        let start_cluster = match self.offset_to_cluster(offset) {
            Some(c) => c,
            None => return None,
        };
        proof {
            let a = self@.bytes_per_sector as int;
            let b = self@.sectors_per_cluster as int;
            assert(a * b > 0) by (nonlinear_arith) requires a > 0, b > 0;
        }
        let by_size = max_size / self.bytes_per_cluster;
        let at_least_one = if by_size > 1 { by_size } else { 1 };
        let max_clusters = if at_least_one < self.total_clusters as u64 { at_least_one } else { self.total_clusters as u64 };
        proof {
            assert(max_clusters == fat_chain_limit(max_size as int, self@.bytes_per_cluster as int, self@.total_clusters as int));
        }
        match self.build_cluster_chain_from_fat(reader, start_cluster, max_clusters as u32) {
            Ok(c) => {
                proof {
                    let entries = choose|entries: Seq<u32>| #[trigger] fat_chain_runs(start_cluster as u32, entries, max_clusters as u32,
                        0x0FFFFFF8, 0x0FFFFFF7, self@.total_clusters) == Some(c.runs@)
                        && fat_entries_follow(start_cluster as u32, entries, 0x0FFFFFF8, 0x0FFFFFF7, self@.total_clusters, fat32_entries(self@, old(reader).image()));
                    assert(fat_chain_runs(start_cluster as u32, entries,
                        fat_chain_limit(max_size as int, self@.bytes_per_cluster as int, self@.total_clusters as int) as u32,
                        0x0FFFFFF8, 0x0FFFFFF7, self@.total_clusters) == Some(c.runs@));
                    let fc = fat_cluster_of(0x1_0000_0000, self@.partition_offset as int, self@.bytes_per_sector as int,
                        self@.sectors_per_cluster as int, self@.data_start_sector as int, self@.total_clusters as int,
                        offset as int);
                    assert(fc == Some(start_cluster as int));
                    assert(fat_entries_follow(fc.unwrap() as u32, entries, 0x0FFFFFF8, 0x0FFFFFF7, self@.total_clusters, fat32_entries(self@, old(reader).image())));
                    assert(exists|entries: Seq<u32>| #[trigger] fat_chain_runs(fc.unwrap() as u32, entries,
                        fat_chain_limit(max_size as int, self@.bytes_per_cluster as int, self@.total_clusters as int) as u32,
                        0x0FFFFFF8, 0x0FFFFFF7, self@.total_clusters) == Some(c.runs@)
                        && fat_entries_follow(fc.unwrap() as u32, entries, 0x0FFFFFF8, 0x0FFFFFF7, self@.total_clusters, fat32_entries(self@, old(reader).image())));
                }
                Some(c)
            },
            Err(_) => None,
        }
    }
}

impl FileSystemParser for Fat16Parser {
    fn fs_type(&self) -> (t: FileSystemType)
        ensures
            t == FileSystemType::Fat16,
    {
        FileSystemType::Fat16
    }

    fn cluster_size(&self) -> (r: u64)
        ensures
            r == self@.bytes_per_cluster,
    {
        self.bytes_per_cluster
    }

    /// Any chain.
    open spec fn can_build(&self, start_cluster: u64, max_clusters: u64) -> bool {
        true
    }

    /// Any offset.
    open spec fn can_search(&self, offset: u64) -> bool {
        true
    }

    fn partition_offset(&self) -> (r: u64)
        ensures
            r == self@.partition_offset,
    {
        self.partition_offset
    }

    /// The FAT chain from `start_cluster`, both numbers taken modulo `2^16`.
    fn build_cluster_chain<R: DiskImageReader>(&self, reader: &mut R, start_cluster: u64, max_clusters: u64) -> (res: Result<ClusterChain, FsError>)
        ensures
            final(reader).image() == old(reader).image(),
            fat_chain_result(res, (start_cluster % 0x10000) as u32, (max_clusters % 0x10000) as u32,
                0xFFF8, 0xFFF7, self@.total_clusters as u32, self@.bytes_per_cluster as int, fat16_entries(self@, old(reader).image())),
    {
        self.build_cluster_chain_from_fat(reader, (start_cluster % 0x10000) as u16, (max_clusters % 0x10000) as u16)
    }

    /// The FAT chain of the cluster that holds `offset`, through at most
    /// `max_size` bytes' worth of clusters (at least one, at most the
    /// volume's cluster count).
    fn find_file_by_offset<R: DiskImageReader>(&self, reader: &mut R, offset: u64, max_size: u64) -> (res: Option<ClusterChain>)
        ensures
            res matches Some(c) ==> c.total_bytes == c.total_clusters * self@.bytes_per_cluster
                && c.total_clusters <= self@.total_clusters,
            fat_cluster_of(0x10000, self@.partition_offset as int, self@.bytes_per_sector as int,
                self@.sectors_per_cluster as int, self@.data_start_sector as int, self@.total_clusters as int,
                offset as int) is None ==> res is None,
            res matches Some(c) ==> (fat_cluster_of(0x10000, self@.partition_offset as int, self@.bytes_per_sector as int,
                self@.sectors_per_cluster as int, self@.data_start_sector as int, self@.total_clusters as int,
                offset as int) matches Some(s) && exists|entries: Seq<u32>| #[trigger] fat_chain_runs(s as u32, entries,
                    fat_chain_limit(max_size as int, self@.bytes_per_cluster as int, self@.total_clusters as int) as u32,
                    0xFFF8, 0xFFF7, self@.total_clusters as u32) == Some(c.runs@)
                    && fat_entries_follow(s as u32, entries, 0xFFF8, 0xFFF7, self@.total_clusters as u32, fat16_entries(self@, old(reader).image()))),
            final(reader).image() == old(reader).image(),
    {
        proof { use_type_invariant(self); }
        let start_cluster = match self.offset_to_cluster(offset) {
            Some(c) => c,
            None => return None,
        };
        let by_size = max_size / self.bytes_per_cluster;
        let at_least_one = if by_size > 1 { by_size } else { 1 };
        let max_clusters = if at_least_one < self.total_clusters as u64 { at_least_one } else { self.total_clusters as u64 };
        proof {
            assert(max_clusters == fat_chain_limit(max_size as int, self@.bytes_per_cluster as int, self@.total_clusters as int));
        }
        match self.build_cluster_chain_from_fat(reader, start_cluster, max_clusters as u16) {
            Ok(c) => {
                proof {
                    let entries = choose|entries: Seq<u32>| #[trigger] fat_chain_runs(start_cluster as u32, entries, max_clusters as u16 as u32,
                        0xFFF8, 0xFFF7, self@.total_clusters as u32) == Some(c.runs@)
                        && fat_entries_follow(start_cluster as u32, entries, 0xFFF8, 0xFFF7, self@.total_clusters as u32, fat16_entries(self@, old(reader).image()));
                    assert(fat_chain_runs(start_cluster as u32, entries,
                        fat_chain_limit(max_size as int, self@.bytes_per_cluster as int, self@.total_clusters as int) as u32,
                        0xFFF8, 0xFFF7, self@.total_clusters as u32) == Some(c.runs@));
                    let fc = fat_cluster_of(0x10000, self@.partition_offset as int, self@.bytes_per_sector as int,
                        self@.sectors_per_cluster as int, self@.data_start_sector as int, self@.total_clusters as int,
                        offset as int);
                    assert(fc == Some(start_cluster as int));
                    assert(fat_entries_follow(fc.unwrap() as u32, entries, 0xFFF8, 0xFFF7, self@.total_clusters as u32, fat16_entries(self@, old(reader).image())));
                    assert(exists|entries: Seq<u32>| #[trigger] fat_chain_runs(fc.unwrap() as u32, entries,
                        fat_chain_limit(max_size as int, self@.bytes_per_cluster as int, self@.total_clusters as int) as u32,
                        0xFFF8, 0xFFF7, self@.total_clusters as u32) == Some(c.runs@)
                        && fat_entries_follow(fc.unwrap() as u32, entries, 0xFFF8, 0xFFF7, self@.total_clusters as u32, fat16_entries(self@, old(reader).image())));
                }
                Some(c)
            },
            Err(_) => None,
        }
    }
}


/// One of the file-system parsers.
pub enum FsParser {
    Ntfs(NtfsParser),
    Fat32(Fat32Parser),
    Fat16(Fat16Parser),
}

impl FsParser {
    /// The file system the parser reads.
    pub open spec fn kind(&self) -> FileSystemType {
        match self {
            FsParser::Ntfs(_) => FileSystemType::Ntfs,
            FsParser::Fat32(_) => FileSystemType::Fat32,
            FsParser::Fat16(_) => FileSystemType::Fat16,
        }
    }

    /// Bytes per cluster of the file system the parser reads.
    pub open spec fn spec_cluster_size(&self) -> u64 {
        match self {
            FsParser::Ntfs(p) => p@.bytes_per_cluster,
            FsParser::Fat32(p) => p@.bytes_per_cluster,
            FsParser::Fat16(p) => p@.bytes_per_cluster,
        }
    }

    /// First byte of the partition the parser reads.
    pub open spec fn spec_partition_offset(&self) -> u64 {
        match self {
            FsParser::Ntfs(p) => p@.partition_offset,
            FsParser::Fat32(p) => p@.partition_offset,
            FsParser::Fat16(p) => p@.partition_offset,
        }
    }
}

/// What [`FileSystemParser::build_cluster_chain`] gives through parser `p`
/// over image `img` from `start_cluster` through at most `max_clusters`
/// clusters: under NTFS
/// the start cluster alone; under FAT the walk along the allocation table
/// (see [`fat_chain_result`]), both numbers taken modulo the entry width.
pub open spec fn parser_chain_result(p: FsParser, img: Seq<u8>, start_cluster: u64, max_clusters: u64, res: Result<ClusterChain, FsError>) -> bool {
    match p {
        FsParser::Ntfs(q) => res matches Ok(c) && c.runs@ == seq![DataRun { start_cluster, cluster_count: 1 }]
            && c.total_clusters == 1 && c.total_bytes == q@.bytes_per_cluster,
        FsParser::Fat32(q) => fat_chain_result(res, (start_cluster % 0x1_0000_0000) as u32, (max_clusters % 0x1_0000_0000) as u32,
            0x0FFFFFF8, 0x0FFFFFF7, q@.total_clusters, q@.bytes_per_cluster as int, fat32_entries(q@, img)),
        FsParser::Fat16(q) => fat_chain_result(res, (start_cluster % 0x10000) as u32, (max_clusters % 0x10000) as u32,
            0xFFF8, 0xFFF7, q@.total_clusters as u32, q@.bytes_per_cluster as int, fat16_entries(q@, img)),
    }
}

/// What [`FileSystemParser::find_file_by_offset`] gives through parser `p`
/// in image `img` for the file at byte `offset` of at most `max_size` bytes:
/// under NTFS the chain that one of the records scanned gives (see
/// [`record_gives_chain`]), whose first run starts at the cluster of
/// `offset`; under FAT
/// nothing where `offset` lies in no data cluster, else a chain that the
/// walk from that cluster builds, through at most [`fat_chain_limit`]
/// entries.
pub open spec fn parser_found_chain(p: FsParser, img: Seq<u8>, offset: u64, max_size: u64, res: Option<ClusterChain>) -> bool {
    match p {
        FsParser::Ntfs(q) => res matches Some(c) ==> c.runs@.len() > 0 && c.runs@[0].start_cluster == ntfs_cluster_of(q@, offset as int)
            && c.total_bytes <= c.total_clusters * q@.bytes_per_cluster
            && exists|k: int| 0 <= k < ntfs_scan_limit(max_size as int, q@.mft_record_size as int)
                && is_mft_record(mft_record_in(q@, img, k))
                && #[trigger] record_gives_chain(mft_record_in(q@, img, k), ntfs_cluster_of(q@, offset as int),
                    max_size as int, q@.bytes_per_cluster as int, c),
        FsParser::Fat32(q) => {
            let fc = fat_cluster_of(0x1_0000_0000, q@.partition_offset as int, q@.bytes_per_sector as int,
                q@.sectors_per_cluster as int, q@.data_start_sector as int, q@.total_clusters as int, offset as int);
            &&& fc is None ==> res is None
            &&& res matches Some(c) ==> {
                &&& c.total_bytes == c.total_clusters * q@.bytes_per_cluster
                &&& c.total_clusters <= q@.total_clusters
                &&& fc matches Some(s) && exists|entries: Seq<u32>| #[trigger] fat_chain_runs(s as u32, entries,
                    fat_chain_limit(max_size as int, q@.bytes_per_cluster as int, q@.total_clusters as int) as u32,
                    0x0FFFFFF8, 0x0FFFFFF7, q@.total_clusters) == Some(c.runs@)
                    && fat_entries_follow(s as u32, entries, 0x0FFFFFF8, 0x0FFFFFF7, q@.total_clusters, fat32_entries(q@, img))
            }
        },
        FsParser::Fat16(q) => {
            let fc = fat_cluster_of(0x10000, q@.partition_offset as int, q@.bytes_per_sector as int,
                q@.sectors_per_cluster as int, q@.data_start_sector as int, q@.total_clusters as int, offset as int);
            &&& fc is None ==> res is None
            &&& res matches Some(c) ==> {
                &&& c.total_bytes == c.total_clusters * q@.bytes_per_cluster
                &&& c.total_clusters <= q@.total_clusters
                &&& fc matches Some(s) && exists|entries: Seq<u32>| #[trigger] fat_chain_runs(s as u32, entries,
                    fat_chain_limit(max_size as int, q@.bytes_per_cluster as int, q@.total_clusters as int) as u32,
                    0xFFF8, 0xFFF7, q@.total_clusters as u32) == Some(c.runs@)
                    && fat_entries_follow(s as u32, entries, 0xFFF8, 0xFFF7, q@.total_clusters as u32, fat16_entries(q@, img))
            }
        },
    }
}

impl FileSystemParser for FsParser {
    fn fs_type(&self) -> (t: FileSystemType)
        ensures
            t == self.kind(),
    {
        match self {
            FsParser::Ntfs(p) => p.fs_type(),
            FsParser::Fat32(p) => p.fs_type(),
            FsParser::Fat16(p) => p.fs_type(),
        }
    }

    fn cluster_size(&self) -> (r: u64)
        ensures
            r == self.spec_cluster_size(),
    {
        match self {
            FsParser::Ntfs(p) => p.cluster_size(),
            FsParser::Fat32(p) => p.cluster_size(),
            FsParser::Fat16(p) => p.cluster_size(),
        }
    }

    /// As the parser of each file system says.
    open spec fn can_build(&self, start_cluster: u64, max_clusters: u64) -> bool {
        match self {
            FsParser::Ntfs(p) => p.can_build(start_cluster, max_clusters),
            FsParser::Fat32(p) => p.can_build(start_cluster, max_clusters),
            FsParser::Fat16(p) => p.can_build(start_cluster, max_clusters),
        }
    }

    /// As the parser of each file system says.
    open spec fn can_search(&self, offset: u64) -> bool {
        match self {
            FsParser::Ntfs(p) => p.can_search(offset),
            FsParser::Fat32(p) => p.can_search(offset),
            FsParser::Fat16(p) => p.can_search(offset),
        }
    }

    fn partition_offset(&self) -> (r: u64)
        ensures
            r == self.spec_partition_offset(),
    {
        match self {
            FsParser::Ntfs(p) => p.partition_offset(),
            FsParser::Fat32(p) => p.partition_offset(),
            FsParser::Fat16(p) => p.partition_offset(),
        }
    }

    fn build_cluster_chain<R: DiskImageReader>(&self, reader: &mut R, start_cluster: u64, max_clusters: u64) -> (res: Result<ClusterChain, FsError>)
        ensures
            final(reader).image() == old(reader).image(),
            parser_chain_result(*self, old(reader).image(), start_cluster, max_clusters, res),
    {
        match self {
            FsParser::Ntfs(p) => p.build_cluster_chain(reader, start_cluster, max_clusters),
            FsParser::Fat32(p) => p.build_cluster_chain(reader, start_cluster, max_clusters),
            FsParser::Fat16(p) => p.build_cluster_chain(reader, start_cluster, max_clusters),
        }
    }

    fn find_file_by_offset<R: DiskImageReader>(&self, reader: &mut R, offset: u64, max_size: u64) -> (res: Option<ClusterChain>)
        ensures
            final(reader).image() == old(reader).image(),
            parser_found_chain(*self, old(reader).image(), offset, max_size, res),
    {
        match self {
            FsParser::Ntfs(p) => p.find_file_by_offset(reader, offset, max_size),
            FsParser::Fat32(p) => p.find_file_by_offset(reader, offset, max_size),
            FsParser::Fat16(p) => p.find_file_by_offset(reader, offset, max_size),
        }
    }
}

/// `res` is what detecting the file system of the partition at
/// `partition_offset` of image `img` can give: no parser where its boot
/// sector holds no known file system; otherwise, if any, the parser of the
/// file system detected, built from that sector.
pub open spec fn parser_of_image(img: Seq<u8>, partition_offset: u64, res: Option<FsParser>) -> bool {
    let b = sector_at(img, partition_offset);
    &&& res matches Some(p) ==> p.kind() == detected_filesystem(b) && p.spec_partition_offset() == partition_offset
    &&& detected_filesystem(b) == FileSystemType::Unknown ==> res is None
    &&& res matches Some(FsParser::Ntfs(q)) ==> ntfs_layout_of(b, partition_offset) == Some(q@)
    &&& res matches Some(FsParser::Fat32(q)) ==> fat32_layout_of(b, partition_offset) == Some(q@)
    &&& res matches Some(FsParser::Fat16(q)) ==> fat16_layout_of(b, partition_offset) == Some(q@)
}

/// Detects the file system of the partition at `partition_offset` and builds
/// its parser; `None` when no known file system is found or its boot sector
/// is unusable.
pub fn create_filesystem_parser<R: DiskImageReader>(reader: &mut R, partition_offset: u64) -> (res: Option<FsParser>)
    ensures
        final(reader).image() == old(reader).image(),
        parser_of_image(old(reader).image(), partition_offset, res),
{
    let fs_type = detect_filesystem(reader, partition_offset);
    match fs_type {
        FileSystemType::Ntfs => match NtfsParser::new(reader, partition_offset) {
            Ok(p) => Some(FsParser::Ntfs(p)),
            Err(_) => None,
        },
        FileSystemType::Fat32 => match Fat32Parser::new(reader, partition_offset) {
            Ok(p) => Some(FsParser::Fat32(p)),
            Err(_) => None,
        },
        FileSystemType::Fat16 => match Fat16Parser::new(reader, partition_offset) {
            Ok(p) => Some(FsParser::Fat16(p)),
            Err(_) => None,
        },
        FileSystemType::Unknown => None,
    }
}

// ---------------------------------------------------------------------------
// Partition table
// ---------------------------------------------------------------------------

/// A primary partition entry of an MBR.
#[derive(Debug, Clone, Copy)]
pub struct PartitionInfo {
    pub boot_indicator: u8,
    pub partition_type: u8,
    pub start_lba: u32,
    pub size_lba: u32,
}

/// Byte at which primary entry `i` of an MBR starts.
pub open spec fn partition_entry_offset(i: int) -> int {
    0x1BE + 16 * i
}

/// Primary entry `i` of MBR `m`.
pub open spec fn partition_entry(m: Seq<u8>, i: int) -> PartitionInfo {
    let o = partition_entry_offset(i);
    PartitionInfo {
        boot_indicator: m[o],
        partition_type: m[o + 4],
        start_lba: le32(m, o + 8) as u32,
        size_lba: le32(m, o + 12) as u32,
    }
}

/// Primary entry `i` of MBR `m` has a type and a size.
pub open spec fn partition_entry_used(m: Seq<u8>, i: int) -> bool {
    m[partition_entry_offset(i) + 4] != 0 && le32(m, partition_entry_offset(i) + 12) > 0
}

/// The used primary entries of `m` from entry `i` on, in table order.
pub open spec fn partitions_from(m: Seq<u8>, i: int) -> Seq<PartitionInfo>
    decreases 4 - i,
{
    if i >= 4 {
        Seq::empty()
    } else if partition_entry_used(m, i) {
        seq![partition_entry(m, i)] + partitions_from(m, i + 1)
    } else {
        partitions_from(m, i + 1)
    }
}

/// The partitions of MBR `m`: none without the `55 AA` boot signature,
/// otherwise its used primary entries.
pub open spec fn partition_table(m: Seq<u8>) -> Seq<PartitionInfo> {
    if m[510] != 0x55 || m[511] != 0xAA {
        Seq::empty()
    } else {
        partitions_from(m, 0)
    }
}

/// An MBR lists at most four partitions, all used.
pub proof fn lemma_partition_table_bounds(m: Seq<u8>, i: int)
    requires
        0 <= i <= 4,
    ensures
        partitions_from(m, i).len() <= 4 - i,
        forall|k: int| 0 <= k < partitions_from(m, i).len() ==> (#[trigger] partitions_from(m, i)[k]).partition_type != 0
            && partitions_from(m, i)[k].size_lba > 0,
    decreases 4 - i,
{
    if i < 4 {
        lemma_partition_table_bounds(m, i + 1);
        let rest = partitions_from(m, i + 1);
        if partition_entry_used(m, i) {
            let e = partition_entry(m, i);
            assert forall|k: int| 0 <= k < partitions_from(m, i).len() implies (#[trigger] partitions_from(m, i)[k]).partition_type != 0
                && partitions_from(m, i)[k].size_lba > 0 by {
                if k > 0 {
                    assert(partitions_from(m, i)[k] == rest[k - 1]);
                } else {
                    assert(partitions_from(m, i)[k] == e);
                }
            }
        }
    }
}

/// The partitions listed by an MBR.
pub fn parse_partition_table(mbr: &[u8]) -> (parts: Vec<PartitionInfo>)
    requires
        mbr@.len() >= 512,
    ensures
        parts@ == partition_table(mbr@),
        parts@.len() <= 4,
{
    let mut partitions: Vec<PartitionInfo> = Vec::new();
    proof { lemma_partition_table_bounds(mbr@, 0); }
    if mbr[510] != 0x55 || mbr[511] != 0xAA {
        proof { assert(partitions@ =~= Seq::<PartitionInfo>::empty()); }
        return partitions;
    }
    let mut i: usize = 0;
    proof { assert(partitions@ + partitions_from(mbr@, 0) =~= partitions_from(mbr@, 0)); }
    while i < 4
        invariant
            mbr@.len() >= 512,
            i <= 4,
            partitions@ + partitions_from(mbr@, i as int) == partitions_from(mbr@, 0),
        decreases 4 - i,
    {
        let offset = 0x01BE + i * 16;
        let boot_indicator = mbr[offset];
        let partition_type = mbr[offset + 4];
        let start_lba = read_u32_le(mbr, offset + 8);
        let size_lba = read_u32_le(mbr, offset + 12);
        let ghost before = partitions@;
        if partition_type != 0 && size_lba > 0 {
            let e = PartitionInfo { boot_indicator, partition_type, start_lba, size_lba };
            partitions.push(e);
            proof {
                assert(e == partition_entry(mbr@, i as int));
                assert(before.push(e) + partitions_from(mbr@, i + 1) =~= before + (seq![e] + partitions_from(mbr@, i + 1)));
            }
        }
        i = i + 1;
    }
    proof { assert(partitions@ + partitions_from(mbr@, 4) =~= partitions@); }
    partitions
}

/// Primary entry `i` of an MBR is the 16 bytes from byte `446 + 16 i`: its
/// boot flag first, its type at 4, its first sector (32-bit little-endian)
/// at 8 and its sector count at 12; it is listed when its type and its
/// sector count are not zero.
pub proof fn lemma_partition_entry_fields(m: Seq<u8>, i: int)
    requires
        0 <= i < 4,
        m.len() >= 512,
    ensures
        partition_entry(m, i).boot_indicator == m[446 + 16 * i],
        partition_entry(m, i).partition_type == m[446 + 16 * i + 4],
        partition_entry(m, i).start_lba == m[446 + 16 * i + 8] + 256 * m[446 + 16 * i + 9]
            + 65536 * m[446 + 16 * i + 10] + 16777216 * m[446 + 16 * i + 11],
        partition_entry(m, i).size_lba == m[446 + 16 * i + 12] + 256 * m[446 + 16 * i + 13]
            + 65536 * m[446 + 16 * i + 14] + 16777216 * m[446 + 16 * i + 15],
        partition_entry_used(m, i) <==> m[446 + 16 * i + 4] != 0 && partition_entry(m, i).size_lba > 0,
{
    let o = 446 + 16 * i;
    assert(0 <= le32(m, o + 8) <= 0xFFFF_FFFF);
    assert(0 <= le32(m, o + 12) <= 0xFFFF_FFFF);
}

/// Reads the MBR at `disk_offset` and lists its partitions; none when the
/// sector cannot be read.
pub fn detect_partitions<R: DiskImageReader>(reader: &mut R, disk_offset: u64) -> (parts: Vec<PartitionInfo>)
    ensures
        final(reader).image() == old(reader).image(),
        parts@.len() <= 4,
        parts@.len() == 0 || parts@ == partition_table(sector_at(old(reader).image(), disk_offset)),
{
    match read_zeroed(reader, disk_offset, 512) {
        Err(_) => Vec::new(),
        Ok(mbr) => parse_partition_table(mbr.as_slice()),
    }
}

// ---------------------------------------------------------------------------
// Carving with file-system metadata
// ---------------------------------------------------------------------------

/// Rebuilds carved files from the metadata of one file system, when there
/// is one.
pub struct SmartCarver {
    parser: Option<FsParser>,
    fs_type: FileSystemType,
}

impl View for SmartCarver {
    type V = Option<FsParser>;

    closed spec fn view(&self) -> Option<FsParser> {
        self.parser
    }
}

/// The file system of an optional parser (`Unknown` without one).
pub open spec fn kind_of(parser: Option<FsParser>) -> FileSystemType {
    match parser {
        Some(p) => p.kind(),
        None => FileSystemType::Unknown,
    }
}

impl SmartCarver {
    #[verifier::type_invariant]
    spec fn inv(&self) -> bool {
        self.parser is Some ==> self.fs_type == kind_of(self.parser)
    }

    /// The file system the carver reports: that of its parser, or the one
    /// kept by a copy made without the parser.
    pub closed spec fn kind(&self) -> FileSystemType {
        self.fs_type
    }

    /// A carver that uses `parser`, if any.
    pub fn new(parser: Option<FsParser>) -> (c: Self)
        ensures
            c@ == parser,
            c.kind() == kind_of(parser),
    {
        let fs_type = match &parser {
            Some(p) => p.fs_type(),
            None => FileSystemType::Unknown,
        };
        SmartCarver { parser, fs_type }
    }

    /// Whether file-system metadata is available.
    pub fn has_filesystem(&self) -> (r: bool)
        ensures
            r == self@.is_some(),
    {
        self.parser.is_some()
    }

    /// The file system whose metadata is used (`Unknown` for a carver
    /// made without any; a copy keeps the one of the carver it copies).
    pub fn fs_type(&self) -> (t: FileSystemType)
        ensures
            t == self.kind(),
            self@ is Some ==> t == kind_of(self@),
    {
        proof { use_type_invariant(self); }
        self.fs_type
    }

    /// A copy of the carver that keeps its file system but not its parser,
    /// so that it rebuilds nothing.
    pub fn duplicate(&self) -> (c: Self)
        ensures
            c@ is None,
            c.kind() == self.kind(),
    {
        SmartCarver { parser: None, fs_type: self.fs_type }
    }

    /// Whether [`SmartCarver::try_rebuild_file`] can look for the file at
    /// `offset`: without metadata always, with it as its parser says (see
    /// [`FileSystemParser::can_search`]).
    pub fn can_rebuild_at(&self, offset: u64) -> (r: bool)
        ensures
            r == (self@ matches Some(p) ==> p.can_search(offset)),
    {
        match &self.parser {
            Some(FsParser::Ntfs(p)) => p.mft_record_size >= 4 && (offset < p.partition_offset || p.bytes_per_cluster > 0),
            Some(FsParser::Fat32(p)) => offset < p.partition_offset || p.bytes_per_sector > 0,
            _ => true,
        }
    }

    /// The cluster chain of the file that starts at `start_offset`, when the
    /// metadata knows one.
    pub fn try_rebuild_file<R: DiskImageReader>(&self, reader: &mut R, start_offset: u64, max_size: u64) -> (res: Option<ClusterChain>)
        requires
            self@ matches Some(p) ==> p.can_search(start_offset),
        ensures
            self@ is None ==> res is None,
            res matches Some(c) ==> c.wf(),
            final(reader).image() == old(reader).image(),
            self@ matches Some(p) ==> parser_found_chain(p, old(reader).image(), start_offset, max_size, res),
    {
        match &self.parser {
            Some(parser) => parser.find_file_by_offset(reader, start_offset, max_size),
            None => None,
        }
    }

    /// The copy of the file whose clusters `chain` lists, cluster by
    /// cluster (see [`CopyJob::for_chain`]); fails without a file system, and
    /// where an extent or the total does not fit in 64 bits.
    pub fn carve_with_cluster_chain(&self, chain: &ClusterChain, calculate_hashes: bool) -> (res: Result<CopyJob, FsError>)
        ensures
            self@ is None ==> (res matches Err(e) && e is NoFileSystem),
            self@ matches Some(p) ==> {
                &&& (res is Ok <==> chain_fits(chain.runs@, p.spec_cluster_size() as int, p.spec_partition_offset() as int))
                &&& (res matches Err(e) ==> e is OffsetOverflow)
                &&& (res matches Ok(job) ==> {
                    &&& job.wf()
                    &&& job.extents().len() == chain.runs@.len()
                    &&& forall|i: int| 0 <= i < chain.runs@.len() ==> (#[trigger] job.extents()[i]).0
                        == p.spec_partition_offset() + chain.runs@[i].start_cluster * p.spec_cluster_size()
                        && job.extents()[i].1 == chain.runs@[i].cluster_count * p.spec_cluster_size()
                    &&& job.byte_limit() == chain.total_bytes
                    &&& job.hashing() == calculate_hashes
                    &&& job.copied() == Seq::<u8>::empty()
                    &&& forall|img: Seq<u8>| #[trigger] job.copied_from_image(img)
                })
            },
    {
        match &self.parser {
            Some(parser) => {
                let cluster_size = parser.cluster_size();
                let partition_offset = parser.partition_offset();
                CopyJob::for_chain(&chain.runs, chain.total_bytes, cluster_size, partition_offset, calculate_hashes)
            },
            None => Err(FsError::NoFileSystem),
        }
    }
}


// ---------------------------------------------------------------------------
// Laws relating clusters and byte offsets
// ---------------------------------------------------------------------------

/// On NTFS, the cluster of the first byte of cluster `c` is `c`.
pub proof fn lemma_ntfs_cluster_offset_roundtrip(l: NtfsLayout, c: int)
    requires
        l.bytes_per_cluster > 0,
        c >= 0,
    ensures
        ntfs_cluster_of(l, l.partition_offset + c * l.bytes_per_cluster) == c,
{
    let b = l.bytes_per_cluster as int;
    assert(c * b >= 0) by (nonlinear_arith) requires c >= 0, b > 0;
    vstd::arithmetic::div_mod::lemma_div_by_multiple(c, b);
}

/// On NTFS, a byte of the partition lies in the cluster that
/// `ntfs_cluster_of` names: at or after its first byte, before the next
/// cluster's.
pub proof fn lemma_ntfs_offset_within_cluster(l: NtfsLayout, offset: int)
    requires
        l.bytes_per_cluster > 0,
        offset >= l.partition_offset,
    ensures
        l.partition_offset + ntfs_cluster_of(l, offset) * l.bytes_per_cluster <= offset,
        offset < l.partition_offset + (ntfs_cluster_of(l, offset) + 1) * l.bytes_per_cluster,
{
    let b = l.bytes_per_cluster as int;
    let rel = offset - l.partition_offset;
    vstd::arithmetic::div_mod::lemma_fundamental_div_mod(rel, b);
    let q = rel / b;
    assert(rel == b * q + rel % b);
    assert(0 <= rel % b < b);
    assert(q * b + b == (q + 1) * b) by (nonlinear_arith);
    assert(b * q == q * b) by (nonlinear_arith);
}

/// First byte of data cluster `c` of a FAT partition at `partition_offset`
/// whose data area starts at sector `data_start`.
pub open spec fn fat_cluster_start(partition_offset: int, bytes_per_sector: int, sectors_per_cluster: int, data_start: int, c: int) -> int {
    partition_offset + (data_start + (c - 2) * sectors_per_cluster) * bytes_per_sector
}

/// First byte of data cluster `c` of FAT32 layout `l`.
pub open spec fn fat32_cluster_start(l: Fat32Layout, c: int) -> int {
    fat_cluster_start(l.partition_offset as int, l.bytes_per_sector as int, l.sectors_per_cluster as int, l.data_start_sector as int, c)
}

/// First byte of data cluster `c` of FAT16 layout `l`.
pub open spec fn fat16_cluster_start(l: Fat16Layout, c: int) -> int {
    fat_cluster_start(l.partition_offset as int, l.bytes_per_sector as int, l.sectors_per_cluster as int, l.data_start_sector as int, c)
}

/// On FAT, every byte of data cluster `c` lies in data cluster `c`, for
/// every cluster `2..=total_clusters` (clusters are numbered modulo
/// `modulus`, which exceeds the cluster count).
pub proof fn lemma_fat_cluster_offset_roundtrip(
    modulus: int,
    partition_offset: int,
    bytes_per_sector: int,
    sectors_per_cluster: int,
    data_start: int,
    total_clusters: int,
    c: int,
    k: int,
)
    requires
        bytes_per_sector > 0,
        sectors_per_cluster > 0,
        partition_offset >= 0,
        data_start >= 0,
        2 <= c <= total_clusters < modulus,
        0 <= k < bytes_per_sector * sectors_per_cluster,
    ensures
        fat_cluster_of(
            modulus,
            partition_offset,
            bytes_per_sector,
            sectors_per_cluster,
            data_start,
            total_clusters,
            fat_cluster_start(partition_offset, bytes_per_sector, sectors_per_cluster, data_start, c) + k,
        ) == Some(c),
{
    let j = c - 2;
    let sector = data_start + j * sectors_per_cluster;
    let q = k / bytes_per_sector;
    let r = k % bytes_per_sector;
    vstd::arithmetic::div_mod::lemma_fundamental_div_mod(k, bytes_per_sector);
    assert(j * sectors_per_cluster >= 0) by (nonlinear_arith) requires j >= 0, sectors_per_cluster > 0;
    assert(q >= 0) by (nonlinear_arith) requires k >= 0, bytes_per_sector > 0, q == k / bytes_per_sector;
    assert(q < sectors_per_cluster) by (nonlinear_arith)
        requires k == bytes_per_sector * q + r, 0 <= r, k < bytes_per_sector * sectors_per_cluster, bytes_per_sector > 0;
    let rel = sector * bytes_per_sector + k;
    assert(rel == (sector + q) * bytes_per_sector + r) by (nonlinear_arith)
        requires rel == sector * bytes_per_sector + k, k == bytes_per_sector * q + r;
    vstd::arithmetic::div_mod::lemma_fundamental_div_mod_converse(rel, bytes_per_sector, sector + q, r);
    assert(fat_cluster_start(partition_offset, bytes_per_sector, sectors_per_cluster, data_start, c) + k - partition_offset == rel);
    assert((sector + q) - data_start == j * sectors_per_cluster + q);
    vstd::arithmetic::div_mod::lemma_fundamental_div_mod_converse(j * sectors_per_cluster + q, sectors_per_cluster, j, q);
    vstd::arithmetic::div_mod::lemma_small_mod(c as nat, modulus as nat);
}

/// On FAT, a byte that lies in data cluster `c` (the cluster number found
/// below `modulus`) lies between that cluster's first byte and the first
/// byte after it, and `c` is a data cluster of the volume.
pub proof fn lemma_fat_cluster_of_bounds(
    modulus: int,
    partition_offset: int,
    bytes_per_sector: int,
    sectors_per_cluster: int,
    data_start: int,
    total_clusters: int,
    offset: int,
    c: int,
)
    requires
        bytes_per_sector > 0,
        sectors_per_cluster > 0,
        modulus > 0,
        fat_cluster_of(modulus, partition_offset, bytes_per_sector, sectors_per_cluster, data_start, total_clusters, offset) == Some(c),
        ((offset - partition_offset) / bytes_per_sector - data_start) / sectors_per_cluster + 2 < modulus,
    ensures
        2 <= c <= total_clusters,
        fat_cluster_start(partition_offset, bytes_per_sector, sectors_per_cluster, data_start, c) <= offset,
        offset < fat_cluster_start(partition_offset, bytes_per_sector, sectors_per_cluster, data_start, c)
            + bytes_per_sector * sectors_per_cluster,
{
    let rel = offset - partition_offset;
    let s = rel / bytes_per_sector;
    let j = (s - data_start) / sectors_per_cluster;
    vstd::arithmetic::div_mod::lemma_fundamental_div_mod(rel, bytes_per_sector);
    vstd::arithmetic::div_mod::lemma_fundamental_div_mod(s - data_start, sectors_per_cluster);
    assert(j >= 0) by (nonlinear_arith)
        requires s - data_start >= 0, sectors_per_cluster > 0, j == (s - data_start) / sectors_per_cluster;
    vstd::arithmetic::div_mod::lemma_small_mod((j + 2) as nat, modulus as nat);
    assert(c == j + 2);
    let r1 = rel % bytes_per_sector;
    let r2 = (s - data_start) % sectors_per_cluster;
    assert(s == data_start + j * sectors_per_cluster + r2) by (nonlinear_arith)
        requires s - data_start == sectors_per_cluster * j + r2;
    assert(rel == s * bytes_per_sector + r1) by (nonlinear_arith)
        requires rel == bytes_per_sector * s + r1;
    assert((data_start + j * sectors_per_cluster) * bytes_per_sector <= rel) by (nonlinear_arith)
        requires s == data_start + j * sectors_per_cluster + r2, rel == s * bytes_per_sector + r1, 0 <= r1, 0 <= r2,
            bytes_per_sector > 0;
    assert(rel < (data_start + j * sectors_per_cluster) * bytes_per_sector + bytes_per_sector * sectors_per_cluster) by (nonlinear_arith)
        requires s == data_start + j * sectors_per_cluster + r2, rel == s * bytes_per_sector + r1, r1 < bytes_per_sector,
            r2 < sectors_per_cluster, r2 >= 0, bytes_per_sector > 0;
}

/// On FAT32, every byte of data cluster `c` lies in cluster `c`: converting
/// the cluster to its first byte (see [`Fat32Parser::cluster_to_offset`]),
/// adding less than a cluster, and back (see
/// [`Fat32Parser::offset_to_cluster`]) gives `c`.
pub proof fn lemma_fat32_cluster_offset_roundtrip(l: Fat32Layout, c: u32, k: int)
    requires
        fat32_layout_wf(l),
        l.bytes_per_sector > 0,
        2 <= c <= l.total_clusters,
        0 <= k < l.bytes_per_cluster,
    ensures
        fat_cluster_of(0x1_0000_0000, l.partition_offset as int, l.bytes_per_sector as int,
            l.sectors_per_cluster as int, l.data_start_sector as int, l.total_clusters as int,
            fat32_cluster_start(l, c as int) + k) == Some(c as int),
{
    lemma_fat_cluster_offset_roundtrip(0x1_0000_0000, l.partition_offset as int, l.bytes_per_sector as int,
        l.sectors_per_cluster as int, l.data_start_sector as int, l.total_clusters as int, c as int, k);
}

/// On FAT16, every byte of data cluster `c` lies in cluster `c` (see
/// [`Fat16Parser::cluster_to_offset`] and [`Fat16Parser::offset_to_cluster`]).
pub proof fn lemma_fat16_cluster_offset_roundtrip(l: Fat16Layout, c: u16, k: int)
    requires
        fat16_layout_wf(l),
        2 <= c <= l.total_clusters,
        0 <= k < l.bytes_per_cluster,
    ensures
        fat_cluster_of(0x10000, l.partition_offset as int, l.bytes_per_sector as int,
            l.sectors_per_cluster as int, l.data_start_sector as int, l.total_clusters as int,
            fat16_cluster_start(l, c as int) + k) == Some(c as int),
{
    lemma_fat_cluster_offset_roundtrip(0x10000, l.partition_offset as int, l.bytes_per_sector as int,
        l.sectors_per_cluster as int, l.data_start_sector as int, l.total_clusters as int, c as int, k);
}

/// On FAT16, the cluster that a byte is found in, where the cluster number
/// found is below `2^16`, is a data cluster of the volume whose bytes hold
/// it.
pub proof fn lemma_fat16_offset_in_its_cluster(l: Fat16Layout, offset: int, c: int)
    requires
        fat16_layout_wf(l),
        fat_cluster_of(0x10000, l.partition_offset as int, l.bytes_per_sector as int,
            l.sectors_per_cluster as int, l.data_start_sector as int, l.total_clusters as int, offset) == Some(c),
        ((offset - l.partition_offset) / (l.bytes_per_sector as int) - l.data_start_sector) / (l.sectors_per_cluster as int) + 2 < 0x10000,
    ensures
        2 <= c <= l.total_clusters,
        fat16_cluster_start(l, c) <= offset < fat16_cluster_start(l, c) + l.bytes_per_cluster,
{
    lemma_fat_cluster_of_bounds(0x10000, l.partition_offset as int, l.bytes_per_sector as int,
        l.sectors_per_cluster as int, l.data_start_sector as int, l.total_clusters as int, offset, c);
}

/// On FAT32, the cluster that a byte is found in, where the cluster number
/// found is below `2^32`, is a data cluster of the volume whose bytes hold
/// it.
pub proof fn lemma_fat32_offset_in_its_cluster(l: Fat32Layout, offset: int, c: int)
    requires
        fat32_layout_wf(l),
        l.bytes_per_sector > 0,
        fat_cluster_of(0x1_0000_0000, l.partition_offset as int, l.bytes_per_sector as int,
            l.sectors_per_cluster as int, l.data_start_sector as int, l.total_clusters as int, offset) == Some(c),
        ((offset - l.partition_offset) / (l.bytes_per_sector as int) - l.data_start_sector) / (l.sectors_per_cluster as int) + 2 < 0x1_0000_0000,
    ensures
        2 <= c <= l.total_clusters,
        fat32_cluster_start(l, c) <= offset < fat32_cluster_start(l, c) + l.bytes_per_cluster,
{
    lemma_fat_cluster_of_bounds(0x1_0000_0000, l.partition_offset as int, l.bytes_per_sector as int,
        l.sectors_per_cluster as int, l.data_start_sector as int, l.total_clusters as int, offset, c);
}

/// A FAT32 boot sector places its FAT right after its reserved sectors and
/// data cluster 2 right after its FATs, and every data cluster its layout
/// counts (`2..=total_clusters`) lies inside the volume's sectors.
pub proof fn lemma_fat32_layout_places(b: Seq<u8>, partition_offset: u64, c: int)
    requires
        b.len() >= 48,
        fat32_layout_of(b, partition_offset) is Some,
        2 <= c <= fat32_layout_of(b, partition_offset)->0.total_clusters,
    ensures
        ({
            let l = fat32_layout_of(b, partition_offset)->0;
            let bps = le16(b, 11);
            &&& l.fat_start_sector == le16(b, 14)
            &&& fat32_cluster_start(l, 2) == partition_offset + (le16(b, 14) + b[16] * le32(b, 36)) * bps
            &&& fat32_cluster_start(l, c) + l.bytes_per_cluster <= partition_offset + le32(b, 32) * bps
        }),
{
    let l = fat32_layout_of(b, partition_offset)->0;
    let bps = le16(b, 11);
    let spc = b[13] as int;
    let ds = l.data_start_sector as int;
    let ts = le32(b, 32);
    let n = l.total_clusters as int;
    vstd::arithmetic::div_mod::lemma_fundamental_div_mod(ts - ds, spc);
    assert(n == (ts - ds) / spc);
    assert((c - 1) * spc <= ts - ds) by (nonlinear_arith)
        requires c - 1 <= n, n == (ts - ds) / spc, ts - ds == spc * ((ts - ds) / spc) + (ts - ds) % spc,
            (ts - ds) % spc >= 0, spc > 0, c >= 2;
    assert((ds + (c - 2) * spc) * bps + bps * spc <= ts * bps) by (nonlinear_arith)
        requires (c - 1) * spc <= ts - ds, bps >= 0;
}

/// A FAT16 boot sector places its FAT right after its reserved sectors and
/// data cluster 2 right after its FATs and its root directory (32 bytes per
/// entry, in whole sectors), and every data cluster its layout counts lies
/// inside the volume's sectors, where the counts fit in 16 bits.
pub proof fn lemma_fat16_layout_places(b: Seq<u8>, partition_offset: u64, c: int)
    requires
        b.len() >= 36,
        fat16_layout_of(b, partition_offset) is Some,
        (le16(b, 17) * 32 + le16(b, 11) - 1) / le16(b, 11) < 0x10000,
        (fat_total_sectors(b) - fat16_layout_of(b, partition_offset)->0.data_start_sector) / (b[13] as int) < 0x10000,
        2 <= c <= fat16_layout_of(b, partition_offset)->0.total_clusters,
    ensures
        ({
            let l = fat16_layout_of(b, partition_offset)->0;
            let bps = le16(b, 11);
            &&& l.fat_start_sector == le16(b, 14)
            &&& fat16_cluster_start(l, 2) == partition_offset
                + (le16(b, 14) + b[16] * le16(b, 22) + (le16(b, 17) * 32 + bps - 1) / bps) * bps
            &&& fat16_cluster_start(l, c) + l.bytes_per_cluster <= partition_offset + fat_total_sectors(b) * bps
        }),
{
    let l = fat16_layout_of(b, partition_offset)->0;
    let bps = le16(b, 11);
    let spc = b[13] as int;
    let ds = l.data_start_sector as int;
    let ts = fat_total_sectors(b);
    let n = l.total_clusters as int;
    vstd::arithmetic::div_mod::lemma_fundamental_div_mod(ts - ds, spc);
    vstd::arithmetic::div_mod::lemma_small_mod(((ts - ds) / spc) as nat, 0x10000);
    let rds = (le16(b, 17) * 32 + bps - 1) / bps;
    assert(rds >= 0) by (nonlinear_arith)
        requires rds == (le16(b, 17) * 32 + bps - 1) / bps, le16(b, 17) >= 0, bps > 0;
    vstd::arithmetic::div_mod::lemma_small_mod(rds as nat, 0x10000);
    assert(n == (ts - ds) / spc);
    assert((c - 1) * spc <= ts - ds) by (nonlinear_arith)
        requires c - 1 <= n, n == (ts - ds) / spc, ts - ds == spc * ((ts - ds) / spc) + (ts - ds) % spc,
            (ts - ds) % spc >= 0, spc > 0, c >= 2;
    assert((ds + (c - 2) * spc) * bps + bps * spc <= ts * bps) by (nonlinear_arith)
        requires (c - 1) * spc <= ts - ds, bps >= 0;
}

/// On FAT32, data clusters lie one cluster after another: the first bytes
/// of clusters `c1` and `c2` lie `c2 - c1` clusters apart.
pub proof fn lemma_fat32_cluster_start_distance(l: Fat32Layout, c1: int, c2: int)
    requires
        fat32_layout_wf(l),
    ensures
        fat32_cluster_start(l, c2) - fat32_cluster_start(l, c1) == (c2 - c1) * l.bytes_per_cluster,
{
    let b = l.bytes_per_sector as int;
    let p = l.sectors_per_cluster as int;
    let d = l.data_start_sector as int;
    assert((d + (c2 - 2) * p) * b - (d + (c1 - 2) * p) * b == (c2 - c1) * (b * p)) by (nonlinear_arith);
}

/// On FAT16, data clusters lie one cluster after another: the first bytes
/// of clusters `c1` and `c2` lie `c2 - c1` clusters apart.
pub proof fn lemma_fat16_cluster_start_distance(l: Fat16Layout, c1: int, c2: int)
    requires
        fat16_layout_wf(l),
    ensures
        fat16_cluster_start(l, c2) - fat16_cluster_start(l, c1) == (c2 - c1) * l.bytes_per_cluster,
{
    let b = l.bytes_per_sector as int;
    let p = l.sectors_per_cluster as int;
    let d = l.data_start_sector as int;
    assert((d + (c2 - 2) * p) * b - (d + (c1 - 2) * p) * b == (c2 - c1) * (b * p)) by (nonlinear_arith);
}

} // verus!
