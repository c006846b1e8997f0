//! Volume geometry: the parsed BIOS parameter block, the three address
//! spaces (byte offset, sector, cluster) and the walk of the file allocation
//! table.

use vstd::prelude::*;
use vstd::string::StringExecFns;
use crate::bytes::copy_range;
use crate::bytes::le16;
use crate::bytes::le32;
use crate::bytes::read_u16;
use crate::bytes::read_u32;
use crate::fat_entry::byte_chars;
use crate::fat_entry::prefix_string;
use crate::numfmt::spec_dec;
use crate::numfmt::u32_string;

verus! {

/// A specific cluster number (not a range). Data clusters start at 2.
#[derive(Debug, Clone, Copy, PartialEq, Eq, Structural)]
pub struct Cluster(pub u32);

/// A specific sector number (not a range), counted from the volume start.
#[derive(Debug, Clone, Copy, PartialEq, Eq, Structural)]
pub struct Sector(pub u32);

/// The recognized members of the FAT family.
#[derive(Debug, Clone, Copy, PartialEq, Eq, Structural)]
pub enum FatType {
    Fat12,
    Fat16,
    Fat32,
}

/// Why an image could not be parsed or walked.
#[derive(Debug, Clone, Copy, PartialEq, Eq, Structural)]
pub enum FatError {
    /// A requested byte range extends past the end of the image.
    Truncated,
    /// The boot-sector type label is none of FAT12, FAT16, FAT32.
    UnrecognizedVariant,
    /// A boot-sector field is zero or out of range where the geometry
    /// arithmetic needs it positive and in range.
    InvalidGeometry,
    /// A cluster chain grew past the number of clusters of the volume, or a
    /// table entry pointed at a reserved cluster.
    MalformedChain,
    /// The operation is not available for this variant (FAT12 chains).
    UnsupportedVariant,
}

/// The geometry of a FAT volume, shared by every member of the family,
/// together with the backing image.
#[derive(Debug)]
pub struct Fat {
    /// The volume image.
    pub mem: Vec<u8>,
    /// Original-equipment-manufacturer label, trimmed.
    pub oem: String,
    /// The recognized variant.
    pub fat_type: FatType,
    /// Volume serial number from the extended BPB.
    pub volume_id: u32,
    /// Volume label from the extended BPB, trimmed.
    pub volume_label: String,
    /// Number of sectors per FAT table.
    pub fat_table_sectors: u32,
    /// Width of one FAT table entry, in bits (12, 16 or 32).
    pub fat_table_entry_size: u8,
    /// Number of FAT tables (usually the table and one copy).
    pub fat_table_count: u8,
    /// Number of bytes per sector.
    pub bytes_per_sector: u16,
    /// Number of sectors per cluster.
    pub sectors_per_cluster: u8,
    /// Total number of clusters in the cluster area.
    pub total_clusters: u32,
    /// Total number of sectors of the volume.
    pub total_sectors: u32,
    /// Number of sectors belonging to the reserved area.
    pub sectors_reserved_area: u16,
    /// First sector of the reserved area (always 0).
    pub start_reserved_area: Sector,
    /// Total number of sectors of the FAT area.
    pub sectors_fat_area: u32,
    /// First sector of the FAT area.
    pub start_fat_area: Sector,
    /// First sector of the data area.
    pub start_data_area: Sector,
    /// First sector of the root directory.
    pub start_root_dir: Sector,
    /// First sector of the cluster area.
    pub start_cluster_area: Sector,
}

/// A FAT12 or FAT16 volume: the root directory is a fixed contiguous region
/// in front of the cluster area.
#[derive(Debug)]
pub struct Fat16 {
    /// The common geometry.
    pub fat: Fat,
    /// Total number of root-directory entries.
    pub total_root_entries: u16,
}

/// A FAT32 volume: the root directory lives in the cluster area like any
/// subdirectory.
#[derive(Debug)]
pub struct Fat32 {
    /// The common geometry.
    pub fat: Fat,
    /// The start of the cluster chain of the root directory.
    pub root_clusters: Vec<Cluster>,
}

/// A parsed volume of whichever variant the image carries.
#[derive(Debug)]
pub enum FatVolume {
    Fat16(Fat16),
    Fat32(Fat32),
}

// ------------------------------------------------------------------
// Boot-sector fields
// ------------------------------------------------------------------

/// Whether the 16-bit "sectors per FAT" word at offset 22 is zero, which
/// signals the FAT32 boot-sector layout.
pub open spec fn sp_is32_layout(m: Seq<u8>) -> bool {
    le16(m, 22) == 0
}

/// The image is too short for the boot-sector reads its layout calls for.
pub open spec fn sp_truncated(m: Seq<u8>) -> bool {
    m.len() < 24 || (sp_is32_layout(m) && m.len() < 90) || (!sp_is32_layout(m) && m.len() < 62)
}

/// A label byte sequence with trailing spaces and NULs removed.
pub open spec fn trim_label(s: Seq<u8>) -> Seq<u8>
    decreases s.len(),
{
    if s.len() > 0 && (s.last() == 0x20 || s.last() == 0) {
        trim_label(s.drop_last())
    } else {
        s
    }
}

/// The raw 8-byte type label: at offset 82 under the FAT32 layout, at 54
/// otherwise.
pub open spec fn sp_label(m: Seq<u8>) -> Seq<u8> {
    if sp_is32_layout(m) {
        m.subrange(82, 90)
    } else {
        m.subrange(54, 62)
    }
}

/// The variant named by the trimmed type label, if any.
pub open spec fn sp_fat_type(m: Seq<u8>) -> Option<FatType> {
    let l = trim_label(sp_label(m));
    if l == seq![0x46u8, 0x41u8, 0x54u8, 0x31u8, 0x32u8] {
        Some(FatType::Fat12)
    } else if l == seq![0x46u8, 0x41u8, 0x54u8, 0x31u8, 0x36u8] {
        Some(FatType::Fat16)
    } else if l == seq![0x46u8, 0x41u8, 0x54u8, 0x33u8, 0x32u8] {
        Some(FatType::Fat32)
    } else {
        None
    }
}

pub open spec fn sp_is_fat32_type(m: Seq<u8>) -> bool {
    sp_fat_type(m) == Some(FatType::Fat32)
}

pub open spec fn sp_bps(m: Seq<u8>) -> int {
    le16(m, 11)
}

pub open spec fn sp_spc(m: Seq<u8>) -> int {
    m[13] as int
}

pub open spec fn sp_count(m: Seq<u8>) -> int {
    m[16] as int
}

pub open spec fn sp_reserved(m: Seq<u8>) -> int {
    le16(m, 14)
}

pub open spec fn sp_tre(m: Seq<u8>) -> int {
    le16(m, 17)
}

/// Total sectors: the 16-bit field at 19, escaping to the 32-bit field at 32
/// when zero.
pub open spec fn sp_ts(m: Seq<u8>) -> int {
    if le16(m, 19) == 0 {
        le32(m, 32)
    } else {
        le16(m, 19)
    }
}

/// Sectors per FAT: the 16-bit field at 22, escaping to the 32-bit field at
/// 36 when zero.
pub open spec fn sp_fts(m: Seq<u8>) -> int {
    if le16(m, 22) == 0 {
        le32(m, 36)
    } else {
        le16(m, 22)
    }
}

pub open spec fn sp_sfa(m: Seq<u8>) -> int {
    sp_count(m) * sp_fts(m)
}

pub open spec fn sp_sda(m: Seq<u8>) -> int {
    sp_reserved(m) + sp_sfa(m)
}

/// Sectors occupied by the FAT12/16 root directory: 32 bytes per entry,
/// rounded up to whole sectors.
pub open spec fn sp_root_sectors(m: Seq<u8>) -> int
    recommends
        sp_bps(m) >= 1,
{
    (sp_tre(m) * 32 + sp_bps(m) - 1) / sp_bps(m)
}

pub open spec fn sp_sca(m: Seq<u8>) -> int {
    if sp_is_fat32_type(m) {
        sp_sda(m)
    } else {
        sp_sda(m) + sp_root_sectors(m)
    }
}

/// The first cluster of the FAT32 root directory.
pub open spec fn sp_rc(m: Seq<u8>) -> int {
    le32(m, 44)
}

pub open spec fn sp_srd(m: Seq<u8>) -> int {
    if sp_is_fat32_type(m) {
        (sp_rc(m) - 2) * sp_spc(m) + sp_sca(m)
    } else {
        sp_sda(m)
    }
}

pub open spec fn sp_tc(m: Seq<u8>) -> int
    recommends
        sp_spc(m) >= 1,
{
    (sp_ts(m) - sp_sca(m)) / sp_spc(m) + 1
}

/// Offset of the 32-bit volume serial number in the extended BPB.
pub open spec fn sp_vid_off(m: Seq<u8>) -> int {
    if sp_is32_layout(m) {
        67
    } else {
        39
    }
}

/// Offset of the 11-byte volume label in the extended BPB.
pub open spec fn sp_vlabel_off(m: Seq<u8>) -> int {
    if sp_is32_layout(m) {
        71
    } else {
        43
    }
}

/// The geometry arithmetic goes through: the divisors are positive, nothing
/// exceeds a 32-bit sector number, and the cluster area starts within the
/// volume.
pub open spec fn sp_geometry_ok(m: Seq<u8>) -> bool {
    &&& sp_bps(m) >= 1
    &&& sp_spc(m) >= 1
    &&& sp_reserved(m) >= 1
    &&& sp_sda(m) <= u32::MAX
    &&& sp_sca(m) <= u32::MAX
    &&& (sp_is_fat32_type(m) ==> sp_rc(m) >= 2 && sp_srd(m) <= u32::MAX)
    &&& sp_sca(m) <= sp_ts(m)
}

/// The error `Fat::new` reports for image `m`, if any.
pub open spec fn sp_parse_err(m: Seq<u8>) -> Option<FatError> {
    if sp_truncated(m) {
        Some(FatError::Truncated)
    } else if sp_fat_type(m) is None {
        Some(FatError::UnrecognizedVariant)
    } else if !sp_geometry_ok(m) {
        Some(FatError::InvalidGeometry)
    } else {
        None
    }
}

/// The entry width in bits that belongs to a variant.
pub open spec fn sp_entry_bits(t: FatType) -> u8 {
    match t {
        FatType::Fat12 => 12,
        FatType::Fat16 => 16,
        FatType::Fat32 => 32,
    }
}

/// How the base geometry record of a parsed volume relates to the image it
/// was parsed from.
pub open spec fn sp_base_ok(f: Fat, m: Seq<u8>) -> bool {
    &&& f.mem@ == m
    &&& f.oem@ == byte_chars(trim_label(m.subrange(3, 11)))
    &&& Some(f.fat_type) == sp_fat_type(m)
    &&& f.volume_id == le32(m, sp_vid_off(m))
    &&& f.volume_label@ == byte_chars(
        trim_label(m.subrange(sp_vlabel_off(m), sp_vlabel_off(m) + 11)),
    )
    &&& f.fat_table_sectors == sp_fts(m)
    &&& f.fat_table_entry_size == sp_entry_bits(f.fat_type)
    &&& f.fat_table_count == sp_count(m)
    &&& f.bytes_per_sector == sp_bps(m)
    &&& f.sectors_per_cluster == sp_spc(m)
    &&& f.total_clusters == sp_tc(m)
    &&& f.total_sectors == sp_ts(m)
    &&& f.sectors_reserved_area == sp_reserved(m)
    &&& f.start_reserved_area.0 == 0
    &&& f.sectors_fat_area == sp_sfa(m)
    &&& f.start_fat_area.0 == sp_reserved(m)
    &&& f.start_data_area.0 == sp_sda(m)
    &&& f.start_root_dir.0 == sp_srd(m)
    &&& f.start_cluster_area.0 == sp_sca(m)
    &&& f.wf()
}

/// How a parsed volume relates to the image it was parsed from.
pub open spec fn sp_volume_ok(v: FatVolume, m: Seq<u8>) -> bool {
    match v {
        FatVolume::Fat16(f) => {
            &&& sp_base_ok(f.fat, m)
            &&& !sp_is_fat32_type(m)
            &&& f.total_root_entries == sp_tre(m)
        },
        FatVolume::Fat32(g) => {
            &&& sp_base_ok(g.fat, m)
            &&& sp_is_fat32_type(m)
            &&& g.root_clusters@.len() == 1
            &&& g.root_clusters@[0].0 == sp_rc(m)
        },
    }
}

// ------------------------------------------------------------------
// The FAT table as a linked list
// ------------------------------------------------------------------

impl Fat {
    /// The internal consistency of a geometry record, established by
    /// `Fat::new` and relied on by every walk.
    pub open spec fn wf(self) -> bool {
        &&& self.bytes_per_sector >= 1
        &&& self.sectors_per_cluster >= 1
        &&& self.sectors_reserved_area >= 1
        &&& self.start_reserved_area.0 == 0
        &&& self.start_fat_area.0 == self.sectors_reserved_area
        &&& self.sectors_fat_area == self.fat_table_count as int * self.fat_table_sectors as int
        &&& self.start_data_area.0 == self.start_fat_area.0 + self.sectors_fat_area
        &&& self.start_cluster_area.0 >= self.start_data_area.0
        &&& self.start_cluster_area.0 <= self.total_sectors
        &&& self.total_clusters == (self.total_sectors - self.start_cluster_area.0)
            / self.sectors_per_cluster as int + 1
        &&& self.fat_table_entry_size == sp_entry_bits(self.fat_type)
    }

    /// The first sector of cluster `c`.
    pub open spec fn sp_cluster_to_sector(self, c: int) -> int {
        (c - 2) * self.sectors_per_cluster + self.start_cluster_area.0
    }

    /// The cluster whose sectors contain sector `s`: cluster numbering
    /// starts at 2 at the first sector of the cluster area.
    pub open spec fn sp_sector_to_cluster(self, s: int) -> int {
        (s - self.start_cluster_area.0) / self.sectors_per_cluster as int + 2
    }

    /// The byte offset of sector `s`.
    pub open spec fn sp_offset(self, s: int) -> int {
        s * self.bytes_per_sector
    }

    /// The byte offset of the FAT table entry of cluster `c`.
    pub open spec fn sp_fat_table_offset(self, c: int) -> int {
        self.start_fat_area.0 * self.bytes_per_sector + c * (self.fat_table_entry_size as int / 8)
    }
}

// ------------------------------------------------------------------
// Address translation
// ------------------------------------------------------------------

impl Fat {
    /// Converts a cluster number (at least 2) into its first sector number.
    fn cluster_to_sector(&self, cluster: &Cluster) -> (r: Sector)
        requires
            cluster.0 >= 2,
            self.sp_cluster_to_sector(cluster.0 as int) <= u32::MAX,
        ensures
            r.0 == self.sp_cluster_to_sector(cluster.0 as int),
    {
        proof {
            let c64 = (cluster.0 - 2) as u64;
            let spc64 = self.sectors_per_cluster as u64;
            assert(c64 * spc64 < 0x100_0000_0000) by (nonlinear_arith)
                requires
                    c64 < 0x1_0000_0000,
                    spc64 < 0x100,
            ;
        }
        let t = (cluster.0 - 2) as u64 * self.sectors_per_cluster as u64
            + self.start_cluster_area.0 as u64;
        Sector(t as u32)
    }

    /// Converts a sector number within the cluster area into the number of
    /// the cluster it belongs to.
    fn sector_to_cluster(&self, sector: &Sector) -> (r: Cluster)
        requires
            self.sectors_per_cluster >= 1,
            sector.0 >= self.start_cluster_area.0,
            self.sp_sector_to_cluster(sector.0 as int) <= u32::MAX,
        ensures
            r.0 == self.sp_sector_to_cluster(sector.0 as int),
    {
        Cluster((sector.0 - self.start_cluster_area.0) / self.sectors_per_cluster as u32 + 2)
    }

    /// The byte offset of a sector from the beginning of the image.
    fn offset(&self, sector: &Sector) -> (r: usize)
        requires
            self.sp_offset(sector.0 as int) <= usize::MAX,
        ensures
            r == self.sp_offset(sector.0 as int),
    {
        proof {
            let s64 = sector.0 as u64;
            let bps64 = self.bytes_per_sector as u64;
            assert(s64 * bps64 < 0x1_0000_0000_0000) by (nonlinear_arith)
                requires
                    s64 < 0x1_0000_0000,
                    bps64 < 0x1_0000,
            ;
        }
        let t = sector.0 as u64 * self.bytes_per_sector as u64;
        t as usize
    }

    /// The byte offset of the FAT table entry for the given cluster. Only
    /// FAT16 and FAT32 store table entries at whole-byte strides.
    pub fn fat_table_offset(&self, cluster: &Cluster) -> (r: usize)
        requires
            cluster.0 >= 2,
            self.fat_table_entry_size == 16 || self.fat_table_entry_size == 32,
            self.sp_fat_table_offset(cluster.0 as int) <= usize::MAX,
        ensures
            r == self.sp_fat_table_offset(cluster.0 as int),
    {
        proof {
            let sfa64 = self.start_fat_area.0 as u64;
            let bps64 = self.bytes_per_sector as u64;
            let c64 = cluster.0 as u64;
            assert(sfa64 * bps64 < 0x1_0000_0000_0000) by (nonlinear_arith)
                requires
                    sfa64 < 0x1_0000_0000,
                    bps64 < 0x1_0000,
            ;
            assert(c64 * 4 <= 0x4_0000_0000) by (nonlinear_arith)
                requires
                    c64 < 0x1_0000_0000,
            ;
        }
        let width = (self.fat_table_entry_size / 8) as u64;
        let t = self.start_fat_area.0 as u64 * self.bytes_per_sector as u64 + cluster.0 as u64
            * width;
        t as usize
    }

    /// Converts a vector of clusters into the byte offsets of their first
    /// sectors.
    pub fn clusters_to_offsets(&self, clusters: &Vec<Cluster>) -> (r: Vec<usize>)
        requires
            forall|i: int|
                0 <= i < clusters@.len() ==> (#[trigger] clusters@[i]).0 >= 2
                    && self.sp_cluster_to_sector(clusters@[i].0 as int) <= u32::MAX
                    && self.sp_offset(self.sp_cluster_to_sector(clusters@[i].0 as int))
                    <= usize::MAX,
        ensures
            r@.len() == clusters@.len(),
            forall|i: int|
                0 <= i < r@.len() ==> #[trigger] r@[i] == self.sp_offset(
                    self.sp_cluster_to_sector(clusters@[i].0 as int),
                ),
    {
        let mut offsets: Vec<usize> = Vec::new();
        let mut i: usize = 0;
        let n = clusters.len();
        while i < n
            invariant
                i <= n,
                n == clusters@.len(),
                offsets@.len() == i,
                forall|k: int|
                    0 <= k < clusters@.len() ==> (#[trigger] clusters@[k]).0 >= 2
                        && self.sp_cluster_to_sector(clusters@[k].0 as int) <= u32::MAX
                        && self.sp_offset(self.sp_cluster_to_sector(clusters@[k].0 as int))
                        <= usize::MAX,
                forall|k: int|
                    0 <= k < i ==> #[trigger] offsets@[k] == self.sp_offset(
                        self.sp_cluster_to_sector(clusters@[k].0 as int),
                    ),
            decreases n - i,
        {
            let sector = self.cluster_to_sector(&clusters[i]);
            offsets.push(self.offset(&sector));
            i = i + 1;
        }
        offsets
    }
}

// ------------------------------------------------------------------
// Address-translation lemmas
// ------------------------------------------------------------------

/// Sector-address round trip: for any cluster of the cluster area,
/// converting it to its first sector and that sector back recovers the
/// cluster.
pub proof fn lemma_cluster_sector_round_trip(v: Fat, c: int)
    requires
        v.wf(),
        c >= 2,
    ensures
        v.sp_sector_to_cluster(v.sp_cluster_to_sector(c)) == c,
{
    let spc = v.sectors_per_cluster as int;
    assert(v.sp_cluster_to_sector(c) - v.start_cluster_area.0 == (c - 2) * spc);
    assert(((c - 2) * spc) / spc == c - 2) by (nonlinear_arith)
        requires
            spc >= 1,
            c >= 2,
    ;
}

/// Cluster-address round trip for a sector `s` of the cluster area:
/// converting `s` to its cluster and back lands at the start of `s`'s
/// cluster — at most `s`, with the exact shortfall being `s`'s offset
/// within its cluster, which is below `sectors_per_cluster`.
pub proof fn lemma_sector_cluster_round_trip(v: Fat, s: int)
    requires
        v.wf(),
        s >= v.start_cluster_area.0,
    ensures
        v.sp_cluster_to_sector(v.sp_sector_to_cluster(s)) <= s,
        s - v.sp_cluster_to_sector(v.sp_sector_to_cluster(s)) == (s - v.start_cluster_area.0) % (
        v.sectors_per_cluster as int),
        s - v.sp_cluster_to_sector(v.sp_sector_to_cluster(s)) < v.sectors_per_cluster,
{
    let spc = v.sectors_per_cluster as int;
    let d = s - v.start_cluster_area.0;
    vstd::arithmetic::div_mod::lemma_fundamental_div_mod(d, spc);
    vstd::arithmetic::div_mod::lemma_mod_bound(d, spc);
    assert(v.sp_cluster_to_sector(v.sp_sector_to_cluster(s)) == (d / spc) * spc
        + v.start_cluster_area.0) by (nonlinear_arith)
        requires
            v.sp_sector_to_cluster(s) == d / spc + 2,
            v.sp_cluster_to_sector(d / spc + 2) == (d / spc + 2 - 2) * spc
                + v.start_cluster_area.0,
    ;
}

// ------------------------------------------------------------------
// Parsing the boot sector
// ------------------------------------------------------------------

/// The length that is left of `s` once trailing spaces and NULs are
/// dropped.
fn label_trimmed_len(s: &Vec<u8>) -> (l: usize)
    ensures
        l <= s@.len(),
        s@.take(l as int) == trim_label(s@),
{
    let mut l = s.len();
    proof {
        assert(s@.take(l as int) =~= s@);
    }
    while l > 0 && (s[l - 1] == 0x20 || s[l - 1] == 0)
        invariant
            l <= s@.len(),
            trim_label(s@) == trim_label(s@.take(l as int)),
        decreases l,
    {
        proof {
            assert(s@.take(l as int).last() == s@[l - 1]);
            assert(s@.take(l as int).drop_last() =~= s@.take(l - 1));
        }
        l = l - 1;
    }
    proof {
        if l > 0 {
            assert(s@.take(l as int).last() == s@[l - 1]);
        }
        assert(trim_label(s@.take(l as int)) == s@.take(l as int));
    }
    l
}

/// The variant named by a trimmed label byte sequence, if any.
pub open spec fn sp_label_type(s: Seq<u8>) -> Option<FatType> {
    let l = trim_label(s);
    if l == seq![0x46u8, 0x41u8, 0x54u8, 0x31u8, 0x32u8] {
        Some(FatType::Fat12)
    } else if l == seq![0x46u8, 0x41u8, 0x54u8, 0x31u8, 0x36u8] {
        Some(FatType::Fat16)
    } else if l == seq![0x46u8, 0x41u8, 0x54u8, 0x33u8, 0x32u8] {
        Some(FatType::Fat32)
    } else {
        None
    }
}

/// Classifies an 8-byte type label field.
fn parse_label(s: &Vec<u8>) -> (r: Option<FatType>)
    ensures
        r == sp_label_type(s@),
{
    let l = label_trimmed_len(s);
    let ghost t = trim_label(s@);
    proof {
        assert(t.len() == l);
        assert(forall|k: int| 0 <= k < l ==> t[k] == s@[k]);
        if l == 5 {
            assert(t =~= seq![s@[0], s@[1], s@[2], s@[3], s@[4]]);
        } else {
            assert(t != seq![0x46u8, 0x41u8, 0x54u8, 0x31u8, 0x32u8]);
            assert(t != seq![0x46u8, 0x41u8, 0x54u8, 0x31u8, 0x36u8]);
            assert(t != seq![0x46u8, 0x41u8, 0x54u8, 0x33u8, 0x32u8]);
        }
    }
    if l != 5 {
        return None;
    }
    if s[0] != 0x46 || s[1] != 0x41 || s[2] != 0x54 {
        return None;
    }
    if s[3] == 0x31 && s[4] == 0x32 {
        Some(FatType::Fat12)
    } else if s[3] == 0x31 && s[4] == 0x36 {
        Some(FatType::Fat16)
    } else if s[3] == 0x33 && s[4] == 0x32 {
        Some(FatType::Fat32)
    } else {
        None
    }
}

impl Fat {
    /// Parses a volume image's boot sector into a `FatVolume`.
    ///
    /// The 16-bit "sectors per FAT" word at offset 22 disambiguates the
    /// layout: zero means the FAT32 boot sector, whose sectors-per-FAT and
    /// type label live elsewhere. The type label alone decides the variant;
    /// an unrecognized label, an image too short for the boot sector, and
    /// geometry fields that would divide by zero or overflow a sector number
    /// are each reported as errors.
    pub fn new(mem: Vec<u8>) -> (r: Result<FatVolume, FatError>)
        ensures
            sp_parse_err(mem@) matches Some(e) ==> (r matches Err(e2) && e2 == e),
            sp_parse_err(mem@) is None ==> (r matches Ok(v) && sp_volume_ok(v, mem@)),
    {
        let n = mem.len();
        if n < 24 {
            return Err(FatError::Truncated);
        }
        let ssf16 = read_u16(&mem, 22);
        let is32 = ssf16 == 0;
        if is32 && n < 90 {
            return Err(FatError::Truncated);
        }
        if !is32 && n < 62 {
            return Err(FatError::Truncated);
        }
        let label_off: usize = if is32 {
            82
        } else {
            54
        };
        let label_raw = copy_range(&mem, label_off, 8);
        proof {
            assert(label_raw@ == sp_label(mem@));
        }
        let fat_type = match parse_label(&label_raw) {
            Some(t) => t,
            None => {
                return Err(FatError::UnrecognizedVariant);
            },
        };
        let is_fat32_type = fat_type == FatType::Fat32;
        proof {
            assert(is_fat32_type == sp_is_fat32_type(mem@));
        }
        let bps = read_u16(&mem, 11);
        let spc = mem[13];
        let count = mem[16];
        let reserved = read_u16(&mem, 14);
        let tre = read_u16(&mem, 17);
        let ts16 = read_u16(&mem, 19);
        let ts: u32 = if ts16 == 0 {
            read_u32(&mem, 32)
        } else {
            ts16 as u32
        };
        let fts: u32 = if is32 {
            read_u32(&mem, 36)
        } else {
            ssf16 as u32
        };
        if bps == 0 || spc == 0 || reserved == 0 {
            return Err(FatError::InvalidGeometry);
        }
        proof {
            let c64 = count as u64;
            let fv64 = fts as u64;
            assert(c64 * fv64 < 0x100_0000_0000) by (nonlinear_arith)
                requires
                    c64 < 0x100,
                    fv64 < 0x1_0000_0000,
            ;
        }
        let sfa64 = count as u64 * fts as u64;
        let sda64 = reserved as u64 + sfa64;
        let root_sectors64 = (tre as u64 * 32 + bps as u64 - 1) / bps as u64;
        let sca64 = if is_fat32_type {
            sda64
        } else {
            sda64 + root_sectors64
        };
        if sda64 > 0xFFFF_FFFF || sca64 > 0xFFFF_FFFF {
            return Err(FatError::InvalidGeometry);
        }
        let rc: u32 = if is_fat32_type {
            read_u32(&mem, 44)
        } else {
            0
        };
        if is_fat32_type && rc < 2 {
            return Err(FatError::InvalidGeometry);
        }
        let srd64: u64 = if is_fat32_type {
            proof {
                let r64 = (rc - 2) as u64;
                let s64 = spc as u64;
                assert(r64 * s64 < 0x100_0000_0000) by (nonlinear_arith)
                    requires
                        r64 < 0x1_0000_0000,
                        s64 < 0x100,
                ;
            }
            (rc - 2) as u64 * spc as u64 + sca64
        } else {
            sda64
        };
        if srd64 > 0xFFFF_FFFF {
            return Err(FatError::InvalidGeometry);
        }
        if sca64 > ts as u64 {
            return Err(FatError::InvalidGeometry);
        }
        proof {
            assert(sp_parse_err(mem@) is None);
        }
        let sca = sca64 as u32;
        proof {
            let a = (ts - sca) as int;
            let b = spc as int;
            assert(a / b <= a) by (nonlinear_arith)
                requires
                    a >= 0,
                    b >= 1,
            ;
        }
        let tc: u32 = (ts - sca) / spc as u32 + 1;
        let oem_raw = copy_range(&mem, 3, 8);
        let ol = label_trimmed_len(&oem_raw);
        let oem = prefix_string(&oem_raw, ol);
        let vid_off: usize = if is32 {
            67
        } else {
            39
        };
        let vlabel_off: usize = if is32 {
            71
        } else {
            43
        };
        let volume_id = read_u32(&mem, vid_off);
        let vlabel_raw = copy_range(&mem, vlabel_off, 11);
        let vll = label_trimmed_len(&vlabel_raw);
        let volume_label = prefix_string(&vlabel_raw, vll);
        let bits: u8 = match fat_type {
            FatType::Fat12 => 12,
            FatType::Fat16 => 16,
            FatType::Fat32 => 32,
        };
        let f = Fat {
            mem,
            oem,
            fat_type,
            volume_id,
            volume_label,
            fat_table_sectors: fts,
            fat_table_entry_size: bits,
            fat_table_count: count,
            bytes_per_sector: bps,
            sectors_per_cluster: spc,
            total_clusters: tc,
            total_sectors: ts,
            sectors_reserved_area: reserved,
            start_reserved_area: Sector(0),
            sectors_fat_area: sfa64 as u32,
            start_fat_area: Sector(reserved as u32),
            start_data_area: Sector(sda64 as u32),
            start_root_dir: Sector(srd64 as u32),
            start_cluster_area: Sector(sca),
        };
        if is_fat32_type {
            let root_clusters = vec![Cluster(rc)];
            Ok(FatVolume::Fat32(Fat32 { fat: f, root_clusters }))
        } else {
            Ok(FatVolume::Fat16(Fat16 { fat: f, total_root_entries: tre }))
        }
    }
}

// ------------------------------------------------------------------
// The layout report
// ------------------------------------------------------------------

/// The text under which a variant is reported.
pub open spec fn sp_type_text(t: FatType) -> Seq<char> {
    match t {
        FatType::Fat12 => "FAT12"@,
        FatType::Fat16 => "FAT16"@,
        FatType::Fat32 => "FAT32"@,
    }
}

fn type_text(t: FatType) -> (r: &'static str)
    ensures
        r@ == sp_type_text(t),
{
    match t {
        FatType::Fat12 => "FAT12",
        FatType::Fat16 => "FAT16",
        FatType::Fat32 => "FAT32",
    }
}

/// The report up to the per-table rows.
pub open spec fn spec_info_head(f: Fat) -> Seq<char> {
    "FILE SYSTEM INFORMATION\n--------------------------------\nFile System Type: "@ + sp_type_text(
        f.fat_type,
    ) + "\nOEM Name: "@ + f.oem@ + "\nVolume ID: "@ + spec_dec(f.volume_id as int)
        + "\nVolume Label (Boot Sector): "@ + f.volume_label@ + "\nFile System Type Label: "@
        + sp_type_text(f.fat_type)
        + "\n\nSize\n--------------------------------\nSector Size (in bytes): "@ + spec_dec(
        f.bytes_per_sector as int,
    ) + "\nCluster Size (in bytes): "@ + spec_dec(
        f.bytes_per_sector as int * f.sectors_per_cluster as int,
    ) + "\nCluster Range: 2 - "@ + spec_dec(f.total_clusters as int)
        + "\n\nFile System Layout (in sectors)\n--------------------------------\nTotal Sector Range: 0 - "@
        + spec_dec(f.total_sectors - 1) + "\n|- Reserved: 0 - "@ + spec_dec(
        f.sectors_reserved_area - 1,
    ) + "\n|  \u{2514}\u{2500} Boot Sector: 0\n"@
}

/// The row reported for FAT copy `i`.
pub open spec fn spec_fat_row(f: Fat, i: int) -> Seq<char> {
    "|- FAT "@ + spec_dec(i) + ": "@ + spec_dec(f.start_fat_area.0 + i * f.fat_table_sectors)
        + " - "@ + spec_dec(f.start_fat_area.0 + (i + 1) * f.fat_table_sectors - 1) + "\n"@
}

/// The rows reported for the first `k` FAT copies, in order.
pub open spec fn spec_fat_rows(f: Fat, k: int) -> Seq<char>
    decreases k,
{
    if k <= 0 {
        Seq::empty()
    } else {
        spec_fat_rows(f, k - 1) + spec_fat_row(f, k - 1)
    }
}

/// The report after the per-table rows: the data area, and the root
/// directory and cluster area as the variant lays them out.
pub open spec fn spec_info_tail(f: Fat) -> Seq<char> {
    "\u{2514}\u{2500} Data Area: "@ + spec_dec(f.start_data_area.0 as int) + " - "@ + spec_dec(
        f.total_sectors - 1,
    ) + "\n"@ + (if f.fat_type == FatType::Fat32 {
        "    \u{2514}\u{2500} Cluster Area: "@ + spec_dec(f.start_cluster_area.0 as int) + " - "@
            + spec_dec(f.total_sectors - 1) + "\n        \u{2514}\u{2500} Root: "@ + spec_dec(
            f.start_root_dir.0 as int,
        ) + "\n"@
    } else {
        "    |- Root: "@ + spec_dec(f.start_root_dir.0 as int) + " - "@ + spec_dec(
            f.start_cluster_area.0 - 1,
        ) + "\n    \u{2514}\u{2500} Cluster Area: "@ + spec_dec(f.start_cluster_area.0 as int)
            + " - "@ + spec_dec(f.total_sectors - 1) + "\n"@
    })
}

/// The whole layout report of a volume.
pub open spec fn spec_info(f: Fat) -> Seq<char> {
    spec_info_head(f) + spec_fat_rows(f, f.fat_table_count as int) + spec_info_tail(f)
}

impl Fat {
    /// Renders general information about the file system: the variant, the
    /// labels, the sector and cluster sizes, and the sector ranges of every
    /// area of the volume, one line per FAT copy.
    pub fn info(&self) -> (r: String)
        requires
            self.wf(),
        ensures
            r@ == spec_info(*self),
    {
        let mut s = String::from_str(
            "FILE SYSTEM INFORMATION\n--------------------------------\nFile System Type: ",
        );
        s.append(type_text(self.fat_type));
        s.append("\nOEM Name: ");
        s.append(self.oem.as_str());
        s.append("\nVolume ID: ");
        let vid = u32_string(self.volume_id);
        s.append(vid.as_str());
        s.append("\nVolume Label (Boot Sector): ");
        s.append(self.volume_label.as_str());
        s.append("\nFile System Type Label: ");
        s.append(type_text(self.fat_type));
        s.append("\n\nSize\n--------------------------------\nSector Size (in bytes): ");
        let bps_str = u32_string(self.bytes_per_sector as u32);
        s.append(bps_str.as_str());
        s.append("\nCluster Size (in bytes): ");
        proof {
            let b64 = self.bytes_per_sector as u32;
            let c64 = self.sectors_per_cluster as u32;
            assert(b64 * c64 < 0x100_0000) by (nonlinear_arith)
                requires
                    b64 < 0x1_0000,
                    c64 < 0x100,
            ;
        }
        let cluster_size = u32_string(self.bytes_per_sector as u32 * self.sectors_per_cluster as u32);
        s.append(cluster_size.as_str());
        s.append("\nCluster Range: 2 - ");
        let tc_str = u32_string(self.total_clusters);
        s.append(tc_str.as_str());
        s.append(
            "\n\nFile System Layout (in sectors)\n--------------------------------\nTotal Sector Range: 0 - ",
        );
        let ts_str = u32_string(self.total_sectors - 1);
        s.append(ts_str.as_str());
        s.append("\n|- Reserved: 0 - ");
        let res_str = u32_string(self.sectors_reserved_area as u32 - 1);
        s.append(res_str.as_str());
        s.append("\n|  \u{2514}\u{2500} Boot Sector: 0\n");
        proof {
            assert(s@ == spec_info_head(*self));
        }
        let count = self.fat_table_count;
        let mut i: u8 = 0;
        while i < count
            invariant
                i <= count,
                self.wf(),
                count == self.fat_table_count,
                s@ == spec_info_head(*self) + spec_fat_rows(*self, i as int),
            decreases count - i,
        {
            proof {
                let i64 = i as u64;
                let i164 = (i + 1) as u64;
                let c64 = count as u64;
                let fv64 = self.fat_table_sectors as u64;
                assert(i64 * fv64 <= c64 * fv64 && i164 * fv64 <= c64 * fv64) by (nonlinear_arith)
                    requires
                        i64 <= c64,
                        i164 <= c64,
                        0 <= fv64,
                ;
            }
            let mut row = String::from_str("|- FAT ");
            let i_str = u32_string(i as u32);
            row.append(i_str.as_str());
            row.append(": ");
            let row_start = self.start_fat_area.0 as u64 + i as u64 * self.fat_table_sectors as u64;
            let rs_str = u32_string(row_start as u32);
            row.append(rs_str.as_str());
            row.append(" - ");
            let row_end = self.start_fat_area.0 as u64 + (i + 1) as u64
                * self.fat_table_sectors as u64 - 1;
            let re_str = u32_string(row_end as u32);
            row.append(re_str.as_str());
            row.append("\n");
            proof {
                assert(row@ == spec_fat_row(*self, i as int));
            }
            s.append(row.as_str());
            proof {
                crate::numfmt::lemma_concat3(
                    spec_info_head(*self),
                    spec_fat_rows(*self, i as int),
                    spec_fat_row(*self, i as int),
                );
            }
            i = i + 1;
        }
        let mut tail = String::from_str("\u{2514}\u{2500} Data Area: ");
        let sda_str = u32_string(self.start_data_area.0);
        tail.append(sda_str.as_str());
        tail.append(" - ");
        let ts_str2 = u32_string(self.total_sectors - 1);
        tail.append(ts_str2.as_str());
        tail.append("\n");
        let mut variant: String;
        if self.fat_type == FatType::Fat32 {
            variant = String::from_str("    \u{2514}\u{2500} Cluster Area: ");
            let sca_str = u32_string(self.start_cluster_area.0);
            variant.append(sca_str.as_str());
            variant.append(" - ");
            let ts_str3 = u32_string(self.total_sectors - 1);
            variant.append(ts_str3.as_str());
            variant.append("\n        \u{2514}\u{2500} Root: ");
            let srd_str = u32_string(self.start_root_dir.0);
            variant.append(srd_str.as_str());
            variant.append("\n");
        } else {
            variant = String::from_str("    |- Root: ");
            let srd_str = u32_string(self.start_root_dir.0);
            variant.append(srd_str.as_str());
            variant.append(" - ");
            let sca1_str = u32_string(self.start_cluster_area.0 - 1);
            variant.append(sca1_str.as_str());
            variant.append("\n    \u{2514}\u{2500} Cluster Area: ");
            let sca_str = u32_string(self.start_cluster_area.0);
            variant.append(sca_str.as_str());
            variant.append(" - ");
            let ts_str3 = u32_string(self.total_sectors - 1);
            variant.append(ts_str3.as_str());
            variant.append("\n");
        }
        tail.append(variant.as_str());
        proof {
            assert(tail@ == spec_info_tail(*self));
        }
        s.append(tail.as_str());
        proof {
            assert(s@ == spec_info(*self));
        }
        s
    }
}

// ------------------------------------------------------------------
// Cluster chains
// ------------------------------------------------------------------

/// The views of a sequence of clusters.
pub open spec fn cluster_views(s: Seq<Cluster>) -> Seq<u32> {
    s.map_values(|c: Cluster| c.0)
}

impl Fat {
    /// A table value or start value masked to the bits that carry the
    /// cluster number: the low 16 for FAT16, the low 28 for FAT32.
    pub open spec fn sp_mask(self, v: u32) -> u32 {
        if self.fat_table_entry_size == 16 {
            v & 0xFFFF
        } else {
            v & 0x0FFF_FFFF
        }
    }

    /// Whether a masked value ends a chain: the FREE, BAD and EOF sentinels
    /// of the variant.
    pub open spec fn sp_is_end(self, mv: u32) -> bool {
        if self.fat_table_entry_size == 16 {
            mv == 0 || mv == 0xFFF7 || mv == 0xFFFF
        } else {
            mv == 0 || mv == 0x0FFF_FFF7 || mv >= 0x0FFF_FFF8
        }
    }

    /// Whether the table entry of cluster `c` lies within the image.
    pub open spec fn sp_read_ok(self, c: u32) -> bool {
        self.sp_fat_table_offset(c as int) + (self.fat_table_entry_size as int / 8)
            <= self.mem@.len()
    }

    /// The raw table value stored for cluster `c`.
    pub open spec fn sp_entry_val(self, c: u32) -> int {
        if self.fat_table_entry_size == 16 {
            le16(self.mem@, self.sp_fat_table_offset(c as int))
        } else {
            le32(self.mem@, self.sp_fat_table_offset(c as int))
        }
    }

    /// The chain walk, one table entry at a time. `v` is the value under
    /// consideration (the start cluster, or what the previous table entry
    /// held); `fuel` bounds the length and so guards against cycles.
    pub open spec fn sp_walk(self, v: u32, fuel: nat) -> Result<Seq<u32>, FatError>
        decreases fuel,
    {
        let mv = self.sp_mask(v);
        if self.sp_is_end(mv) {
            Ok(Seq::empty())
        } else if mv < 2 {
            Err(FatError::MalformedChain)
        } else if fuel == 0 {
            Err(FatError::MalformedChain)
        } else if !self.sp_read_ok(mv) {
            Err(FatError::Truncated)
        } else {
            match self.sp_walk(self.sp_entry_val(mv) as u32, (fuel - 1) as nat) {
                Ok(rest) => Ok(seq![mv] + rest),
                Err(e) => Err(e),
            }
        }
    }
}

/// A successful walk never yields more clusters than it had fuel, so every
/// chain of a valid volume is finite and at most `total_clusters` long.
pub proof fn lemma_walk_len(v: Fat, start: u32, fuel: nat)
    ensures
        v.sp_walk(start, fuel) matches Ok(ch) ==> ch.len() <= fuel,
    decreases fuel,
{
    let mv = v.sp_mask(start);
    if !v.sp_is_end(mv) && mv >= 2 && fuel > 0 && v.sp_read_ok(mv) {
        lemma_walk_len(v, v.sp_entry_val(mv) as u32, (fuel - 1) as nat);
    }
}

/// Every cluster of a successful walk is a data cluster: at least 2.
pub proof fn lemma_walk_elems(v: Fat, start: u32, fuel: nat)
    ensures
        v.sp_walk(start, fuel) matches Ok(ch) ==> forall|i: int|
            0 <= i < ch.len() ==> 2 <= #[trigger] ch[i],
    decreases fuel,
{
    let mv = v.sp_mask(start);
    if !v.sp_is_end(mv) && mv >= 2 && fuel > 0 && v.sp_read_ok(mv) {
        lemma_walk_elems(v, v.sp_entry_val(mv) as u32, (fuel - 1) as nat);
    }
}

impl Fat {
    /// Follows the allocation chain that starts at `cluster` through the
    /// FAT table, collecting the clusters in physical link order until a
    /// sentinel ends the chain.
    ///
    /// A chain longer than the volume has clusters can only be a cycle and
    /// is reported as malformed, as is a link to one of the two reserved
    /// cluster numbers; a table entry beyond the image ends the walk with a
    /// truncation error. FAT12 entries are packed in half bytes and are not
    /// walked.
    pub fn get_cluster_chain(&self, cluster: &Cluster) -> (r: Result<Vec<Cluster>, FatError>)
        requires
            self.wf(),
        ensures
            self.fat_table_entry_size == 12 ==> (r matches Err(e) && e
                == FatError::UnsupportedVariant),
            self.fat_table_entry_size != 12 ==> match self.sp_walk(
                cluster.0,
                self.total_clusters as nat,
            ) {
                Ok(sq) => r matches Ok(ch) && cluster_views(ch@) == sq,
                Err(e) => r matches Err(e2) && e2 == e,
            },
            r matches Ok(ch) ==> ch@.len() <= self.total_clusters,
    {
        let bits = self.fat_table_entry_size;
        if bits != 16 && bits != 32 {
            return Err(FatError::UnsupportedVariant);
        }
        let width: usize = if bits == 16 {
            2
        } else {
            4
        };
        let tc = self.total_clusters;
        let ghost fuel_all = tc as nat;
        let ghost c0 = cluster.0;
        let mut chain: Vec<Cluster> = Vec::new();
        let mut cur: u32 = cluster.0;
        proof {
            lemma_walk_len(*self, c0, fuel_all);
        }
        loop
            invariant
                self.wf(),
                bits == self.fat_table_entry_size,
                bits == 16 || bits == 32,
                width == self.fat_table_entry_size as int / 8,
                tc == self.total_clusters,
                chain@.len() <= tc,
                c0 == cluster.0,
                match self.sp_walk(cur, (tc - chain@.len()) as nat) {
                    Ok(rest) => self.sp_walk(c0, tc as nat) matches Ok(full) && full
                        == cluster_views(chain@) + rest,
                    Err(e) => self.sp_walk(c0, tc as nat) matches Err(e2) && e2 == e,
                },
            decreases tc - chain@.len(),
        {
            let ghost fuel = (tc - chain@.len()) as nat;
            let mv = if bits == 16 {
                cur & 0xFFFF
            } else {
                cur & 0x0FFF_FFFF
            };
            proof {
                assert(mv == self.sp_mask(cur));
            }
            let ended = if bits == 16 {
                mv == 0 || mv == 0xFFF7 || mv == 0xFFFF
            } else {
                mv == 0 || mv == 0x0FFF_FFF7 || mv >= 0x0FFF_FFF8
            };
            if ended {
                proof {
                    assert(self.sp_walk(cur, fuel) == Ok::<Seq<u32>, FatError>(Seq::empty()));
                    assert(cluster_views(chain@) + Seq::<u32>::empty() =~= cluster_views(chain@));
                    lemma_walk_len(*self, c0, tc as nat);
                }
                return Ok(chain);
            }
            if mv < 2 {
                proof {
                    assert(self.sp_walk(cur, fuel) == Err::<Seq<u32>, FatError>(
                        FatError::MalformedChain,
                    ));
                }
                return Err(FatError::MalformedChain);
            }
            if chain.len() >= tc as usize {
                proof {
                    assert(fuel == 0);
                    assert(self.sp_walk(cur, fuel) == Err::<Seq<u32>, FatError>(
                        FatError::MalformedChain,
                    ));
                }
                return Err(FatError::MalformedChain);
            }
            proof {
                let sfa64 = self.start_fat_area.0 as u64;
                let bps64 = self.bytes_per_sector as u64;
                assert(sfa64 * bps64 < 0x1_0000_0000_0000) by (nonlinear_arith)
                    requires
                        sfa64 < 0x1_0000_0000,
                        bps64 < 0x1_0000,
                ;
                let mv64 = mv as u64;
                let w64 = width as u64;
                assert(mv64 * w64 <= 0x4_0000_0000_0000) by (nonlinear_arith)
                    requires
                        mv64 < 0x1_0000_0000,
                        w64 <= 4,
                ;
            }
            let off64 = self.start_fat_area.0 as u64 * self.bytes_per_sector as u64 + mv as u64
                * width as u64;
            proof {
                assert(off64 == self.sp_fat_table_offset(mv as int));
            }
            let len64 = self.mem.len() as u64;
            if off64 > len64 || width as u64 > len64 - off64 {
                proof {
                    assert(!self.sp_read_ok(mv));
                    assert(self.sp_walk(cur, fuel) == Err::<Seq<u32>, FatError>(
                        FatError::Truncated,
                    ));
                }
                return Err(FatError::Truncated);
            }
            let off = off64 as usize;
            let val: u32 = if bits == 16 {
                read_u16(&self.mem, off) as u32
            } else {
                read_u32(&self.mem, off)
            };
            proof {
                assert(val == self.sp_entry_val(mv) as u32);
            }
            let ghost pre = chain@;
            chain.push(Cluster(mv));
            cur = val;
            proof {
                assert(chain@ == pre.push(Cluster(mv)));
                let next_fuel = (tc - chain@.len()) as nat;
                assert(next_fuel == (fuel - 1) as nat);
                match self.sp_walk(cur, next_fuel) {
                    Ok(rest) => {
                        assert(self.sp_walk(cluster.0, fuel) == Ok::<Seq<u32>, FatError>(
                            seq![mv] + rest,
                        ) || true);
                        assert(cluster_views(pre) + (seq![mv] + rest) =~= cluster_views(chain@)
                            + rest);
                    },
                    Err(e) => {},
                }
            }
        }
    }
}

} // verus!
