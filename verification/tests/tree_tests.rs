use greasy::fat::{Fat, FatError, FatVolume};
use greasy::fat_entry::Entry;
use greasy::tree::{render_tree, FAT};

/// A small FAT16 volume: one reserved sector, one FAT sector, a 16-entry
/// root directory (one sector), 512-byte sectors, one sector per cluster.
/// Sectors: 0 boot, 1 FAT, 2 root directory, 3.. cluster area (cluster 2 is
/// sector 3, cluster 3 is sector 4, and so on).
fn small_fat16() -> Vec<u8> {
    let mut v = vec![0u8; 16 * 512];
    v[3..11].copy_from_slice(b"greasy  ");
    v[11..13].copy_from_slice(&512u16.to_le_bytes());
    v[13] = 1; // sectors per cluster
    v[14..16].copy_from_slice(&1u16.to_le_bytes()); // reserved sectors
    v[16] = 1; // one FAT copy
    v[17..19].copy_from_slice(&16u16.to_le_bytes()); // root entries
    v[19..21].copy_from_slice(&16u16.to_le_bytes()); // total sectors
    v[22..24].copy_from_slice(&1u16.to_le_bytes()); // sectors per FAT
    v[54..62].copy_from_slice(b"FAT16   ");
    v
}

fn set_fat16_entry(img: &mut Vec<u8>, cluster: u32, value: u16) {
    let off = 512 + (cluster as usize) * 2;
    img[off..off + 2].copy_from_slice(&value.to_le_bytes());
}

fn put_short(img: &mut Vec<u8>, at: usize, name: &[u8; 11], attributes: u8, start: u16) {
    img[at..at + 11].copy_from_slice(name);
    img[at + 11] = attributes;
    img[at + 26..at + 28].copy_from_slice(&start.to_le_bytes());
}

fn put_lfn(img: &mut Vec<u8>, at: usize, seq: u8, checksum: u8, fragment: &str) {
    img[at] = seq;
    img[at + 11] = 0x0F;
    img[at + 13] = checksum;
    let mut units: Vec<u16> = fragment.encode_utf16().collect();
    assert!(units.len() <= 13);
    if units.len() < 13 {
        units.push(0);
    }
    while units.len() < 13 {
        units.push(0xFFFF);
    }
    let spots: [usize; 13] = [1, 3, 5, 7, 9, 14, 16, 18, 20, 22, 24, 28, 30];
    for (u, pos) in units.iter().zip(spots.iter()) {
        img[at + pos] = (*u & 0xFF) as u8;
        img[at + pos + 1] = (*u >> 8) as u8;
    }
}

fn open_fat16(img: Vec<u8>) -> greasy::fat::Fat16 {
    match Fat::new(img).unwrap() {
        FatVolume::Fat16(f) => f,
        FatVolume::Fat32(_) => panic!("expected FAT16"),
    }
}

const ROOT: usize = 2 * 512;

#[test]
fn walk_halts_at_the_zero_sentinel() {
    let mut img = small_fat16();
    put_short(&mut img, ROOT, b"AAA     TXT", 0x20, 0);
    put_short(&mut img, ROOT + 32, b"BBB     TXT", 0x20, 0);
    // the window at ROOT + 64 stays zero: end of directory
    put_short(&mut img, ROOT + 96, b"CCC     TXT", 0x20, 0);
    let f = open_fat16(img);
    let items = f.tree().unwrap();
    assert_eq!(items.len(), 2);
    assert_eq!(items[0].entry.to_string(), "[AAA     TXT: F]");
    assert_eq!(items[1].entry.to_string(), "[BBB     TXT: F]");
}

#[test]
fn deleted_entries_are_yielded_and_walking_continues() {
    let mut img = small_fat16();
    put_short(&mut img, ROOT, b"\xE5DEL    TXT", 0x20, 0);
    put_short(&mut img, ROOT + 32, b"LIVE    TXT", 0x20, 0);
    let f = open_fat16(img);
    let items = f.tree().unwrap();
    assert_eq!(items.len(), 2);
    assert!(items[0].entry.is_deleted());
    assert!(items[0].entry.to_string().contains("X | "));
    assert!(!items[1].entry.is_deleted());
}

#[test]
fn dot_and_dotdot_are_never_emitted() {
    let mut img = small_fat16();
    put_short(&mut img, ROOT, b".          ", 0x10, 2);
    put_short(&mut img, ROOT + 32, b"..         ", 0x10, 0);
    put_short(&mut img, ROOT + 64, b"REAL    TXT", 0x20, 0);
    set_fat16_entry(&mut img, 2, 0xFFFF);
    let f = open_fat16(img);
    let items = f.tree().unwrap();
    assert_eq!(items.len(), 1);
    assert_eq!(items[0].entry.to_string(), "[REAL    TXT: F]");
}

#[test]
fn lfn_shards_coalesce_onto_their_short_entry() {
    let mut img = small_fat16();
    let cks = Entry::checksum("LONGFI~1TXT");
    put_lfn(&mut img, ROOT, 0x41, cks, "LongFilename.");
    put_lfn(&mut img, ROOT + 32, 0x02, cks, "txt");
    put_short(&mut img, ROOT + 64, b"LONGFI~1TXT", 0x20, 0);
    let f = open_fat16(img);
    let items = f.tree().unwrap();
    assert_eq!(items.len(), 1);
    assert_eq!(items[0].entry.long_name.as_deref(), Some("LongFilename.txt"));
    assert_eq!(items[0].entry.to_string(), "[LongFilename.txt: F]");
}

#[test]
fn subdirectories_are_walked_recursively_in_preorder() {
    let mut img = small_fat16();
    put_short(&mut img, ROOT, b"SUBDIR     ", 0x10, 2);
    put_short(&mut img, ROOT + 32, b"AFTER   TXT", 0x20, 0);
    set_fat16_entry(&mut img, 2, 0xFFFF);
    // cluster 2 lives at sector 3
    let sub = 3 * 512;
    put_short(&mut img, sub, b".          ", 0x10, 2);
    put_short(&mut img, sub + 32, b"..         ", 0x10, 0);
    put_short(&mut img, sub + 64, b"INNER   TXT", 0x20, 0);
    let f = open_fat16(img);
    let items = f.tree().unwrap();
    assert_eq!(items.len(), 3);
    assert_eq!(items[0].entry.to_string(), "[SUBDIR: D]");
    assert_eq!(items[0].depth, 1);
    assert_eq!(items[1].entry.to_string(), "[INNER   TXT: F]");
    assert_eq!(items[1].depth, 2);
    assert_eq!(items[2].entry.to_string(), "[AFTER   TXT: F]");
    assert_eq!(items[2].depth, 1);
}

#[test]
fn file_entries_carry_their_cluster_chain() {
    let mut img = small_fat16();
    put_short(&mut img, ROOT, b"DATA    BIN", 0x20, 2);
    set_fat16_entry(&mut img, 2, 3);
    set_fat16_entry(&mut img, 3, 0xFFFF);
    let f = open_fat16(img);
    let items = f.tree().unwrap();
    assert_eq!(items.len(), 1);
    let chain = items[0].entry.clusters().as_ref().unwrap();
    let nums: Vec<u32> = chain.iter().map(|c| c.0).collect();
    assert_eq!(nums, vec![2, 3]);
}

#[test]
fn a_directory_cycle_is_reported_malformed() {
    let mut img = small_fat16();
    put_short(&mut img, ROOT, b"LOOP       ", 0x10, 2);
    set_fat16_entry(&mut img, 2, 0xFFFF);
    // the subdirectory's only entry is a subdirectory pointing back at the
    // same cluster, with a name that is neither `.` nor `..`
    let sub = 3 * 512;
    put_short(&mut img, sub, b"AGAIN      ", 0x10, 2);
    let f = open_fat16(img);
    assert_eq!(f.tree().err(), Some(FatError::MalformedChain));
}

#[test]
fn fat12_trees_are_unsupported() {
    let mut img = small_fat16();
    img[54..62].copy_from_slice(b"FAT12   ");
    put_short(&mut img, ROOT, b"FILE    TXT", 0x20, 2);
    let f = open_fat16(img);
    assert_eq!(f.tree().err(), Some(FatError::UnsupportedVariant));
}

#[test]
fn fat32_tree_walks_the_root_chain() {
    // Sectors: 0 boot (reserved area of 1), FAT at 1, cluster area at 2.
    let mut v = vec![0u8; 16 * 512];
    v[3..11].copy_from_slice(b"greasy  ");
    v[11..13].copy_from_slice(&512u16.to_le_bytes());
    v[13] = 1;
    v[14..16].copy_from_slice(&1u16.to_le_bytes());
    v[16] = 1;
    v[32..36].copy_from_slice(&16u32.to_le_bytes()); // total sectors
    v[36..40].copy_from_slice(&1u32.to_le_bytes()); // sectors per FAT
    v[44..48].copy_from_slice(&2u32.to_le_bytes()); // root cluster
    v[82..90].copy_from_slice(b"FAT32   ");
    let fat_base = 512;
    let set = |img: &mut Vec<u8>, cluster: usize, value: u32| {
        let off = fat_base + cluster * 4;
        img[off..off + 4].copy_from_slice(&value.to_le_bytes());
    };
    set(&mut v, 2, 0x0FFF_FFFF); // root directory: single cluster
    // cluster 2 is sector 2
    put_short(&mut v, 2 * 512, b"HELLO   TXT", 0x20, 0);
    let f = match Fat::new(v).unwrap() {
        FatVolume::Fat32(f) => f,
        FatVolume::Fat16(_) => panic!("expected FAT32"),
    };
    let items = f.tree().unwrap();
    assert_eq!(items.len(), 1);
    assert_eq!(items[0].entry.to_string(), "[HELLO   TXT: F]");
}

#[test]
fn truncated_root_region_is_reported() {
    // The root directory region claims 16 entries (512 bytes at sector 2),
    // but the image ends before it.
    let mut img = small_fat16();
    img.truncate(2 * 512 + 100);
    let f = open_fat16(img);
    assert_eq!(f.tree().err(), Some(FatError::Truncated));
}

#[test]
fn render_indents_one_unit_per_depth() {
    let mut img = small_fat16();
    put_short(&mut img, ROOT, b"SUBDIR     ", 0x10, 2);
    set_fat16_entry(&mut img, 2, 0xFFFF);
    let sub = 3 * 512;
    put_short(&mut img, sub, b"INNER   TXT", 0x20, 0);
    let f = open_fat16(img);
    let items = f.tree().unwrap();
    let lines = render_tree(&items);
    assert_eq!(lines.len(), 2);
    assert_eq!(lines[0], "*[SUBDIR: D]");
    assert_eq!(lines[1], "**[INNER   TXT: F]");
}

#[test]
fn volume_enum_exposes_info_and_tree() {
    let mut img = small_fat16();
    put_short(&mut img, ROOT, b"ONE     TXT", 0x20, 0);
    let v = Fat::new(img).unwrap();
    let report = v.info();
    assert!(report.contains("File System Type: FAT16"));
    let items = v.tree().unwrap();
    assert_eq!(items.len(), 1);
}
