use greasy::fat::{Cluster, Fat, FatError, FatType, FatVolume};

/// A boot sector (plus as much of the volume as `total_len` asks for) with
/// the FAT12/16 layout: the 16-bit sectors-per-FAT word is non-zero.
fn fat16_image(
    total_len: usize,
    bps: u16,
    spc: u8,
    count: u8,
    reserved: u16,
    fts: u16,
    tre: u16,
    ts16: u16,
    label: &[u8; 8],
) -> Vec<u8> {
    let mut v = vec![0u8; total_len];
    v[3..11].copy_from_slice(b"greasy  ");
    v[11..13].copy_from_slice(&bps.to_le_bytes());
    v[13] = spc;
    v[14..16].copy_from_slice(&reserved.to_le_bytes());
    v[16] = count;
    v[17..19].copy_from_slice(&tre.to_le_bytes());
    v[19..21].copy_from_slice(&ts16.to_le_bytes());
    v[22..24].copy_from_slice(&fts.to_le_bytes());
    v[54..62].copy_from_slice(label);
    v
}

fn fat32_image(
    total_len: usize,
    bps: u16,
    spc: u8,
    count: u8,
    reserved: u16,
    fts32: u32,
    ts32: u32,
    root_cluster: u32,
    label: &[u8; 8],
) -> Vec<u8> {
    let mut v = vec![0u8; total_len];
    v[3..11].copy_from_slice(b"greasy  ");
    v[11..13].copy_from_slice(&bps.to_le_bytes());
    v[13] = spc;
    v[14..16].copy_from_slice(&reserved.to_le_bytes());
    v[16] = count;
    // offsets 17..19 (root entries), 19..21 (16-bit total) and 22..24
    // (16-bit sectors per FAT) stay zero: the 32-bit fields carry the truth.
    v[32..36].copy_from_slice(&ts32.to_le_bytes());
    v[36..40].copy_from_slice(&fts32.to_le_bytes());
    v[44..48].copy_from_slice(&root_cluster.to_le_bytes());
    v[82..90].copy_from_slice(label);
    v
}

#[test]
fn fat16_geometry_from_boot_sector() {
    let img = fat16_image(512, 512, 4, 2, 1, 32, 512, 20000, b"FAT16   ");
    let v = Fat::new(img).unwrap();
    let f = match v {
        FatVolume::Fat16(f) => f,
        FatVolume::Fat32(_) => panic!("expected the FAT16 variant"),
    };
    assert_eq!(f.fat.fat_type, FatType::Fat16);
    assert_eq!(f.fat.fat_table_entry_size, 16);
    assert_eq!(f.fat.start_fat_area.0, 1);
    assert_eq!(f.fat.sectors_fat_area, 64);
    assert_eq!(f.fat.start_data_area.0, 65);
    assert_eq!(f.fat.start_root_dir.0, 65);
    assert_eq!(f.fat.start_cluster_area.0, 97);
    assert_eq!(f.fat.total_clusters, 4976);
    assert_eq!(f.fat.total_sectors, 20000);
    assert_eq!(f.total_root_entries, 512);
    assert_eq!(f.fat.oem, "greasy");
}

#[test]
fn fat32_geometry_uses_the_32_bit_escapes() {
    let img = fat32_image(512, 512, 8, 2, 32, 500, 1_048_576, 2, b"FAT32   ");
    let v = Fat::new(img).unwrap();
    let f = match v {
        FatVolume::Fat32(f) => f,
        FatVolume::Fat16(_) => panic!("expected the FAT32 variant"),
    };
    assert_eq!(f.fat.fat_type, FatType::Fat32);
    assert_eq!(f.fat.fat_table_entry_size, 32);
    assert_eq!(f.fat.fat_table_sectors, 500);
    assert_eq!(f.fat.total_sectors, 1_048_576);
    assert_eq!(f.fat.start_cluster_area.0, f.fat.start_data_area.0);
    assert_eq!(f.fat.start_root_dir.0, f.fat.start_cluster_area.0);
    assert_eq!(f.root_clusters.len(), 1);
    assert_eq!(f.root_clusters[0].0, 2);
}

#[test]
fn fat12_label_is_recognized() {
    let img = fat16_image(512, 512, 4, 2, 1, 32, 512, 20000, b"FAT12   ");
    let v = Fat::new(img).unwrap();
    let f = match v {
        FatVolume::Fat16(f) => f,
        FatVolume::Fat32(_) => panic!("expected the fixed-root variant"),
    };
    assert_eq!(f.fat.fat_type, FatType::Fat12);
    assert_eq!(f.fat.fat_table_entry_size, 12);
}

#[test]
fn truncated_image_is_rejected() {
    assert_eq!(Fat::new(vec![0u8; 10]).err(), Some(FatError::Truncated));
    // FAT12/16 layout needs the label at 54..62.
    let mut v = vec![0u8; 40];
    v[22] = 1;
    assert_eq!(Fat::new(v).err(), Some(FatError::Truncated));
    // FAT32 layout needs the label at 82..90.
    assert_eq!(Fat::new(vec![0u8; 80]).err(), Some(FatError::Truncated));
}

#[test]
fn unrecognized_label_is_rejected() {
    let img = fat16_image(512, 512, 4, 2, 1, 32, 512, 20000, b"NTFS    ");
    assert_eq!(Fat::new(img).err(), Some(FatError::UnrecognizedVariant));
}

#[test]
fn zero_geometry_fields_are_rejected() {
    let img = fat16_image(512, 0, 4, 2, 1, 32, 512, 20000, b"FAT16   ");
    assert_eq!(Fat::new(img).err(), Some(FatError::InvalidGeometry));
    let img = fat16_image(512, 512, 0, 2, 1, 32, 512, 20000, b"FAT16   ");
    assert_eq!(Fat::new(img).err(), Some(FatError::InvalidGeometry));
    let img = fat16_image(512, 512, 4, 2, 0, 32, 512, 20000, b"FAT16   ");
    assert_eq!(Fat::new(img).err(), Some(FatError::InvalidGeometry));
}

#[test]
fn cluster_area_past_the_volume_is_rejected() {
    // 2 x 32 FAT sectors + reserved sector put the cluster area at 97,
    // past the 50 sectors the volume claims to have.
    let img = fat16_image(512, 512, 4, 2, 1, 32, 512, 50, b"FAT16   ");
    assert_eq!(Fat::new(img).err(), Some(FatError::InvalidGeometry));
}

/// A small FAT16 volume: one reserved sector, one FAT sector, a 16-entry
/// root directory (one sector), 512-byte sectors, one sector per cluster.
/// Sectors: 0 boot, 1 FAT, 2 root directory, 3.. cluster area.
fn small_fat16() -> Vec<u8> {
    fat16_image(16 * 512, 512, 1, 1, 1, 1, 16, 16, b"FAT16   ")
}

fn set_fat16_entry(img: &mut Vec<u8>, cluster: u32, value: u16) {
    let off = 512 + (cluster as usize) * 2;
    img[off..off + 2].copy_from_slice(&value.to_le_bytes());
}

#[test]
fn cluster_chain_follows_links_to_eof() {
    let mut img = small_fat16();
    set_fat16_entry(&mut img, 2, 3);
    set_fat16_entry(&mut img, 3, 4);
    set_fat16_entry(&mut img, 4, 0xFFFF);
    let v = Fat::new(img).unwrap();
    let f = match v {
        FatVolume::Fat16(f) => f,
        _ => panic!("expected FAT16"),
    };
    let chain = f.fat.get_cluster_chain(&Cluster(2)).unwrap();
    let nums: Vec<u32> = chain.iter().map(|c| c.0).collect();
    assert_eq!(nums, vec![2, 3, 4]);
}

#[test]
fn cluster_chain_of_a_free_start_is_empty() {
    let img = small_fat16();
    let v = Fat::new(img).unwrap();
    let f = match v {
        FatVolume::Fat16(f) => f,
        _ => panic!("expected FAT16"),
    };
    let chain = f.fat.get_cluster_chain(&Cluster(0)).unwrap();
    assert!(chain.is_empty());
}

#[test]
fn cluster_chain_stops_at_bad_cluster_marker() {
    let mut img = small_fat16();
    set_fat16_entry(&mut img, 2, 0xFFF7);
    let v = Fat::new(img).unwrap();
    let f = match v {
        FatVolume::Fat16(f) => f,
        _ => panic!("expected FAT16"),
    };
    let chain = f.fat.get_cluster_chain(&Cluster(2)).unwrap();
    let nums: Vec<u32> = chain.iter().map(|c| c.0).collect();
    assert_eq!(nums, vec![2]);
}

#[test]
fn cyclic_chain_is_reported_malformed() {
    let mut img = small_fat16();
    set_fat16_entry(&mut img, 2, 3);
    set_fat16_entry(&mut img, 3, 2);
    let v = Fat::new(img).unwrap();
    let f = match v {
        FatVolume::Fat16(f) => f,
        _ => panic!("expected FAT16"),
    };
    assert_eq!(f.fat.get_cluster_chain(&Cluster(2)).err(), Some(FatError::MalformedChain));
}

#[test]
fn chain_link_to_reserved_cluster_is_malformed() {
    let mut img = small_fat16();
    set_fat16_entry(&mut img, 2, 1);
    let v = Fat::new(img).unwrap();
    let f = match v {
        FatVolume::Fat16(f) => f,
        _ => panic!("expected FAT16"),
    };
    assert_eq!(f.fat.get_cluster_chain(&Cluster(2)).err(), Some(FatError::MalformedChain));
}

#[test]
fn fat12_chain_walks_are_unsupported() {
    let img = fat16_image(16 * 512, 512, 1, 1, 1, 1, 16, 16, b"FAT12   ");
    let v = Fat::new(img).unwrap();
    let f = match v {
        FatVolume::Fat16(f) => f,
        _ => panic!("expected the fixed-root variant"),
    };
    assert_eq!(
        f.fat.get_cluster_chain(&Cluster(2)).err(),
        Some(FatError::UnsupportedVariant)
    );
}

#[test]
fn fat32_chain_masks_the_high_four_bits_and_ends_in_the_eof_range() {
    // Sectors: 0..32 reserved, FAT at 32 (one sector), cluster area at 33.
    let mut img = fat32_image(64 * 512, 512, 1, 1, 32, 1, 64, 2, b"FAT32   ");
    let fat_base = 32 * 512;
    let set = |img: &mut Vec<u8>, cluster: usize, value: u32| {
        let off = fat_base + cluster * 4;
        img[off..off + 4].copy_from_slice(&value.to_le_bytes());
    };
    // High nibbles must be ignored; 0x0FFFFFF8 is an EOF sentinel even
    // though it is not 0x0FFFFFFF.
    set(&mut img, 2, 0xF000_0003);
    set(&mut img, 3, 0x0FFF_FFF8);
    let v = Fat::new(img).unwrap();
    let f = match v {
        FatVolume::Fat32(f) => f,
        _ => panic!("expected FAT32"),
    };
    let chain = f.fat.get_cluster_chain(&Cluster(2)).unwrap();
    let nums: Vec<u32> = chain.iter().map(|c| c.0).collect();
    assert_eq!(nums, vec![2, 3]);
}

#[test]
fn fat_table_offset_and_cluster_offsets() {
    let img = fat16_image(512, 512, 4, 2, 1, 32, 512, 20000, b"FAT16   ");
    let v = Fat::new(img).unwrap();
    let f = match v {
        FatVolume::Fat16(f) => f,
        _ => panic!("expected FAT16"),
    };
    assert_eq!(f.fat.fat_table_offset(&Cluster(2)), 1 * 512 + 2 * 2);
    let offs = f.fat.clusters_to_offsets(&vec![Cluster(2), Cluster(3)]);
    assert_eq!(offs, vec![97 * 512, 101 * 512]);
}

#[test]
fn info_reports_every_documented_field() {
    let mut img = fat16_image(512, 512, 4, 2, 1, 32, 512, 20000, b"FAT16   ");
    img[39..43].copy_from_slice(&0xCAFE_F00Du32.to_le_bytes());
    img[43..54].copy_from_slice(b"MYLABEL    ");
    let v = Fat::new(img).unwrap();
    let f = match v {
        FatVolume::Fat16(f) => f,
        _ => panic!("expected FAT16"),
    };
    let report = f.fat.info();
    assert!(report.contains("File System Type: FAT16"));
    assert!(report.contains("OEM Name: greasy"));
    assert!(report.contains(&format!("Volume ID: {}", 0xCAFE_F00Du32)));
    assert!(report.contains("Volume Label (Boot Sector): MYLABEL"));
    assert!(report.contains("File System Type Label: FAT16"));
    assert!(report.contains("Sector Size (in bytes): 512"));
    assert!(report.contains("Cluster Size (in bytes): 2048"));
    assert!(report.contains("Cluster Range: 2 - 4976"));
    assert!(report.contains("Total Sector Range: 0 - 19999"));
    assert!(report.contains("Reserved: 0 - 0"));
    assert!(report.contains("FAT 0: 1 - 32"));
    assert!(report.contains("FAT 1: 33 - 64"));
    assert!(report.contains("Data Area: 65 - 19999"));
    assert!(report.contains("Root: 65 - 96"));
    assert!(report.contains("Cluster Area: 97 - 19999"));
}

#[test]
fn info_renders_the_exact_report() {
    let img = fat16_image(512, 512, 4, 2, 1, 32, 512, 20000, b"FAT16   ");
    let v = Fat::new(img).unwrap();
    let f = match v {
        FatVolume::Fat16(f) => f,
        _ => panic!("expected FAT16"),
    };
    let expected = "FILE SYSTEM INFORMATION\n\
        --------------------------------\n\
        File System Type: FAT16\n\
        OEM Name: greasy\n\
        Volume ID: 0\n\
        Volume Label (Boot Sector): \n\
        File System Type Label: FAT16\n\
        \n\
        Size\n\
        --------------------------------\n\
        Sector Size (in bytes): 512\n\
        Cluster Size (in bytes): 2048\n\
        Cluster Range: 2 - 4976\n\
        \n\
        File System Layout (in sectors)\n\
        --------------------------------\n\
        Total Sector Range: 0 - 19999\n\
        |- Reserved: 0 - 0\n\
        |  \u{2514}\u{2500} Boot Sector: 0\n\
        |- FAT 0: 1 - 32\n\
        |- FAT 1: 33 - 64\n\
        \u{2514}\u{2500} Data Area: 65 - 19999\n    \
        |- Root: 65 - 96\n    \
        \u{2514}\u{2500} Cluster Area: 97 - 19999\n";
    assert_eq!(f.fat.info(), expected);
}

#[test]
fn fat32_info_shows_the_root_inside_the_cluster_area() {
    let img = fat32_image(512, 512, 8, 2, 32, 500, 1_048_576, 2, b"FAT32   ");
    let v = Fat::new(img).unwrap();
    let f = match v {
        FatVolume::Fat32(f) => f,
        _ => panic!("expected FAT32"),
    };
    let report = f.fat.info();
    assert!(report.contains("File System Type: FAT32"));
    assert!(report.contains("Root: 1032"));
}
