use greasy::fat::Cluster;
use greasy::fat_entry::{Entry, LFNEntry};

fn short_window(name: &[u8; 11], attributes: u8, first_byte_override: Option<u8>) -> Vec<u8> {
    let mut w = vec![0u8; 32];
    w[..11].copy_from_slice(name);
    if let Some(b) = first_byte_override {
        w[0] = b;
    }
    w[11] = attributes;
    w
}

#[test]
fn checksum_reference_values() {
    assert_eq!(8, Entry::checksum("Alice      "));
    assert_eq!(163, Entry::checksum("WORK       "));
}

#[test]
fn checksum_is_idempotent_and_depends_on_bytes_alone() {
    let a = Entry::checksum("LONGFI~1TXT");
    let b = Entry::checksum("LONGFI~1TXT");
    assert_eq!(a, b);
    let other = String::from("LONGFI~1TXT");
    assert_eq!(a, Entry::checksum(&other));
}

#[test]
fn short_entry_decodes_fields() {
    let mut w = short_window(b"HELLO   TXT", 0x20, None);
    w[13] = 7; // creation tenths
    w[14] = 0x34;
    w[15] = 0x12; // creation hms
    w[16] = 0x78;
    w[17] = 0x56; // creation day
    w[18] = 0xBC;
    w[19] = 0x9A; // access day
    w[22] = 0x21;
    w[23] = 0x43; // written hms
    w[24] = 0x65;
    w[25] = 0x87; // written day
    w[26] = 0x05;
    w[27] = 0x00; // start cluster low
    w[28] = 0xD2;
    w[29] = 0x02;
    w[30] = 0x96;
    w[31] = 0x49; // size 1234567890
    let e = Entry::new(&w);
    assert_eq!(e.name, b"HELLO   TXT".to_vec());
    assert_eq!(e.attributes, 0x20);
    assert_eq!(e.creat_tos, 7);
    assert_eq!(e.creat_hms, 0x1234);
    assert_eq!(e.creat_day, 0x5678);
    assert_eq!(e.access_day, 0x9ABC);
    assert_eq!(e.written_hms, 0x4321);
    assert_eq!(e.written_day, 0x8765);
    assert_eq!(e.start().0, 5);
    assert_eq!(e.size, 1234567890);
    assert_eq!(e.checksum, Entry::checksum("HELLO   TXT"));
    assert!(!e.is_deleted());
    assert!(e.clusters().is_none());
}

#[test]
fn first_cluster_high_bits_are_reconstructed() {
    let mut w = short_window(b"BIG     BIN", 0x20, None);
    w[20] = 0x01;
    w[21] = 0x00; // high 16 bits = 1
    w[26] = 0x02;
    w[27] = 0x00; // low 16 bits = 2
    let e = Entry::new(&w);
    assert_eq!(e.start().0, 0x0001_0002);
}

#[test]
fn deleted_marker_is_byte_e5() {
    let w = short_window(b"GONE    TXT", 0x20, Some(0xE5));
    let e = Entry::new(&w);
    assert!(e.is_deleted());
    let kept = short_window(b"KEPT    TXT", 0x20, None);
    assert!(!Entry::new(&kept).is_deleted());
}

#[test]
fn attribute_classifiers() {
    let vol = Entry::new(&short_window(b"MYVOLUME   ", 0x08, None));
    assert!(vol.is_disk_volume_entry());
    assert!(!vol.is_subdir_entry());
    let dir = Entry::new(&short_window(b"SUBDIR     ", 0x10, None));
    assert!(dir.is_subdir_entry());
    assert!(!dir.is_disk_volume_entry());
}

#[test]
fn dot_and_dotdot_are_recognized() {
    let dot = Entry::new(&short_window(b".          ", 0x10, None));
    assert!(dot.is_this_entry());
    assert!(!dot.is_prev_entry());
    let dotdot = Entry::new(&short_window(b"..         ", 0x10, None));
    assert!(dotdot.is_prev_entry());
    assert!(!dotdot.is_this_entry());
    let plain = Entry::new(&short_window(b"FILE       ", 0x20, None));
    assert!(!plain.is_this_entry());
    assert!(!plain.is_prev_entry());
}

#[test]
fn to_string_formats_the_entry() {
    let file = Entry::new(&short_window(b"FOO     TXT", 0x20, None));
    assert_eq!(file.to_string(), "[FOO     TXT: F]");
    let dir = Entry::new(&short_window(b"DIR        ", 0x10, None));
    assert_eq!(dir.to_string(), "[DIR: D]");
    let vol = Entry::new(&short_window(b"LABEL      ", 0x08, None));
    assert_eq!(vol.to_string(), "[LABEL: V]");
    let deleted = Entry::new(&short_window(b"\xE5ONE    TXT", 0x20, None));
    assert!(deleted.to_string().ends_with(": X | F]"));
}

fn lfn_window(seq: u8, checksum: u8, fragment: &str) -> Vec<u8> {
    let mut w = vec![0u8; 32];
    w[0] = seq;
    w[11] = 0x0F;
    w[13] = checksum;
    let mut units: Vec<u16> = fragment.encode_utf16().collect();
    assert!(units.len() <= 13);
    if units.len() < 13 {
        units.push(0);
    }
    while units.len() < 13 {
        units.push(0xFFFF);
    }
    let spots: [usize; 13] = [1, 3, 5, 7, 9, 14, 16, 18, 20, 22, 24, 28, 30];
    for (u, pos) in units.iter().zip(spots.iter()) {
        w[*pos] = (*u & 0xFF) as u8;
        w[pos + 1] = (*u >> 8) as u8;
    }
    w
}

#[test]
fn lfn_shard_decodes() {
    let w = lfn_window(0x41, 0x5A, "LongFilename.");
    let l = LFNEntry::new(&w);
    assert_eq!(l.sequence_number, 0x41);
    assert_eq!(l.checksum(), 0x5A);
    assert_eq!(l.filename, "LongFilename.");
}

#[test]
fn lfn_shard_stops_at_terminator_and_padding() {
    let w = lfn_window(0x02, 0x5A, "txt");
    let l = LFNEntry::new(&w);
    assert_eq!(l.filename, "txt");
}

#[test]
fn lfn_attribute_test() {
    assert!(LFNEntry::is_lfn_entry(0x0F));
    assert!(!LFNEntry::is_lfn_entry(0x20));
    assert!(!LFNEntry::is_lfn_entry(0x08));
}

#[test]
fn add_lfn_orders_shards_by_masked_sequence_number() {
    let cks = Entry::checksum("LONGFI~1TXT");
    let shards = vec![
        LFNEntry::new(&lfn_window(0x41, cks, "LongFilename.")),
        LFNEntry::new(&lfn_window(0x02, cks, "txt")),
    ];
    let mut e = Entry::new(&short_window(b"LONGFI~1TXT", 0x20, None));
    e.add_lfn(&shards);
    assert_eq!(e.long_name.as_deref(), Some("LongFilename.txt"));
    assert_eq!(e.to_string(), "[LongFilename.txt: F]");
}

#[test]
fn add_lfn_with_no_matching_shard_leaves_entry_alone() {
    let shards = vec![LFNEntry::new(&lfn_window(0x01, 0x99, "nope"))];
    let mut e = Entry::new(&short_window(b"PLAIN   TXT", 0x20, None));
    let cks = e.checksum;
    assert_ne!(cks, 0x99);
    e.add_lfn(&shards);
    assert!(e.long_name.is_none());
}

#[test]
fn add_clusters_attaches_the_chain() {
    let mut e = Entry::new(&short_window(b"DATA    BIN", 0x20, None));
    e.add_clusters(vec![Cluster(2), Cluster(3)]);
    let c = e.clusters().as_ref().unwrap();
    assert_eq!(c.len(), 2);
    assert_eq!(c[0].0, 2);
    assert_eq!(c[1].0, 3);
}
