//! End-to-end tests on a hand-built FAT16 image: opening, root and
//! subdirectory listings, file reads across cluster chains, long filenames,
//! and the error paths.

use fat16::fat16::Fat16;
use fat16::utils::Path;
use fat16::FatError;

const BPS: usize = 512;
const CLUSTER_COUNT: usize = 64;
const FAT_SIZE: usize = 2 * BPS; // two FAT copies of one sector each
const ROOT_ENTRIES: usize = 16;
const DATA_CLUSTERS: usize = 16; // clusters 2..=17

fn le16(v: u16) -> [u8; 2] {
    v.to_le_bytes()
}

fn sfn_slot(name11: &[u8; 11], attr: u8, cluster: u16, size: u32) -> [u8; 32] {
    let mut s = [0u8; 32];
    s[0..11].copy_from_slice(name11);
    s[11] = attr;
    s[13] = 100;
    s[14..16].copy_from_slice(&le16((12 << 11) | (34 << 5) | 28));
    s[16..18].copy_from_slice(&le16((43 << 9) | (7 << 5) | 15));
    s[18..20].copy_from_slice(&le16((43 << 9) | (7 << 5) | 16));
    s[22..24].copy_from_slice(&le16((13 << 11) | (5 << 5) | 1));
    s[24..26].copy_from_slice(&le16((43 << 9) | (8 << 5) | 2));
    s[26..28].copy_from_slice(&le16(cluster));
    s[28..32].copy_from_slice(&size.to_le_bytes());
    s
}

fn lfn_slot(seq: u8, units: &[u16; 13]) -> [u8; 32] {
    let mut s = [0u8; 32];
    s[0] = seq;
    s[11] = 0x0F;
    let offs = [1usize, 3, 5, 7, 9, 14, 16, 18, 20, 22, 24, 28, 30];
    for (u, off) in units.iter().zip(offs.iter()) {
        s[*off..*off + 2].copy_from_slice(&u.to_le_bytes());
    }
    s
}

fn lfn_units(part: &[u16]) -> [u16; 13] {
    let mut u = [0xFFFFu16; 13];
    u[..part.len()].copy_from_slice(part);
    if part.len() < 13 {
        u[part.len()] = 0;
    }
    u
}

fn utf16_of(s: &str) -> Vec<u16> {
    s.encode_utf16().collect()
}

fn lfn_then_sfn(name: &str, name11: &[u8; 11], attr: u8, cluster: u16, size: u32) -> Vec<u8> {
    let units = lfn_units(&utf16_of(name));
    let mut v = Vec::new();
    v.extend_from_slice(&lfn_slot(0x41, &units));
    v.extend_from_slice(&sfn_slot(name11, attr, cluster, size));
    v
}

fn set_cluster(img: &mut Vec<u8>, cluster: usize, data: &[u8]) {
    let base = 512 + FAT_SIZE + ROOT_ENTRIES * 32 + (cluster - 2) * BPS;
    img[base..base + data.len()].copy_from_slice(data);
}

fn set_fat(img: &mut Vec<u8>, cluster: usize, link: u16) {
    let base = 512 + 2 * cluster;
    img[base..base + 2].copy_from_slice(&link.to_le_bytes());
}

/// Builds a small image: three files in the root, a deleted slot, two
/// directory trees (one nested), a multi-cluster file behind a long
/// filename, and a few deliberately broken entries.
fn build_image() -> Vec<u8> {
    let total = 512 + FAT_SIZE + ROOT_ENTRIES * 32 + DATA_CLUSTERS * BPS;
    let mut img = vec![0u8; total];

    // Boot sector.
    img[0..3].copy_from_slice(&[0xEB, 0x3C, 0x90]);
    img[3..11].copy_from_slice(b"MSDOS5.0");
    img[11..13].copy_from_slice(&le16(BPS as u16));
    img[13] = 1; // sectors per cluster
    img[14..16].copy_from_slice(&le16(1));
    img[16] = 2; // FAT copies
    img[17..19].copy_from_slice(&le16(ROOT_ENTRIES as u16));
    img[19..21].copy_from_slice(&le16(CLUSTER_COUNT as u16)); // total sectors
    img[21] = 0xF8;
    img[22..24].copy_from_slice(&le16(1)); // sectors per FAT
    img[24..26].copy_from_slice(&le16(32));
    img[26..28].copy_from_slice(&le16(64));
    img[36] = 0x80;
    img[38] = 0x29;
    img[39..43].copy_from_slice(&0xCAFEBABEu32.to_le_bytes());
    img[43..54].copy_from_slice(b"FAT16IMG   ");
    img[54..62].copy_from_slice(b"FAT16   ");
    img[510] = 0x55;
    img[511] = 0xAA;

    // Allocation table (the second copy stays zeroed; it is skipped).
    set_fat(&mut img, 0, 0xFFF8);
    set_fat(&mut img, 1, 0xFFFF);
    for c in 2..=8 {
        set_fat(&mut img, c, 0xFFFF);
    }
    for c in 9..14 {
        set_fat(&mut img, c, (c + 1) as u16); // 9 -> 10 -> ... -> 14
    }
    set_fat(&mut img, 14, 0xFFFF);
    set_fat(&mut img, 15, 0xFFFF);
    set_fat(&mut img, 16, 0); // free link mid-chain: corrupt
    set_fat(&mut img, 17, 0xFFFF);
    set_fat(&mut img, 60, 0xFFFF);

    // Root directory.
    let mut root = Vec::new();
    root.extend_from_slice(&sfn_slot(b"1       TXT", 0x20, 2, 5));
    let mut deleted = sfn_slot(b"GONE    TXT", 0x20, 3, 5);
    deleted[0] = 0xE5;
    root.extend_from_slice(&deleted);
    root.extend_from_slice(&sfn_slot(b"2       TXT", 0x20, 3, 5));
    root.extend_from_slice(&sfn_slot(b"3       TXT", 0x20, 4, 5));
    root.extend_from_slice(&lfn_then_sfn("test_dir_1", b"TESTDI~1   ", 0x10, 5, 0));
    root.extend_from_slice(&lfn_then_sfn("test_dir_3", b"TESTDI~3   ", 0x10, 7, 0));
    root.extend_from_slice(&sfn_slot(b"EMPTY   TXT", 0x20, 0, 0));
    root.extend_from_slice(&sfn_slot(b"BAD     BIN", 0x20, 60, 10));
    root.extend_from_slice(&sfn_slot(b"CORRUPT BIN", 0x20, 16, 10));
    root.extend_from_slice(&sfn_slot(b"BADDIR     ", 0x10, 17, 0));
    let root_base = 512 + FAT_SIZE;
    img[root_base..root_base + root.len()].copy_from_slice(&root);

    // /1.txt, /2.txt, /3.txt
    set_cluster(&mut img, 2, b"No.1\n");
    set_cluster(&mut img, 3, b"No.2\n");
    set_cluster(&mut img, 4, b"No.3\n");

    // /test_dir_1 holds test_dir_1_1; that holds 2.txt.
    let sub1 = lfn_then_sfn("test_dir_1_1", b"TESTDI~2   ", 0x10, 6, 0);
    set_cluster(&mut img, 5, &sub1);
    let sub11 = sfn_slot(b"2       TXT", 0x20, 8, 9);
    set_cluster(&mut img, 6, &sub11);
    set_cluster(&mut img, 8, b"No.1-1-2\n");

    // /test_dir_3 holds long_1.txt (3000 bytes over clusters 9..=14) and a
    // name long enough for two fragments.
    let mut sub3 = lfn_then_sfn("long_1.txt", b"LONG_1  TXT", 0x20, 9, 3000);
    let all = utf16_of("long_name_file_x.txt");
    sub3.extend_from_slice(&lfn_slot(0x42, &lfn_units(&all[13..])));
    sub3.extend_from_slice(&lfn_slot(0x01, &lfn_units(&all[..13])));
    sub3.extend_from_slice(&sfn_slot(b"LONG_N~1TXT", 0x20, 15, 1));
    set_cluster(&mut img, 7, &sub3);
    for c in 9..=14 {
        set_cluster(&mut img, c, &[0x61u8; BPS]);
    }
    set_cluster(&mut img, 15, b"x");

    // /baddir. holds a long-filename fragment with an unpaired surrogate.
    let mut bad_units = [0xFFFFu16; 13];
    bad_units[0] = 0xD800;
    bad_units[1] = 0;
    let mut bad = Vec::new();
    bad.extend_from_slice(&lfn_slot(0x41, &bad_units));
    bad.extend_from_slice(&sfn_slot(b"BAD     TXT", 0x20, 2, 1));
    set_cluster(&mut img, 17, &bad);

    img
}

#[test]
fn open_reads_boot_blocks() {
    let img = build_image();
    let fs = Fat16::open(&img).unwrap();
    assert_eq!(fs.bpb.x86_jmp, vec![0xEB, 0x3C, 0x90]);
    assert_eq!(fs.bpb.bytes_per_sector, 512);
    assert_eq!(fs.bpb.root_entry_count, 16);
    assert_eq!(fs.ebpb.boot_partition_signature, vec![0x55, 0xAA]);
    assert_eq!(fs.ebpb.volume_id, 0xCAFEBABE);
    assert_eq!(fs.clusters.len(), DATA_CLUSTERS * BPS);
}

#[test]
fn open_rejects_bad_signature() {
    let mut img = build_image();
    img[510] = 0x00;
    assert_eq!(Fat16::open(&img).unwrap_err(), FatError::InvalidSignature);
}

#[test]
fn open_rejects_short_buffer() {
    let img = build_image();
    assert_eq!(Fat16::open(&img[..300]).unwrap_err(), FatError::ShortBuffer);
    assert_eq!(Fat16::open(&img[..600]).unwrap_err(), FatError::ShortBuffer);
    // One byte short of boot sector + FAT region + root directory.
    let needed = 512 + FAT_SIZE + ROOT_ENTRIES * 32;
    assert_eq!(Fat16::open(&img[..needed - 1]).unwrap_err(), FatError::ShortBuffer);
    // Exactly that length opens (with an empty cluster region).
    assert!(Fat16::open(&img[..needed]).is_ok());
}

#[test]
fn root_listing_returns_created_files() {
    let img = build_image();
    let fs = Fat16::open(&img).unwrap();
    let entries = fs.read_directory(&Path::new("/")).unwrap();
    assert!(entries.len() >= 3);
    let names: Vec<String> = entries.iter().map(|e| e.name.to_ascii_lowercase()).collect();
    for expect in ["1.txt", "2.txt", "3.txt"] {
        let i = names.iter().position(|n| n == expect).unwrap();
        assert_eq!(entries[i].file_size, 5);
        assert_eq!(entries[i].attribute & 0x20, 0x20);
    }
}

#[test]
fn read_file_returns_exact_bytes() {
    let img = build_image();
    let fs = Fat16::open(&img).unwrap();
    let data = fs.read_file(&Path::new("/1.txt")).unwrap();
    assert_eq!(data, vec![0x4E, 0x6F, 0x2E, 0x31, 0x0A]);
}

#[test]
fn nested_directories_resolve() {
    let img = build_image();
    let fs = Fat16::open(&img).unwrap();
    let outer = fs.read_directory(&Path::new("/test_dir_1")).unwrap();
    assert!(outer.iter().any(|e| e.name == "test_dir_1_1"));
    let inner = fs.read_directory(&Path::new("/test_dir_1/test_dir_1_1")).unwrap();
    assert!(inner.iter().any(|e| e.name == "2.TXT"));
    let data = fs.read_file(&Path::new("/test_dir_1/test_dir_1_1/2.txt")).unwrap();
    assert_eq!(data.len(), 9);
    assert_eq!(data, b"No.1-1-2\n".to_vec());
}

#[test]
fn multi_cluster_file_reads_whole_chain() {
    let img = build_image();
    let fs = Fat16::open(&img).unwrap();
    let data = fs.read_file(&Path::new("/test_dir_3/long_1.txt")).unwrap();
    assert_eq!(data.len(), 3000);
    assert!(data.iter().all(|b| *b == 0x61));
}

#[test]
fn lfn_name_round_trips_through_lookup() {
    let img = build_image();
    let fs = Fat16::open(&img).unwrap();
    let entries = fs.read_directory(&Path::new("/test_dir_3")).unwrap();
    assert!(entries.iter().any(|e| e.name == "long_1.txt"));
    assert!(entries.iter().any(|e| e.name == "long_name_file_x.txt"));
    // A path folded differently still matches the long name.
    let data = fs.read_file(&Path::new("/TEST_DIR_3/Long_Name_File_X.TXT")).unwrap();
    assert_eq!(data, b"x".to_vec());
}

#[test]
fn lfn_names_hold_no_nul_and_no_padding() {
    let img = build_image();
    let fs = Fat16::open(&img).unwrap();
    let entries = fs.read_directory(&Path::new("/test_dir_3")).unwrap();
    for e in &entries {
        assert!(e.name.chars().all(|c| c != '\u{0}' && c != '\u{FFFF}'));
    }
}

#[test]
fn lookup_of_missing_file_is_not_found() {
    let img = build_image();
    let fs = Fat16::open(&img).unwrap();
    assert_eq!(fs.read_file(&Path::new("/NoSuch.txt")).unwrap_err(), FatError::NotFound);
    assert_eq!(
        fs.read_directory(&Path::new("/no/such/dir")).unwrap_err(),
        FatError::NotFound
    );
}

#[test]
fn deleted_slot_is_skipped_but_neighbours_kept() {
    let img = build_image();
    let fs = Fat16::open(&img).unwrap();
    let entries = fs.read_directory(&Path::new("/")).unwrap();
    let names: Vec<String> = entries.iter().map(|e| e.name.to_ascii_lowercase()).collect();
    assert!(names.contains(&"1.txt".to_string()));
    assert!(names.contains(&"2.txt".to_string()));
    assert!(!names.contains(&"gone.txt".to_string()));
}

#[test]
fn returned_first_clusters_are_zero_or_in_range() {
    let img = build_image();
    let fs = Fat16::open(&img).unwrap();
    let mut listings = vec![fs.read_directory(&Path::new("/")).unwrap()];
    listings.push(fs.read_directory(&Path::new("/test_dir_1")).unwrap());
    listings.push(fs.read_directory(&Path::new("/test_dir_1/test_dir_1_1")).unwrap());
    listings.push(fs.read_directory(&Path::new("/test_dir_3")).unwrap());
    for entries in &listings {
        for e in entries {
            assert!(
                e.first_cluster == 0
                    || (2 <= e.first_cluster && (e.first_cluster as usize) < CLUSTER_COUNT)
            );
        }
    }
}

#[test]
fn read_file_length_equals_file_size() {
    let img = build_image();
    let fs = Fat16::open(&img).unwrap();
    for (path, size) in [
        ("/1.txt", 5usize),
        ("/2.txt", 5),
        ("/3.txt", 5),
        ("/empty.txt", 0),
        ("/test_dir_1/test_dir_1_1/2.txt", 9),
        ("/test_dir_3/long_1.txt", 3000),
        ("/test_dir_3/long_name_file_x.txt", 1),
    ] {
        let data = fs.read_file(&Path::new(path)).unwrap();
        assert_eq!(data.len(), size);
    }
}

#[test]
fn read_file_on_directory_is_not_a_file() {
    let img = build_image();
    let fs = Fat16::open(&img).unwrap();
    assert_eq!(fs.read_file(&Path::new("/test_dir_1")).unwrap_err(), FatError::NotAFile);
}

#[test]
fn read_directory_on_file_is_not_a_directory() {
    let img = build_image();
    let fs = Fat16::open(&img).unwrap();
    assert_eq!(
        fs.read_directory(&Path::new("/1.txt")).unwrap_err(),
        FatError::NotADirectory
    );
}

#[test]
fn cluster_beyond_region_is_out_of_range() {
    let img = build_image();
    let fs = Fat16::open(&img).unwrap();
    assert_eq!(
        fs.read_file(&Path::new("/bad.bin")).unwrap_err(),
        FatError::ClusterOutOfRange
    );
}

#[test]
fn free_link_mid_chain_is_corrupt() {
    let img = build_image();
    let fs = Fat16::open(&img).unwrap();
    assert_eq!(
        fs.read_file(&Path::new("/corrupt.bin")).unwrap_err(),
        FatError::CorruptChain
    );
}

#[test]
fn invalid_utf16_in_listing_is_encoding_error() {
    let img = build_image();
    let fs = Fat16::open(&img).unwrap();
    // The short name of a directory with no extension keeps its trailing dot.
    assert_eq!(
        fs.read_directory(&Path::new("/baddir.")).unwrap_err(),
        FatError::EncodingError
    );
}

#[test]
fn trailing_slash_is_not_found() {
    let img = build_image();
    let fs = Fat16::open(&img).unwrap();
    assert_eq!(
        fs.read_directory(&Path::new("/test_dir_1/")).unwrap_err(),
        FatError::NotFound
    );
}
