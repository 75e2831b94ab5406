//! Unit tests for the field decoders: dates, times, paths, the BPB and
//! extended BPB, the allocation table, and the directory-entry parser.

use fat16::fat::{FatBPB, FatDate, FatDirEntry, FatTime};
use fat16::fat16::{Fat16AllocTable, Fat16EBPB};
use fat16::utils::Path;
use fat16::FatError;

fn le16(v: u16) -> [u8; 2] {
    v.to_le_bytes()
}

#[test]
fn date_from_packed_decodes_fields() {
    // 2023-07-15: year offset 43, month 7, day 15.
    let v: u16 = (43 << 9) | (7 << 5) | 15;
    let d = FatDate::from_packed(v);
    assert_eq!(d.year, 2023);
    assert_eq!(d.month, 7);
    assert_eq!(d.day, 15);
}

#[test]
fn date_pack_round_trip() {
    for v in [0u16, 1, (43 << 9) | (7 << 5) | 15, 0x56EF, 0xFFFF, 0x8000, 0x1234] {
        let d = FatDate::from_packed(v);
        assert_eq!(d.pack(), v);
    }
}

#[test]
fn time_from_packed_decodes_fields() {
    // 12:34:56 stores the second halved.
    let v: u16 = (12 << 11) | (34 << 5) | 28;
    let t = FatTime::from_packed(v, 123);
    assert_eq!(t.hour, 12);
    assert_eq!(t.minute, 34);
    assert_eq!(t.second, 56);
    assert_eq!(t.tenths_of_second, 123);
}

#[test]
fn path_parse_lowercases_and_splits() {
    let p = Path::new("/Test_Dir_1/FILE.TXT");
    let segs = p.parse();
    assert_eq!(segs, vec!["test_dir_1".to_string(), "file.txt".to_string()]);
}

#[test]
fn path_parse_trailing_slash_gives_empty_segment() {
    let p = Path::new("/a/");
    let segs = p.parse();
    assert_eq!(segs, vec!["a".to_string(), "".to_string()]);
}

#[test]
fn path_parse_root_gives_one_empty_segment() {
    let p = Path::new("/");
    assert_eq!(p.parse(), vec!["".to_string()]);
}

#[test]
fn path_parse_relative_gives_no_segments() {
    let p = Path::new("no_leading_slash");
    assert_eq!(p.parse(), Vec::<String>::new());
}

fn boot_sector_bytes() -> Vec<u8> {
    let mut b = vec![0u8; 36];
    b[0..3].copy_from_slice(&[0xEB, 0x3C, 0x90]);
    b[3..11].copy_from_slice(b"MSDOS5.0");
    b[11..13].copy_from_slice(&le16(512));
    b[13] = 4; // sectors per cluster
    b[14..16].copy_from_slice(&le16(1));
    b[16] = 2;
    b[17..19].copy_from_slice(&le16(512));
    b[19..21].copy_from_slice(&le16(40960));
    b[21] = 0xF8;
    b[22..24].copy_from_slice(&le16(40));
    b[24..26].copy_from_slice(&le16(32));
    b[26..28].copy_from_slice(&le16(64));
    b[28..32].copy_from_slice(&1234u32.to_le_bytes());
    b[32..36].copy_from_slice(&0u32.to_le_bytes());
    b
}

#[test]
fn bpb_parse_reads_every_field() {
    let mut b = boot_sector_bytes();
    b.extend_from_slice(&[0xAB; 10]);
    let (bpb, rest) = FatBPB::parse(&b).unwrap();
    assert_eq!(bpb.x86_jmp, vec![0xEB, 0x3C, 0x90]);
    assert_eq!(bpb.oem_name, b"MSDOS5.0".to_vec());
    assert_eq!(bpb.bytes_per_sector, 512);
    assert_eq!(bpb.sectors_per_cluster, 4);
    assert_eq!(bpb.reserved_sector_count, 1);
    assert_eq!(bpb.num_fats, 2);
    assert_eq!(bpb.root_entry_count, 512);
    assert_eq!(bpb.total_sectors, 40960);
    assert_eq!(bpb.media, 0xF8);
    assert_eq!(bpb.sectors_per_fat, 40);
    assert_eq!(bpb.sectors_per_track, 32);
    assert_eq!(bpb.num_heads, 64);
    assert_eq!(bpb.hidden_sectors, 1234);
    assert_eq!(bpb.large_sectors, 0);
    assert_eq!(rest, &[0xAB; 10]);
}

#[test]
fn bpb_parse_short_buffer() {
    assert_eq!(FatBPB::parse(&[0u8; 35]).unwrap_err(), FatError::ShortBuffer);
}

#[test]
fn ebpb_parse_reads_signature() {
    let mut b = vec![0u8; 476];
    b[0] = 0x80;
    b[2] = 0x29;
    b[3..7].copy_from_slice(&0xCAFEBABEu32.to_le_bytes());
    b[7..18].copy_from_slice(b"FAT16IMG   ");
    b[18..26].copy_from_slice(b"FAT16   ");
    b[474] = 0x55;
    b[475] = 0xAA;
    let (e, rest) = Fat16EBPB::parse(&b).unwrap();
    assert_eq!(e.drive_number, 0x80);
    assert_eq!(e.boot_signature, 0x29);
    assert_eq!(e.volume_id, 0xCAFEBABE);
    assert_eq!(e.volume_label, b"FAT16IMG   ".to_vec());
    assert_eq!(e.file_system_type, b"FAT16   ".to_vec());
    assert_eq!(e.boot_partition_signature, vec![0x55, 0xAA]);
    assert!(rest.is_empty());
}

#[test]
fn ebpb_parse_short_buffer() {
    assert_eq!(Fat16EBPB::parse(&[0u8; 475]).unwrap_err(), FatError::ShortBuffer);
}

fn tiny_bpb() -> FatBPB {
    // 8 clusters of one 512-byte sector, one FAT copy of one sector.
    FatBPB {
        x86_jmp: vec![0xEB, 0x3C, 0x90],
        oem_name: b"MSDOS5.0".to_vec(),
        bytes_per_sector: 512,
        sectors_per_cluster: 1,
        reserved_sector_count: 1,
        num_fats: 1,
        root_entry_count: 16,
        total_sectors: 8,
        media: 0xF8,
        sectors_per_fat: 1,
        sectors_per_track: 32,
        num_heads: 64,
        hidden_sectors: 0,
        large_sectors: 0,
    }
}

#[test]
fn alloc_table_parse_and_chain() {
    let bpb = tiny_bpb();
    let mut fat = vec![0u8; 512];
    let links: [u16; 8] = [0xFFF8, 0xFFFF, 3, 4, 0xFFFF, 0, 0xFFF7, 0xFFFF];
    for (i, l) in links.iter().enumerate() {
        fat[2 * i..2 * i + 2].copy_from_slice(&l.to_le_bytes());
    }
    let (table, rest) = Fat16AllocTable::parse(&fat, &bpb).unwrap();
    assert!(rest.is_empty());
    // 2 -> 3 -> 4 -> end
    assert_eq!(table.get_cluster_chain(2).unwrap(), vec![2, 3, 4]);
    // start 0 is an empty file
    assert_eq!(table.get_cluster_chain(0).unwrap(), Vec::<u16>::new());
    // a bad-cluster link ends the chain after the cluster that points to it
    assert_eq!(table.get_cluster_chain(6).unwrap(), vec![6]);
    // a chain starting on the bad-cluster marker itself is empty
    assert_eq!(table.get_cluster_chain(0xFFF7).unwrap(), Vec::<u16>::new());
    // a free link mid-chain is corrupt
    assert_eq!(table.get_cluster_chain(5).unwrap_err(), FatError::CorruptChain);
    // a link beyond the table is out of range
    assert_eq!(table.get_cluster_chain(9).unwrap_err(), FatError::ClusterOutOfRange);
}

#[test]
fn alloc_table_detects_cycle() {
    let bpb = tiny_bpb();
    let mut fat = vec![0u8; 512];
    let links: [u16; 8] = [0xFFF8, 0xFFFF, 3, 2, 0xFFFF, 0xFFFF, 0xFFFF, 0xFFFF];
    for (i, l) in links.iter().enumerate() {
        fat[2 * i..2 * i + 2].copy_from_slice(&l.to_le_bytes());
    }
    let (table, _) = Fat16AllocTable::parse(&fat, &bpb).unwrap();
    assert_eq!(table.get_cluster_chain(2).unwrap_err(), FatError::CorruptChain);
}

#[test]
fn alloc_table_short_buffer() {
    let bpb = tiny_bpb();
    let fat = vec![0u8; 100];
    assert_eq!(Fat16AllocTable::parse(&fat, &bpb).unwrap_err(), FatError::ShortBuffer);
}

fn sfn_slot(name11: &[u8; 11], attr: u8, cluster: u16, size: u32) -> [u8; 32] {
    let mut s = [0u8; 32];
    s[0..11].copy_from_slice(name11);
    s[11] = attr;
    s[13] = 100;
    s[14..16].copy_from_slice(&le16((12 << 11) | (34 << 5) | 28));
    s[16..18].copy_from_slice(&le16((43 << 9) | (7 << 5) | 15));
    s[18..20].copy_from_slice(&le16((43 << 9) | (7 << 5) | 16));
    s[22..24].copy_from_slice(&le16((13 << 11) | (5 << 5) | 1));
    s[24..26].copy_from_slice(&le16((43 << 9) | (8 << 5) | 2));
    s[26..28].copy_from_slice(&le16(cluster));
    s[28..32].copy_from_slice(&size.to_le_bytes());
    s
}

fn lfn_slot(seq: u8, units: &[u16; 13]) -> [u8; 32] {
    let mut s = [0u8; 32];
    s[0] = seq;
    s[11] = 0x0F;
    let offs = [1usize, 3, 5, 7, 9, 14, 16, 18, 20, 22, 24, 28, 30];
    for (u, off) in units.iter().zip(offs.iter()) {
        s[*off..*off + 2].copy_from_slice(&u.to_le_bytes());
    }
    s
}

fn lfn_units(part: &[u16]) -> [u16; 13] {
    let mut u = [0xFFFFu16; 13];
    u[..part.len()].copy_from_slice(part);
    if part.len() < 13 {
        u[part.len()] = 0;
    }
    u
}

fn utf16_of(s: &str) -> Vec<u16> {
    s.encode_utf16().collect()
}

#[test]
fn parses_short_names_and_skips_deleted() {
    let mut region = Vec::new();
    region.extend_from_slice(&sfn_slot(b"1       TXT", 0x20, 2, 5));
    let mut deleted = sfn_slot(b"GONE    TXT", 0x20, 3, 5);
    deleted[0] = 0xE5;
    region.extend_from_slice(&deleted);
    region.extend_from_slice(&sfn_slot(b"2       TXT", 0x20, 4, 7));
    region.extend_from_slice(&[0u8; 32]);
    let (entries, rest) = FatDirEntry::parses(&region, 4).unwrap();
    assert!(rest.is_empty());
    assert_eq!(entries.len(), 2);
    assert_eq!(entries[0].name, "1.TXT");
    assert_eq!(entries[0].attribute, 0x20);
    assert_eq!(entries[0].first_cluster, 2);
    assert_eq!(entries[0].file_size, 5);
    assert_eq!(entries[0].creation_time.hour, 12);
    assert_eq!(entries[0].creation_time.minute, 34);
    assert_eq!(entries[0].creation_time.second, 56);
    assert_eq!(entries[0].creation_time.tenths_of_second, 100);
    assert_eq!(entries[0].creation_date.year, 2023);
    assert_eq!(entries[0].creation_date.month, 7);
    assert_eq!(entries[0].creation_date.day, 15);
    assert_eq!(entries[0].last_access_date.day, 16);
    assert_eq!(entries[0].last_modify_time.hour, 13);
    assert_eq!(entries[0].last_modify_date.month, 8);
    assert_eq!(entries[1].name, "2.TXT");
    assert_eq!(entries[1].first_cluster, 4);
}

#[test]
fn parses_reconstructs_lfn_name() {
    // "long_1.txt" fits one fragment: ten characters, NUL, 0xFFFF padding.
    let units = lfn_units(&utf16_of("long_1.txt"));
    let mut region = Vec::new();
    region.extend_from_slice(&lfn_slot(0x41, &units));
    region.extend_from_slice(&sfn_slot(b"LONG_1  TXT", 0x20, 9, 3000));
    let (entries, _) = FatDirEntry::parses(&region, 2).unwrap();
    assert_eq!(entries.len(), 1);
    assert_eq!(entries[0].name, "long_1.txt");
    assert_eq!(entries[0].file_size, 3000);
}

#[test]
fn parses_prepends_lfn_fragments() {
    // A 20-character name spans two fragments; the fragment holding the
    // final characters comes first on disk.
    let name = "long_name_file_x.txt";
    let all = utf16_of(name);
    let first_on_disk = lfn_units(&all[13..]);
    let second_on_disk = lfn_units(&all[..13]);
    let mut region = Vec::new();
    region.extend_from_slice(&lfn_slot(0x42, &first_on_disk));
    region.extend_from_slice(&lfn_slot(0x01, &second_on_disk));
    region.extend_from_slice(&sfn_slot(b"LONG_N~1TXT", 0x20, 15, 1));
    let (entries, _) = FatDirEntry::parses(&region, 3).unwrap();
    assert_eq!(entries.len(), 1);
    assert_eq!(entries[0].name, name);
}

#[test]
fn parses_rejects_invalid_utf16() {
    // A lone high surrogate in the fragment is not valid UTF-16.
    let mut units = [0xFFFFu16; 13];
    units[0] = 0xD800;
    units[1] = 0;
    let mut region = Vec::new();
    region.extend_from_slice(&lfn_slot(0x41, &units));
    region.extend_from_slice(&sfn_slot(b"BAD     TXT", 0x20, 2, 1));
    assert_eq!(FatDirEntry::parses(&region, 2).unwrap_err(), FatError::EncodingError);
}

#[test]
fn parses_decodes_surrogate_pairs() {
    // One non-BMP character (a surrogate pair) inside a long name.
    let name = "a\u{1F600}b.txt";
    let all = utf16_of(name);
    let units = lfn_units(&all);
    let mut region = Vec::new();
    region.extend_from_slice(&lfn_slot(0x41, &units));
    region.extend_from_slice(&sfn_slot(b"A~1     TXT", 0x20, 2, 1));
    let (entries, _) = FatDirEntry::parses(&region, 2).unwrap();
    assert_eq!(entries[0].name, name);
}

#[test]
fn parses_short_buffer() {
    let region = [0u8; 63];
    assert_eq!(FatDirEntry::parses(&region, 2).unwrap_err(), FatError::ShortBuffer);
}

#[test]
fn parse_entry_returns_entry_and_rest() {
    let mut region = Vec::new();
    region.extend_from_slice(&sfn_slot(b"1       TXT", 0x20, 2, 5));
    region.extend_from_slice(&sfn_slot(b"2       TXT", 0x20, 3, 5));
    let (entry, rest) = FatDirEntry::parse_entry(&region).unwrap();
    assert_eq!(entry.unwrap().name, "1.TXT");
    assert_eq!(rest.len(), 32);
}

#[test]
fn parse_entry_none_on_deleted_slot() {
    let mut slot = sfn_slot(b"GONE    TXT", 0x20, 2, 5);
    slot[0] = 0xE5;
    let (entry, rest) = FatDirEntry::parse_entry(&slot).unwrap();
    assert!(entry.is_none());
    assert_eq!(rest.len(), 32);
}

#[test]
fn parse_entry_short_buffer() {
    assert_eq!(FatDirEntry::parse_entry(&[0u8; 31]).unwrap_err(), FatError::ShortBuffer);
}

#[test]
fn sfn_name_trims_trailing_spaces_and_keeps_dot() {
    let region = sfn_slot(b"BADDIR     ", 0x10, 5, 0);
    let (entries, _) = FatDirEntry::parses(&region, 1).unwrap();
    // The base and the (empty) extension are always joined with a dot.
    assert_eq!(entries[0].name, "BADDIR.");
}
