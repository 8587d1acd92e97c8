//! Byte-level behaviour: the short-name checksum, the 8.3 name field and its
//! reconstruction, and the long-filename records going out and coming back.

use pion_fs::dir_entry::checksum;
use pion_fs::dir_entry::create_raw;
use pion_fs::dir_entry::DirEntry;
use pion_fs::lfn::lfn_need_space;
use pion_fs::lfn::lfn_record;
use pion_fs::lfn::LfnBuilder;
use pion_fs::stream::Stream;

#[test]
fn checksum_of_zero_name_is_zero() {
    assert_eq!(checksum(&[0u8; 11]), 0);
}

#[test]
fn checksum_rotates_the_first_byte_through() {
    // one nonzero byte, then ten rotations: 1 rotated right ten times
    let mut name = [0u8; 11];
    name[0] = 1;
    assert_eq!(checksum(&name), 0x40);
}

#[test]
fn checksum_changes_with_the_name() {
    let a = create_raw(b"HELLO.TXT", true, 2).unwrap();
    let b = create_raw(b"WORLD.TXT", true, 2).unwrap();
    assert_ne!(checksum(&a), checksum(&b));
}

#[test]
fn created_entry_reconstructs_uppercased_name() {
    let raw = create_raw(b"hello.txt", true, 5).unwrap();
    let entry = DirEntry::from_raw_data(raw, Stream::open(0), None).unwrap();
    assert_eq!(entry.name(), b"HELLO.TXT".to_vec());
    assert!(entry.compare(b"HELLO.TXT"));
    assert!(!entry.compare(b"hello.txt"));
    assert!(entry.is_file());
    assert!(!entry.is_dir());
    assert_eq!(entry.cluster(), 5);
    assert_eq!(entry.size(), 0);
}

#[test]
fn created_entry_without_extension() {
    let raw = create_raw(b"NOTES", true, 3).unwrap();
    let entry = DirEntry::from_raw_data(raw, Stream::open(0), None).unwrap();
    assert_eq!(entry.name(), b"NOTES".to_vec());
    assert!(entry.compare(b"NOTES"));
}

#[test]
fn created_directory_keeps_dots_out_of_the_extension() {
    let raw = create_raw(b"archive.d", false, 7).unwrap();
    let entry = DirEntry::from_raw_data(raw, Stream::open(0), None).unwrap();
    assert!(entry.is_dir());
    // a directory stores the whole name in the base field, cut at eight
    assert_eq!(entry.name(), b"ARCHIVE.".to_vec());
}

#[test]
fn long_base_names_truncate_at_eight_bytes() {
    let raw = create_raw(b"longfilename.dat", true, 2).unwrap();
    let entry = DirEntry::from_raw_data(raw, Stream::open(0), None).unwrap();
    assert_eq!(entry.name(), b"LONGFILE.DAT".to_vec());
}

#[test]
fn set_size_round_trips() {
    let raw = create_raw(b"A.TXT", true, 2).unwrap();
    let mut entry = DirEntry::from_raw_data(raw, Stream::open(0), None).unwrap();
    entry.set_size(0xDEAD_BEEF);
    assert_eq!(entry.size(), 0xDEAD_BEEF);
    assert_eq!(entry.cluster(), 2);
}

#[test]
fn lfn_space_charges_one_record_per_thirteen_bytes_and_the_nul() {
    assert_eq!(lfn_need_space(b""), 1);
    assert_eq!(lfn_need_space(b"x"), 1);
    assert_eq!(lfn_need_space(b"twelve_bytes"), 1);
    // exactly thirteen bytes: the terminator forces a second record
    assert_eq!(lfn_need_space(b"thirteen_byte"), 2);
    assert_eq!(lfn_need_space(b"fourteen_bytes"), 2);
    // exactly twenty-six bytes: a third record
    assert_eq!(lfn_need_space(b"twenty_six_bytes_name_here"), 3);
}

#[test]
fn lfn_records_carry_ordinal_attribute_and_checksum() {
    let name = b"longfilename.dat";
    let count = lfn_need_space(name);
    assert_eq!(count, 2);
    let first = lfn_record(name, 1, count, 0xA7);
    let second = lfn_record(name, 0, count, 0xA7);
    // the head record carries the last-record mark and the higher ordinal
    assert_eq!(first[0], 0x42);
    assert_eq!(second[0], 0x01);
    assert_eq!(first[11], 0x0F);
    assert_eq!(second[11], 0x0F);
    assert_eq!(first[13], 0xA7);
    assert_eq!(second[13], 0xA7);
    // the first thirteen name bytes sit in the record numbered one
    assert_eq!(second[1], b'l');
    assert_eq!(second[3], b'o');
    assert_eq!(second[5], b'n');
}

#[test]
fn lfn_serialize_then_deserialize_yields_the_name() {
    let name = b"longfilename.dat";
    let count = lfn_need_space(name);
    let mut builder = LfnBuilder::new();
    let mut i = count;
    while i > 0 {
        let rec = lfn_record(name, i - 1, count, 0x5C);
        assert!(builder.process(Stream::open(0), &rec));
        i -= 1;
    }
    let built = builder.build();
    assert!(built.is_some());
    assert_eq!(built.unwrap().1, 0x5C);
    let lfn = builder.into_name();
    assert_eq!(lfn.name(), name);
    assert!(lfn.compare(name));
    assert!(!lfn.compare(b"othername.dat"));
}

#[test]
fn lfn_round_trip_at_the_thirteen_byte_boundary() {
    let name = b"thirteen_byte";
    let count = lfn_need_space(name);
    assert_eq!(count, 2);
    let mut builder = LfnBuilder::new();
    let mut i = count;
    while i > 0 {
        let rec = lfn_record(name, i - 1, count, 9);
        assert!(builder.process(Stream::open(0), &rec));
        i -= 1;
    }
    assert!(builder.build().is_some());
    assert_eq!(builder.into_name().name(), name);
}

#[test]
fn lfn_builder_rejects_a_wrong_checksum() {
    let name = b"longfilename.dat";
    let count = lfn_need_space(name);
    let mut builder = LfnBuilder::new();
    let head = lfn_record(name, 1, count, 0x11);
    assert!(builder.process(Stream::open(0), &head));
    // a continuation carrying another checksum breaks the sequence
    let tail = lfn_record(name, 0, count, 0x22);
    assert!(!builder.process(Stream::open(0), &tail));
    assert!(builder.build().is_none());
}

#[test]
fn lfn_builder_ignores_plain_records() {
    let raw = create_raw(b"A.TXT", true, 2).unwrap();
    let mut builder = LfnBuilder::new();
    assert!(!builder.process(Stream::open(0), &raw));
}
