use neotar::wire::FormatError;
use neotar::{Deserialize, File, Section, Serialize};

fn two_section_file_bytes(a: &[u8], b: &[u8]) -> Vec<u8> {
    let file = File::new(vec![
        Section { ty: 0, metadata: 7, bytes: a },
        Section { ty: 0x01020304, metadata: 0, bytes: b },
    ]);
    let mut out = vec![];
    file.write(&mut out);
    out
}

#[test]
fn file_encoding_is_exact() {
    let out = two_section_file_bytes(b"xy", b"");
    let expected: Vec<u8> = vec![
        b'n', b't', b'a', b'r', 0, 0, 0, 0, // header
        0, 0, 0, 0, 0, 0, 0, 7, 0, 0, 0, 2, b'x', b'y', // first section
        1, 2, 3, 4, 0, 0, 0, 0, 0, 0, 0, 0, // second section
    ];
    assert_eq!(out, expected);
}

#[test]
fn file_round_trip() {
    let out = two_section_file_bytes(b"hello", &[1, 2, 3]);
    let (file, used) = File::read(&out).unwrap();
    assert_eq!(used, out.len());
    assert_eq!(file.magic, *b"ntar");
    assert_eq!((file.version_major, file.version_minor, file.version_patch), (0, 0, 0));
    assert_eq!(file.sections.len(), 2);
    assert_eq!(file.sections[0].ty, 0);
    assert_eq!(file.sections[0].metadata, 7);
    assert_eq!(file.sections[0].bytes, b"hello");
    assert_eq!(file.sections[1].ty, 0x01020304);
    assert_eq!(file.sections[1].bytes, &[1, 2, 3]);
}

#[test]
fn file_without_sections_round_trips() {
    let mut file = File::new(vec![]);
    file.version_major = 1;
    file.version_minor = 2;
    file.version_patch = 3;
    let mut out = vec![];
    file.write(&mut out);
    assert_eq!(out.len(), 8);
    let (back, used) = File::read(&out).unwrap();
    assert_eq!(used, 8);
    assert!(back.sections.is_empty());
    assert_eq!((back.version_major, back.version_minor, back.version_patch), (1, 2, 3));
}

#[test]
fn strict_prefixes_off_section_boundaries_are_truncated() {
    let out = two_section_file_bytes(b"hello", &[1, 2, 3]);
    let boundaries = [8usize, 8 + 12 + 5];
    for n in 0..out.len() {
        if boundaries.contains(&n) {
            continue;
        }
        assert_eq!(File::read(&out[..n]).err(), Some(FormatError::Truncated), "prefix {}", n);
    }
}

#[test]
fn prefix_at_section_boundary_is_a_shorter_file() {
    let out = two_section_file_bytes(b"hello", &[1, 2, 3]);
    let (file, used) = File::read(&out[..25]).unwrap();
    assert_eq!(used, 25);
    assert_eq!(file.sections.len(), 1);
}

#[test]
fn wrong_magic_is_rejected() {
    let mut out = two_section_file_bytes(b"a", b"b");
    out[3] = b's';
    assert_eq!(File::read(&out).err(), Some(FormatError::BadMagic));
    assert_eq!(File::read(b"tar!").err(), Some(FormatError::BadMagic));
}

#[test]
fn section_length_past_end_is_truncated() {
    let bytes = [0u8, 0, 0, 1, 0, 0, 0, 2, 0, 0, 0, 9, 1, 2];
    assert_eq!(Section::read(&bytes).err(), Some(FormatError::Truncated));
}

#[test]
fn section_read_takes_only_its_bytes() {
    let bytes = [0u8, 0, 0, 1, 0, 0, 0, 2, 0, 0, 0, 2, 0xAA, 0xBB, 0xCC];
    let (s, used) = Section::read(&bytes).unwrap();
    assert_eq!(used, 14);
    assert_eq!((s.ty, s.metadata), (1, 2));
    assert_eq!(s.bytes, &[0xAA, 0xBB]);
}

#[test]
fn sanity_check_reports_magic() {
    let file = File::new(vec![]);
    assert_eq!(file.sanity_check(), Ok(()));
    let mut other = file.clone();
    other.magic = *b"ntaR";
    assert_eq!(other.sanity_check(), Err(FormatError::BadMagic));
}
