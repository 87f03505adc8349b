use neotar::files::{
    read_entries_recursive, read_entry_recursive, read_single_entry, write_entry_recursive,
    write_single_entry, Entry, EntryInner,
};
use neotar::wire::FormatError;
use neotar::Section;

#[test]
fn file_read_single_entry() {
    let bytes = [0, b'h', b'e', b'l', b'l', b'o', 0, 0, 0, 0, 1, 65];
    let entry = read_single_entry(&bytes).unwrap().0;
    assert_eq!(
        entry,
        Entry {
            name: b"hello",
            entry: EntryInner::File(&[65])
        }
    )
}

#[test]
fn rw_entry() {
    let entries = [
        Entry {
            name: b"hello",
            entry: EntryInner::Directory(1),
        },
        Entry {
            name: b"world.txt",
            entry: EntryInner::File(&[0, 1, 2, 3, 4]),
        },
    ];
    let mut bytes = vec![];
    write_entry_recursive(&entries, &mut bytes);
    let mut new = vec![];
    read_entry_recursive(&bytes, &mut new).unwrap();
    assert_eq!(entries.as_slice(), &new)
}

fn sample_payload() -> Vec<u8> {
    // roots: Directory("d", [File("a.txt", "AB")]), File("b.txt", "")
    let entries = [
        Entry { name: b"d", entry: EntryInner::Directory(1) },
        Entry { name: b"a.txt", entry: EntryInner::File(b"AB") },
        Entry { name: b"b.txt", entry: EntryInner::File(b"") },
    ];
    let mut payload = vec![0, 0, 0, 2];
    write_entry_recursive(&entries, &mut payload);
    payload
}

#[test]
fn tree_example_decodes_in_pre_order() {
    let payload = sample_payload();
    let section = Section { ty: 0, metadata: 0, bytes: &payload };
    let (entries, roots) = read_entries_recursive(&section).unwrap();
    assert_eq!(roots, 2);
    assert_eq!(
        entries,
        vec![
            Entry { name: b"d", entry: EntryInner::Directory(1) },
            Entry { name: b"a.txt", entry: EntryInner::File(b"AB") },
            Entry { name: b"b.txt", entry: EntryInner::File(b"") },
        ]
    );
}

#[test]
fn tree_example_exact_bytes() {
    let payload = sample_payload();
    let mut expected = vec![0, 0, 0, 2];
    expected.extend_from_slice(&[1, b'd', 0, 0, 0, 0, 1]);
    expected.extend_from_slice(&[0, b'a', b'.', b't', b'x', b't', 0, 0, 0, 0, 2, b'A', b'B']);
    expected.extend_from_slice(&[0, b'b', b'.', b't', b'x', b't', 0, 0, 0, 0, 0]);
    assert_eq!(payload, expected);
}

#[test]
fn subtree_decode_stops_when_counter_reaches_zero() {
    let payload = sample_payload();
    let mut entries = vec![];
    let used = read_entry_recursive(&payload[4..], &mut entries).unwrap();
    // the directory and its one child, not the second root
    assert_eq!(used, 7 + 13);
    assert_eq!(entries.len(), 2);
    assert_eq!(entries[1], Entry { name: b"a.txt", entry: EntryInner::File(b"AB") });
}

#[test]
fn nested_directories_round_trip() {
    let entries = [
        Entry { name: b"top", entry: EntryInner::Directory(2) },
        Entry { name: b"inner", entry: EntryInner::Directory(1) },
        Entry { name: b"deep", entry: EntryInner::File(&[9, 8, 7]) },
        Entry { name: b"empty", entry: EntryInner::Directory(0) },
    ];
    let mut bytes = vec![];
    write_entry_recursive(&entries, &mut bytes);
    let mut out = vec![];
    let used = read_entry_recursive(&bytes, &mut out).unwrap();
    assert_eq!(used, bytes.len());
    assert_eq!(entries.as_slice(), &out);
}

#[test]
fn empty_payload_has_no_entries() {
    let payload = [0u8, 0, 0, 0];
    let section = Section { ty: 0, metadata: 0, bytes: &payload };
    let (entries, roots) = read_entries_recursive(&section).unwrap();
    assert!(entries.is_empty());
    assert_eq!(roots, 0);
}

#[test]
fn payload_shorter_than_root_count_is_truncated() {
    let payload = [0u8, 0, 1];
    let section = Section { ty: 0, metadata: 0, bytes: &payload };
    assert_eq!(read_entries_recursive(&section), Err(FormatError::Truncated));
}

#[test]
fn every_strict_prefix_of_a_subtree_fails() {
    let payload = sample_payload();
    let subtree = &payload[4..24];
    for n in 0..subtree.len() {
        let mut out = vec![];
        let r = read_entry_recursive(&subtree[..n], &mut out);
        assert!(
            r == Err(FormatError::Truncated) || r == Err(FormatError::BadName),
            "prefix {}",
            n
        );
        assert!(out.is_empty());
    }
}

#[test]
fn missing_name_terminator_is_bad_name() {
    let bytes = [0, b'a', b'b', b'c'];
    assert_eq!(read_single_entry(&bytes), Err(FormatError::BadName));
}

#[test]
fn empty_entry_buffer_is_truncated() {
    assert_eq!(read_single_entry(&[]), Err(FormatError::Truncated));
}

#[test]
fn short_length_word_is_truncated() {
    let bytes = [0, b'x', 0, 0, 0];
    assert_eq!(read_single_entry(&bytes), Err(FormatError::Truncated));
}

#[test]
fn content_past_end_is_truncated() {
    let bytes = [0, b'x', 0, 0, 0, 0, 3, 1, 2];
    assert_eq!(read_single_entry(&bytes), Err(FormatError::Truncated));
}

#[test]
fn any_nonzero_tag_is_a_directory() {
    let bytes = [7, b'x', 0, 0, 0, 1, 0];
    let (e, n) = read_single_entry(&bytes).unwrap();
    assert_eq!(n, 7);
    assert_eq!(e, Entry { name: b"x", entry: EntryInner::Directory(256) });
}

#[test]
fn error_leaves_entries_untouched() {
    let mut out = vec![Entry { name: b"keep", entry: EntryInner::Directory(0) }];
    // a directory owing one child that never comes
    let bytes = [1, b'd', 0, 0, 0, 0, 1];
    assert_eq!(read_entry_recursive(&bytes, &mut out), Err(FormatError::Truncated));
    assert_eq!(out.len(), 1);
}

#[test]
fn single_entry_encoding_is_exact() {
    let mut bytes = vec![];
    write_single_entry(
        &Entry { name: b"f", entry: EntryInner::File(&[0xAB; 3]) },
        &mut bytes,
    );
    assert_eq!(bytes, vec![0, b'f', 0, 0, 0, 0, 3, 0xAB, 0xAB, 0xAB]);
    let mut dir = vec![];
    write_single_entry(
        &Entry { name: b"dir", entry: EntryInner::Directory(0x01020304) },
        &mut dir,
    );
    assert_eq!(dir, vec![1, b'd', b'i', b'r', 0, 1, 2, 3, 4]);
}

#[test]
fn writable_check_rejects_nul_in_name() {
    let bad = Entry { name: b"a\0b", entry: EntryInner::Directory(0) };
    assert!(!bad.is_writable());
    let good = Entry { name: b"ab", entry: EntryInner::File(b"x") };
    assert!(good.is_writable());
}
