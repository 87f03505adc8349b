use neotar::files::{read_entries_recursive, Entry, EntryInner};
use neotar::tree::{write_node, write_root_dir, Node};
use neotar::Section;

fn example_roots() -> Vec<Node> {
    vec![
        Node::Directory {
            name: b"d".to_vec(),
            children: vec![Node::File { name: b"a.txt".to_vec(), content: b"AB".to_vec() }],
        },
        Node::File { name: b"b.txt".to_vec(), content: vec![] },
    ]
}

#[test]
fn example_tree_round_trips_to_pre_order_list() {
    let roots = example_roots();
    let mut payload = vec![];
    write_root_dir(&roots, &mut payload);
    let section = Section { ty: 0, metadata: 0, bytes: &payload };
    let (entries, count) = read_entries_recursive(&section).unwrap();
    assert_eq!(count, 2);
    assert_eq!(
        entries,
        vec![
            Entry { name: b"d", entry: EntryInner::Directory(1) },
            Entry { name: b"a.txt", entry: EntryInner::File(b"AB") },
            Entry { name: b"b.txt", entry: EntryInner::File(b"") },
        ]
    );
}

#[test]
fn tree_encoding_is_exact() {
    let mut payload = vec![];
    write_root_dir(&example_roots(), &mut payload);
    let mut expected = vec![0, 0, 0, 2];
    expected.extend_from_slice(&[1, b'd', 0, 0, 0, 0, 1]);
    expected.extend_from_slice(&[0, b'a', b'.', b't', b'x', b't', 0, 0, 0, 0, 2, b'A', b'B']);
    expected.extend_from_slice(&[0, b'b', b'.', b't', b'x', b't', 0, 0, 0, 0, 0]);
    assert_eq!(payload, expected);
}

#[test]
fn deep_tree_round_trips() {
    let roots = vec![Node::Directory {
        name: b"a".to_vec(),
        children: vec![
            Node::Directory {
                name: b"b".to_vec(),
                children: vec![
                    Node::Directory { name: b"c".to_vec(), children: vec![] },
                    Node::File { name: b"f".to_vec(), content: vec![0, 255, 0] },
                ],
            },
            Node::File { name: b"g".to_vec(), content: vec![1] },
        ],
    }];
    let mut payload = vec![];
    write_root_dir(&roots, &mut payload);
    let section = Section { ty: 0, metadata: 0, bytes: &payload };
    let (entries, count) = read_entries_recursive(&section).unwrap();
    assert_eq!(count, 1);
    assert_eq!(
        entries,
        vec![
            Entry { name: b"a", entry: EntryInner::Directory(2) },
            Entry { name: b"b", entry: EntryInner::Directory(2) },
            Entry { name: b"c", entry: EntryInner::Directory(0) },
            Entry { name: b"f", entry: EntryInner::File(&[0, 255, 0]) },
            Entry { name: b"g", entry: EntryInner::File(&[1]) },
        ]
    );
}

#[test]
fn empty_tree_is_a_zero_count() {
    let mut payload = vec![];
    write_root_dir(&vec![], &mut payload);
    assert_eq!(payload, vec![0, 0, 0, 0]);
}

#[test]
fn single_node_encoding() {
    let mut out = vec![9];
    write_node(&Node::Directory { name: b"x".to_vec(), children: vec![] }, &mut out);
    assert_eq!(out, vec![9, 1, b'x', 0, 0, 0, 0, 0]);
}

#[test]
fn node_writable_check() {
    assert!(example_roots().iter().all(Node::is_writable));
    let bad = Node::Directory {
        name: b"ok".to_vec(),
        children: vec![Node::File { name: b"n\0l".to_vec(), content: vec![] }],
    };
    assert!(!bad.is_writable());
}
