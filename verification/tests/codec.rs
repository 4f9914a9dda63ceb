use persistence::splits::{put_tree, take_tree};
use persistence::store::{push, read_all, write_all};
use persistence::{
    DecodeError, FileHistoryEntry, Layout, Range, Record, Selection, SplitEntry, SplitEntryLeaf,
    SplitEntryNode, SplitEntryTree, ViewPosition,
};

fn position(anchor: usize, horizontal_offset: usize, vertical_offset: usize) -> ViewPosition {
    ViewPosition { anchor, horizontal_offset, vertical_offset }
}

fn selection(ranges: &[(usize, usize)], primary_index: usize) -> Selection {
    Selection {
        ranges: ranges.iter().map(|&(anchor, head)| Range { anchor, head }).collect(),
        primary_index,
    }
}

fn file_entry(path: &str) -> FileHistoryEntry {
    FileHistoryEntry::new(path.to_string(), position(10, 2, 1), selection(&[(3, 7), (9, 9)], 1))
}

fn leaf(path: &str, focus: bool) -> SplitEntryTree {
    SplitEntryTree::Leaf(Some(SplitEntryLeaf {
        path: path.to_string(),
        view_position: position(1, 2, 3),
        selection: selection(&[(4, 5)], 0),
        focus,
    }))
}

fn node(layout: Layout, children: Vec<SplitEntryTree>) -> SplitEntryTree {
    SplitEntryTree::Node(SplitEntryNode { layout, children })
}

fn decode_whole<T: Record>(bytes: &[u8]) -> Option<T> {
    match T::decode(bytes, 0) {
        Some((value, end)) if end == bytes.len() => Some(value),
        _ => None,
    }
}

fn encoded<T: Record>(value: &T) -> Vec<u8> {
    let mut out = Vec::new();
    value.encode(&mut out);
    out
}

#[test]
fn new_keeps_its_arguments() {
    let entry = FileHistoryEntry::new("/a".to_string(), position(1, 2, 3), selection(&[(4, 5)], 0));
    assert_eq!(entry.path, "/a");
    assert_eq!(entry.view_position, position(1, 2, 3));
    assert_eq!(entry.selection, selection(&[(4, 5)], 0));
}

#[test]
fn a_view_position_is_three_integers() {
    let bytes = encoded(&position(1, 0x0203, 4));
    assert_eq!(
        bytes,
        vec![1, 0, 0, 0, 0, 0, 0, 0, 3, 2, 0, 0, 0, 0, 0, 0, 4, 0, 0, 0, 0, 0, 0, 0]
    );
    assert_eq!(decode_whole::<ViewPosition>(&bytes), Some(position(1, 0x0203, 4)));
}

#[test]
fn a_range_is_two_integers() {
    let bytes = encoded(&Range { anchor: 5, head: 6 });
    assert_eq!(bytes, vec![5, 0, 0, 0, 0, 0, 0, 0, 6, 0, 0, 0, 0, 0, 0, 0]);
    assert_eq!(decode_whole::<Range>(&bytes), Some(Range { anchor: 5, head: 6 }));
}

#[test]
fn a_selection_is_its_counted_ranges_and_its_primary_index() {
    let bytes = encoded(&selection(&[(1, 2)], 0));
    assert_eq!(
        bytes,
        vec![
            1, 0, 0, 0, 0, 0, 0, 0, // one range
            1, 0, 0, 0, 0, 0, 0, 0, 2, 0, 0, 0, 0, 0, 0, 0, // the range
            0, 0, 0, 0, 0, 0, 0, 0, // primary index
        ]
    );
    assert_eq!(decode_whole::<Selection>(&bytes), Some(selection(&[(1, 2)], 0)));
    let none = selection(&[], 3);
    assert_eq!(decode_whole::<Selection>(&encoded(&none)), Some(none));
}

#[test]
fn a_file_entry_is_read_back() {
    let entry = file_entry("/home/user/notes.txt");
    assert_eq!(decode_whole::<FileHistoryEntry>(&encoded(&entry)), Some(entry));
}

#[test]
fn file_entries_are_read_back_in_order() {
    let entries = vec![file_entry("/a"), file_entry(""), file_entry("/ü/b")];
    let read: Vec<FileHistoryEntry> = read_all(Some(&write_all(&entries))).unwrap();
    assert_eq!(read, entries);
}

#[test]
fn the_largest_integers_are_read_back() {
    let entry = FileHistoryEntry::new(
        "big".to_string(),
        position(usize::MAX, usize::MAX - 1, 0),
        selection(&[(usize::MAX, 0)], usize::MAX),
    );
    assert_eq!(decode_whole::<FileHistoryEntry>(&encoded(&entry)), Some(entry));
}

#[test]
fn a_file_entry_cut_anywhere_is_not_read() {
    let bytes = encoded(&file_entry("/some/path"));
    for cut in 0..bytes.len() {
        assert_eq!(decode_whole::<FileHistoryEntry>(&bytes[..cut]), None);
        assert!(FileHistoryEntry::decode(&bytes[..cut], 0).is_none());
    }
}

#[test]
fn a_selection_that_announces_more_ranges_than_follow_is_not_read() {
    let mut bytes = encoded(&selection(&[(1, 2), (3, 4)], 0));
    bytes[0] = 3;
    assert!(Selection::decode(&bytes, 0).is_none());
    bytes[0] = 0xff;
    bytes[7] = 0xff;
    assert!(Selection::decode(&bytes, 0).is_none());
}

#[test]
fn decoding_starts_where_it_is_told() {
    let mut bytes = vec![9, 9, 9];
    bytes.extend(encoded(&Range { anchor: 1, head: 2 }));
    bytes.extend(encoded(&Range { anchor: 3, head: 4 }));
    assert_eq!(Range::decode(&bytes, 3), Some((Range { anchor: 1, head: 2 }, 19)));
    assert_eq!(Range::decode(&bytes, 19), Some((Range { anchor: 3, head: 4 }, 35)));
    assert_eq!(Range::decode(&bytes, 35), None);
    assert_eq!(Range::decode(&bytes, 20), None);
}

#[test]
fn an_empty_leaf_is_a_tag_and_a_flag() {
    let mut out = Vec::new();
    put_tree(&mut out, &SplitEntryTree::Leaf(None));
    assert_eq!(out, vec![0, 0, 0, 0, 0]);
    assert_eq!(take_tree(&out, 0), Some((SplitEntryTree::Leaf(None), 5)));
}

#[test]
fn a_node_is_a_tag_a_layout_and_its_counted_children() {
    let tree = node(Layout::Vertical, vec![SplitEntryTree::Leaf(None), SplitEntryTree::Leaf(None)]);
    let mut out = Vec::new();
    put_tree(&mut out, &tree);
    assert_eq!(
        out,
        vec![
            1, 0, 0, 0, // a node
            1, 0, 0, 0, // vertical
            2, 0, 0, 0, 0, 0, 0, 0, // two children
            0, 0, 0, 0, 0, // an empty leaf
            0, 0, 0, 0, 0, // an empty leaf
        ]
    );
    assert_eq!(take_tree(&out, 0), Some((tree, 26)));
    let mut horizontal = Vec::new();
    put_tree(&mut horizontal, &node(Layout::Horizontal, Vec::new()));
    assert_eq!(horizontal, vec![1, 0, 0, 0, 0, 0, 0, 0, 0, 0, 0, 0, 0, 0, 0, 0]);
}

#[test]
fn a_leaf_with_a_document_is_read_back() {
    let tree = leaf("/doc.md", true);
    let mut out = Vec::new();
    put_tree(&mut out, &tree);
    assert_eq!(&out[..5], &[0, 0, 0, 0, 1]);
    assert_eq!(*out.last().unwrap(), 1);
    let end = out.len();
    assert_eq!(take_tree(&out, 0), Some((tree, end)));
}

#[test]
fn a_nested_layout_is_read_back() {
    let tree = node(
        Layout::Horizontal,
        vec![
            leaf("/left", false),
            node(
                Layout::Vertical,
                vec![
                    leaf("/top", true),
                    SplitEntryTree::Leaf(None),
                    node(Layout::Vertical, vec![]),
                ],
            ),
        ],
    );
    let entry = SplitEntry { name: "work".to_string(), tree };
    assert_eq!(decode_whole::<SplitEntry>(&encoded(&entry)), Some(entry));
}

#[test]
fn split_entries_are_read_back_in_order() {
    let entries = vec![
        SplitEntry { name: "a".to_string(), tree: leaf("/a", true) },
        SplitEntry { name: "".to_string(), tree: SplitEntryTree::Leaf(None) },
        SplitEntry { name: "a".to_string(), tree: node(Layout::Vertical, vec![leaf("/b", false)]) },
    ];
    let read: Vec<SplitEntry> = read_all(Some(&write_all(&entries))).unwrap();
    assert_eq!(read, entries);
}

#[test]
fn a_tree_with_an_unknown_tag_is_not_read() {
    assert_eq!(take_tree(&[2, 0, 0, 0, 0], 0), None);
    assert_eq!(take_tree(&[0, 1, 0, 0, 0], 0), None);
}

#[test]
fn a_node_with_an_unknown_layout_is_not_read() {
    let bytes = [1, 0, 0, 0, 2, 0, 0, 0, 0, 0, 0, 0, 0, 0, 0, 0];
    assert_eq!(take_tree(&bytes, 0), None);
}

#[test]
fn a_flag_that_is_neither_zero_nor_one_is_not_read() {
    assert_eq!(take_tree(&[0, 0, 0, 0, 2], 0), None);
    let mut out = Vec::new();
    put_tree(&mut out, &leaf("/doc", true));
    let last = out.len() - 1;
    out[last] = 2;
    assert_eq!(take_tree(&out, 0), None);
}

#[test]
fn a_node_that_announces_more_children_than_follow_is_not_read() {
    let mut out = Vec::new();
    put_tree(&mut out, &node(Layout::Vertical, vec![SplitEntryTree::Leaf(None)]));
    out[8] = 2;
    assert_eq!(take_tree(&out, 0), None);
    out[8] = 0xff;
    out[15] = 0xff;
    assert_eq!(take_tree(&out, 0), None);
}

#[test]
fn a_tree_cut_anywhere_is_not_read() {
    let mut out = Vec::new();
    put_tree(
        &mut out,
        &node(Layout::Horizontal, vec![leaf("/left", false), leaf("/right", true)]),
    );
    for cut in 0..out.len() {
        assert_eq!(take_tree(&out[..cut], 0), None);
    }
}

#[test]
fn a_split_file_with_a_bad_record_fails_the_read() {
    let first = SplitEntry { name: "a".to_string(), tree: SplitEntryTree::Leaf(None) };
    let mut file = push(&first);
    let offset = file.len();
    file.extend([1, 0, 0, 0, 0, 0, 0, 0, b'b', 9, 0, 0, 0, 0]);
    let read: Result<Vec<SplitEntry>, DecodeError> = read_all(Some(&file));
    assert_eq!(read, Err(DecodeError { offset }));
}

#[test]
fn a_copy_is_equal_to_what_it_was_made_from() {
    let entry = SplitEntry {
        name: "copy".to_string(),
        tree: node(Layout::Vertical, vec![leaf("/a", true), SplitEntryTree::Leaf(None)]),
    };
    assert_eq!(entry.clone(), entry);
    let file = file_entry("/file");
    assert_eq!(file.clone(), file);
}
