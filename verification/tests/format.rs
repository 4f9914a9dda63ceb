use persistence::store::{push, write_all};
use persistence::{
    FileHistoryEntry, Layout, Range, Selection, SplitEntry, SplitEntryLeaf, SplitEntryNode,
    SplitEntryTree, ViewPosition,
};

// Each record is laid out as `bincode` lays out a value of the same shape:
// a struct as its fields in order, a string or a list behind its length as
// a 64-bit integer, the variant of an enum as a 32-bit integer, an option
// behind one byte, and every integer in little-endian order at its full
// width.

type PlainPosition = (u64, u64, u64);
type PlainSelection = (Vec<(u64, u64)>, u64);
type PlainLeaf = (String, PlainPosition, PlainSelection, bool);

fn plain_leaf(path: &str) -> PlainLeaf {
    (path.to_string(), (7, 8, 9), (vec![(1, 2), (3, 4)], 1), true)
}

fn leaf(path: &str) -> SplitEntryLeaf {
    SplitEntryLeaf {
        path: path.to_string(),
        view_position: ViewPosition { anchor: 7, horizontal_offset: 8, vertical_offset: 9 },
        selection: Selection {
            ranges: vec![Range { anchor: 1, head: 2 }, Range { anchor: 3, head: 4 }],
            primary_index: 1,
        },
        focus: true,
    }
}

#[test]
fn a_line_is_laid_out_as_a_string() {
    for text in ["", "1", "wq", "ünïcödé", "a longer line with spaces"] {
        assert_eq!(push(&text.to_string()), bincode::serialize(&text.to_string()).unwrap());
    }
}

#[test]
fn lines_back_to_back_are_laid_out_as_a_tuple() {
    let lines = vec!["a".to_string(), "bc".to_string()];
    assert_eq!(write_all(&lines), bincode::serialize(&("a", "bc")).unwrap());
}

#[test]
fn a_file_entry_is_laid_out_as_its_fields() {
    let entry = FileHistoryEntry::new(
        "/home/user/file.rs".to_string(),
        ViewPosition { anchor: 120, horizontal_offset: 4, vertical_offset: 1 },
        Selection {
            ranges: vec![Range { anchor: 130, head: 135 }, Range { anchor: 200, head: 190 }],
            primary_index: 1,
        },
    );
    let plain: (String, PlainPosition, PlainSelection) = (
        "/home/user/file.rs".to_string(),
        (120, 4, 1),
        (vec![(130, 135), (200, 190)], 1),
    );
    assert_eq!(push(&entry), bincode::serialize(&plain).unwrap());
}

#[test]
fn an_empty_leaf_is_laid_out_as_the_first_variant_and_no_value() {
    let entry = SplitEntry { name: "n".to_string(), tree: SplitEntryTree::Leaf(None) };
    let plain: (String, u32, Option<PlainLeaf>) = ("n".to_string(), 0, None);
    assert_eq!(push(&entry), bincode::serialize(&plain).unwrap());
}

#[test]
fn a_leaf_is_laid_out_as_the_first_variant_and_some_value() {
    let entry = SplitEntry { name: "n".to_string(), tree: SplitEntryTree::Leaf(Some(leaf("/p"))) };
    let plain: (String, u32, Option<PlainLeaf>) = ("n".to_string(), 0, Some(plain_leaf("/p")));
    assert_eq!(push(&entry), bincode::serialize(&plain).unwrap());
}

#[test]
fn a_node_is_laid_out_as_the_second_variant_with_its_children_as_a_list() {
    let entry = SplitEntry {
        name: "session".to_string(),
        tree: SplitEntryTree::Node(SplitEntryNode {
            layout: Layout::Vertical,
            children: vec![
                SplitEntryTree::Leaf(Some(leaf("/left"))),
                SplitEntryTree::Leaf(None),
                SplitEntryTree::Leaf(Some(leaf("/right"))),
            ],
        }),
    };
    let children: Vec<(u32, Option<PlainLeaf>)> =
        vec![(0, Some(plain_leaf("/left"))), (0, None), (0, Some(plain_leaf("/right")))];
    let plain: (String, u32, u32, Vec<(u32, Option<PlainLeaf>)>) =
        ("session".to_string(), 1, 1, children);
    assert_eq!(push(&entry), bincode::serialize(&plain).unwrap());
}

#[test]
fn nested_nodes_are_laid_out_as_nested_lists() {
    let inner = |layout: Layout| {
        SplitEntryTree::Node(SplitEntryNode { layout, children: vec![SplitEntryTree::Leaf(None)] })
    };
    let entry = SplitEntry {
        name: "deep".to_string(),
        tree: SplitEntryTree::Node(SplitEntryNode {
            layout: Layout::Horizontal,
            children: vec![inner(Layout::Vertical), inner(Layout::Horizontal)],
        }),
    };
    let leaves: Vec<(u32, Option<PlainLeaf>)> = vec![(0, None)];
    let children: Vec<(u32, u32, Vec<(u32, Option<PlainLeaf>)>)> =
        vec![(1, 1, leaves.clone()), (1, 0, leaves)];
    let plain = ("deep".to_string(), 1u32, 0u32, children);
    assert_eq!(push(&entry), bincode::serialize(&plain).unwrap());
}
