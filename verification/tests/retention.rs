use persistence::retention::{retain_by_name, trim_split};
use persistence::store::{read_all, write_all};
use persistence::{
    Layout, PersistenceConfig, PersistenceConfigOption, PersistenceScope, SplitEntry,
    SplitEntryLeaf, SplitEntryNode, SplitEntryTree, ViewPosition,
};
use persistence::{Range, Selection};

fn layout(name: &str, path: &str) -> SplitEntry {
    SplitEntry {
        name: name.to_string(),
        tree: SplitEntryTree::Node(SplitEntryNode {
            layout: Layout::Horizontal,
            children: vec![SplitEntryTree::Leaf(Some(SplitEntryLeaf {
                path: path.to_string(),
                view_position: ViewPosition { anchor: 0, horizontal_offset: 0, vertical_offset: 0 },
                selection: Selection {
                    ranges: vec![Range { anchor: 0, head: 1 }],
                    primary_index: 0,
                },
                focus: true,
            }))],
        }),
    }
}

fn layouts(entries: &[(&str, &str)]) -> Vec<SplitEntry> {
    entries.iter().map(|(name, path)| layout(name, path)).collect()
}

fn config(max_entries: usize) -> PersistenceConfig {
    PersistenceConfig {
        all: PersistenceConfigOption {
            enabled: true,
            max_entries: 100,
            scope: PersistenceScope::AllInOne,
        },
        old_files: None,
        commands: None,
        search: None,
        clipboard: None,
        splits: Some(PersistenceConfigOption {
            enabled: true,
            max_entries,
            scope: PersistenceScope::AllInOne,
        }),
        files_exclusions: Vec::new(),
    }
}

fn trimmed(entries: &[(&str, &str)], max_entries: usize) -> Option<Vec<SplitEntry>> {
    let file = write_all(&layouts(entries));
    let rewrite = config(max_entries).trim_split_file(Some(&file)).unwrap();
    assert_eq!(rewrite, trim_split(Some(&file), max_entries).unwrap());
    rewrite.map(|content| read_all(Some(&content)).unwrap())
}

#[test]
fn fewer_layouts_than_the_cap_are_left_as_they_are() {
    assert_eq!(trimmed(&[("A", "/1"), ("A", "/2")], 3), None);
    assert_eq!(trimmed(&[], 1), None);
    assert_eq!(trim_split(None, 1), Ok(None));
}

#[test]
fn the_walk_stops_when_the_cap_is_reached() {
    // "A" was saved again after "B", but the walk holds two names after "B"
    // and never sees the later "A".
    let kept = trimmed(&[("A", "/first"), ("B", "/b"), ("A", "/second")], 2).unwrap();
    assert_eq!(kept, layouts(&[("A", "/first"), ("B", "/b")]));
    let mut names: Vec<&str> = kept.iter().map(|entry| entry.name.as_str()).collect();
    names.sort();
    names.dedup();
    assert_eq!(names, vec!["A", "B"]);
}

#[test]
fn a_later_layout_replaces_the_one_held_under_its_name() {
    let kept = trimmed(&[("A", "/first"), ("A", "/second"), ("B", "/b")], 2).unwrap();
    assert_eq!(kept, layouts(&[("A", "/second"), ("B", "/b")]));
}

#[test]
fn as_many_layouts_as_the_cap_are_still_rewritten_by_name() {
    let kept = trimmed(&[("A", "/1"), ("B", "/2"), ("A", "/3")], 3).unwrap();
    assert_eq!(kept, layouts(&[("A", "/3"), ("B", "/2")]));
}

#[test]
fn layouts_are_held_in_the_order_in_which_their_names_came() {
    let kept = trimmed(
        &[("C", "/1"), ("A", "/2"), ("B", "/3"), ("A", "/4"), ("C", "/5"), ("D", "/6")],
        4,
    )
    .unwrap();
    assert_eq!(kept, layouts(&[("C", "/5"), ("A", "/4"), ("B", "/3"), ("D", "/6")]));
}

#[test]
fn layouts_behind_the_stop_are_dropped() {
    let kept = trimmed(&[("A", "/1"), ("B", "/2"), ("C", "/3"), ("D", "/4")], 2).unwrap();
    assert_eq!(kept, layouts(&[("A", "/1"), ("B", "/2")]));
}

#[test]
fn repeated_names_do_not_count_towards_the_cap() {
    let kept = trimmed(&[("A", "/1"), ("A", "/2"), ("A", "/3"), ("B", "/4"), ("C", "/5")], 2)
        .unwrap();
    assert_eq!(kept, layouts(&[("A", "/3"), ("B", "/4")]));
    let kept = trimmed(&[("A", "/1"), ("A", "/2"), ("A", "/3")], 2).unwrap();
    assert_eq!(kept, layouts(&[("A", "/3")]));
}

#[test]
fn a_cap_of_one_keeps_the_oldest_layout_alone() {
    let kept = trimmed(&[("A", "/1"), ("A", "/2"), ("B", "/3")], 1).unwrap();
    assert_eq!(kept, layouts(&[("A", "/1")]));
}

#[test]
fn a_cap_of_none_keeps_nothing() {
    assert_eq!(trimmed(&[("A", "/1"), ("B", "/2")], 0), Some(Vec::new()));
    assert_eq!(trimmed(&[], 0), Some(Vec::new()));
    assert_eq!(trim_split(None, 0), Ok(Some(Vec::new())));
}

#[test]
fn a_trim_never_leaves_more_than_the_cap_nor_a_name_twice() {
    let stored = [
        ("A", "/1"),
        ("B", "/2"),
        ("A", "/3"),
        ("C", "/4"),
        ("B", "/5"),
        ("D", "/6"),
        ("A", "/7"),
    ];
    for max_entries in 0..=stored.len() {
        let kept = trimmed(&stored, max_entries).unwrap();
        assert!(kept.len() <= max_entries);
        let mut names: Vec<&str> = kept.iter().map(|entry| entry.name.as_str()).collect();
        names.sort();
        names.dedup();
        assert_eq!(names.len(), kept.len());
    }
}

#[test]
fn the_places_of_what_is_retained() {
    let stored = layouts(&[("A", "/1"), ("B", "/2"), ("A", "/3"), ("C", "/4")]);
    assert_eq!(retain_by_name(&stored, 0), Vec::<usize>::new());
    assert_eq!(retain_by_name(&stored, 1), vec![0]);
    assert_eq!(retain_by_name(&stored, 2), vec![0, 1]);
    assert_eq!(retain_by_name(&stored, 3), vec![2, 1, 3]);
    assert_eq!(retain_by_name(&stored, 4), vec![2, 1, 3]);
    assert_eq!(retain_by_name(&Vec::new(), 4), Vec::<usize>::new());
}

#[test]
fn names_are_compared_exactly() {
    let kept = trimmed(&[("a", "/1"), ("A", "/2"), ("a ", "/3"), ("", "/4"), ("", "/5")], 5)
        .unwrap();
    assert_eq!(kept, layouts(&[("a", "/1"), ("A", "/2"), ("a ", "/3"), ("", "/5")]));
}
