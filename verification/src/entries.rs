//! The records of the file history: where the view of a file stood and what
//! was selected in it when the file was last left.

use crate::record::Record;
use crate::sequence::{
    counted_bytes, counted_fits, lemma_counted_unique, put_counted, take_counted, views,
};
use crate::wire::{
    lemma_occurs_at_concat, lemma_str_bytes_unique, lemma_usize_bytes_unique, occurs_at, put_str,
    put_usize, str_bytes, str_fits, take_string, take_usize, usize_bytes,
};
use vstd::prelude::*;

verus! {

/// Where the view of a document stands: the character at its upper left
/// corner, and how far it is scrolled sideways and within a wrapped line.
#[derive(Clone, Copy, Debug, PartialEq, Eq)]
pub struct ViewPosition {
    pub anchor: usize,
    pub horizontal_offset: usize,
    pub vertical_offset: usize,
}

impl View for ViewPosition {
    type V = ViewPosition;

    open spec fn view(&self) -> ViewPosition {
        *self
    }
}

/// The three integers of a view position stand one behind the other.
proof fn lemma_view_position_layout(s: Seq<u8>, at: int, v: ViewPosition)
    ensures
        ViewPosition::encoding(v).len() == 24,
        occurs_at(s, at, ViewPosition::encoding(v)) <==> {
            &&& occurs_at(s, at, usize_bytes(v.anchor))
            &&& occurs_at(s, at + 8, usize_bytes(v.horizontal_offset))
            &&& occurs_at(s, at + 16, usize_bytes(v.vertical_offset))
        },
{
    lemma_occurs_at_concat(
        s,
        at,
        usize_bytes(v.anchor),
        usize_bytes(v.horizontal_offset) + usize_bytes(v.vertical_offset),
    );
    lemma_occurs_at_concat(
        s,
        at + 8,
        usize_bytes(v.horizontal_offset),
        usize_bytes(v.vertical_offset),
    );
}

impl Record for ViewPosition {
    open spec fn representable(v: ViewPosition) -> bool {
        true
    }

    open spec fn encoding(v: ViewPosition) -> Seq<u8> {
        usize_bytes(v.anchor) + (usize_bytes(v.horizontal_offset) + usize_bytes(v.vertical_offset))
    }

    proof fn lemma_encoding_nonempty(v: ViewPosition) {
    }

    proof fn lemma_encoding_unique(s: Seq<u8>, at: int, a: ViewPosition, b: ViewPosition) {
        lemma_view_position_layout(s, at, a);
        lemma_view_position_layout(s, at, b);
        lemma_usize_bytes_unique(s, at, a.anchor, b.anchor);
        lemma_usize_bytes_unique(s, at + 8, a.horizontal_offset, b.horizontal_offset);
        lemma_usize_bytes_unique(s, at + 16, a.vertical_offset, b.vertical_offset);
    }

    fn encode(&self, out: &mut Vec<u8>) {
        put_usize(out, self.anchor);
        put_usize(out, self.horizontal_offset);
        put_usize(out, self.vertical_offset);
    }

    fn decode(bytes: &[u8], at: usize) -> (r: Option<(Self, usize)>) {
        proof {
            assert forall|v: ViewPosition| #[trigger]
                occurs_at(bytes@, at as int, Self::encoding(v)) implies {
                &&& occurs_at(bytes@, at as int, usize_bytes(v.anchor))
                &&& occurs_at(bytes@, at + 8, usize_bytes(v.horizontal_offset))
                &&& occurs_at(bytes@, at + 16, usize_bytes(v.vertical_offset))
            } by {
                lemma_view_position_layout(bytes@, at as int, v);
            }
        }
        let (anchor, e1) = match take_usize(bytes, at) {
            Some(found) => found,
            None => {
                return None;
            },
        };
        let (horizontal_offset, e2) = match take_usize(bytes, e1) {
            Some(found) => found,
            None => {
                return None;
            },
        };
        let (vertical_offset, e3) = match take_usize(bytes, e2) {
            Some(found) => found,
            None => {
                return None;
            },
        };
        let position = ViewPosition { anchor, horizontal_offset, vertical_offset };
        proof {
            lemma_view_position_layout(bytes@, at as int, position);
        }
        Some((position, e3))
    }
}

/// One selected stretch of text, from `anchor` to `head`; the cursor is at
/// `head`.
#[derive(Clone, Copy, Debug, PartialEq, Eq)]
pub struct Range {
    pub anchor: usize,
    pub head: usize,
}

impl View for Range {
    type V = Range;

    open spec fn view(&self) -> Range {
        *self
    }
}

/// The two integers of a range stand one behind the other.
proof fn lemma_range_layout(s: Seq<u8>, at: int, v: Range)
    ensures
        Range::encoding(v).len() == 16,
        occurs_at(s, at, Range::encoding(v)) <==> {
            &&& occurs_at(s, at, usize_bytes(v.anchor))
            &&& occurs_at(s, at + 8, usize_bytes(v.head))
        },
{
    lemma_occurs_at_concat(s, at, usize_bytes(v.anchor), usize_bytes(v.head));
}

impl Record for Range {
    open spec fn representable(v: Range) -> bool {
        true
    }

    open spec fn encoding(v: Range) -> Seq<u8> {
        usize_bytes(v.anchor) + usize_bytes(v.head)
    }

    proof fn lemma_encoding_nonempty(v: Range) {
    }

    proof fn lemma_encoding_unique(s: Seq<u8>, at: int, a: Range, b: Range) {
        lemma_range_layout(s, at, a);
        lemma_range_layout(s, at, b);
        lemma_usize_bytes_unique(s, at, a.anchor, b.anchor);
        lemma_usize_bytes_unique(s, at + 8, a.head, b.head);
    }

    fn encode(&self, out: &mut Vec<u8>) {
        put_usize(out, self.anchor);
        put_usize(out, self.head);
    }

    fn decode(bytes: &[u8], at: usize) -> (r: Option<(Self, usize)>) {
        proof {
            assert forall|v: Range| #[trigger]
                occurs_at(bytes@, at as int, Self::encoding(v)) implies {
                &&& occurs_at(bytes@, at as int, usize_bytes(v.anchor))
                &&& occurs_at(bytes@, at + 8, usize_bytes(v.head))
            } by {
                lemma_range_layout(bytes@, at as int, v);
            }
        }
        let (anchor, e1) = match take_usize(bytes, at) {
            Some(found) => found,
            None => {
                return None;
            },
        };
        let (head, e2) = match take_usize(bytes, e1) {
            Some(found) => found,
            None => {
                return None;
            },
        };
        let range = Range { anchor, head };
        proof {
            lemma_range_layout(bytes@, at as int, range);
        }
        Some((range, e2))
    }
}

/// What is selected in a document: one or more ranges, one of which is the
/// primary one.
#[derive(Debug, PartialEq, Eq)]
pub struct Selection {
    pub ranges: Vec<Range>,
    pub primary_index: usize,
}

/// The value of a [`Selection`].
pub struct SelectionView {
    pub ranges: Seq<Range>,
    pub primary_index: usize,
}

impl View for Selection {
    type V = SelectionView;

    open spec fn view(&self) -> SelectionView {
        SelectionView { ranges: self.ranges@, primary_index: self.primary_index }
    }
}

impl Clone for Selection {
    fn clone(&self) -> (copy: Self)
        ensures
            copy@ == self@,
    {
        let ranges = self.ranges.clone();
        Selection { ranges, primary_index: self.primary_index }
    }
}

/// The ranges of a selection stand first, counted, and its primary index
/// behind them.
proof fn lemma_selection_layout(s: Seq<u8>, at: int, v: SelectionView)
    ensures
        Selection::encoding(v).len() == counted_bytes::<Range>(v.ranges).len() + 8,
        occurs_at(s, at, Selection::encoding(v)) <==> {
            &&& occurs_at(s, at, counted_bytes::<Range>(v.ranges))
            &&& occurs_at(
                s,
                at + counted_bytes::<Range>(v.ranges).len(),
                usize_bytes(v.primary_index),
            )
        },
{
    lemma_occurs_at_concat(
        s,
        at,
        counted_bytes::<Range>(v.ranges),
        usize_bytes(v.primary_index),
    );
}

impl Record for Selection {
    open spec fn representable(v: SelectionView) -> bool {
        counted_fits::<Range>(v.ranges)
    }

    open spec fn encoding(v: SelectionView) -> Seq<u8> {
        counted_bytes::<Range>(v.ranges) + usize_bytes(v.primary_index)
    }

    proof fn lemma_encoding_nonempty(v: SelectionView) {
    }

    proof fn lemma_encoding_unique(s: Seq<u8>, at: int, a: SelectionView, b: SelectionView) {
        lemma_selection_layout(s, at, a);
        lemma_selection_layout(s, at, b);
        lemma_counted_unique::<Range>(s, at, a.ranges, b.ranges);
        lemma_usize_bytes_unique(
            s,
            at + counted_bytes::<Range>(a.ranges).len(),
            a.primary_index,
            b.primary_index,
        );
    }

    fn encode(&self, out: &mut Vec<u8>) {
        assert(views(self.ranges@) =~= self.ranges@);
        put_counted(out, &self.ranges);
        put_usize(out, self.primary_index);
    }

    fn decode(bytes: &[u8], at: usize) -> (r: Option<(Self, usize)>) {
        let (ranges, e1) = match take_counted::<Range>(bytes, at) {
            Some(found) => found,
            None => {
                assert forall|v: SelectionView| Self::representable(v) implies !occurs_at(
                    bytes@,
                    at as int,
                    #[trigger] Self::encoding(v),
                ) by {
                    lemma_selection_layout(bytes@, at as int, v);
                }
                return None;
            },
        };
        assert(views(ranges@) =~= ranges@);
        let (primary_index, e2) = match take_usize(bytes, e1) {
            Some(found) => found,
            None => {
                assert forall|v: SelectionView| Self::representable(v) implies !occurs_at(
                    bytes@,
                    at as int,
                    #[trigger] Self::encoding(v),
                ) by {
                    lemma_selection_layout(bytes@, at as int, v);
                    if occurs_at(bytes@, at as int, Self::encoding(v)) {
                        lemma_counted_unique::<Range>(bytes@, at as int, v.ranges, ranges@);
                    }
                }
                return None;
            },
        };
        let selection = Selection { ranges, primary_index };
        proof {
            lemma_selection_layout(bytes@, at as int, selection@);
        }
        Some((selection, e2))
    }
}

/// What the file history remembers of one file: its path, where the view
/// stood, and what was selected.
#[derive(Debug, PartialEq, Eq)]
pub struct FileHistoryEntry {
    pub path: String,
    pub view_position: ViewPosition,
    pub selection: Selection,
}

/// The value of a [`FileHistoryEntry`].
pub struct FileHistoryEntryView {
    pub path: Seq<char>,
    pub view_position: ViewPosition,
    pub selection: SelectionView,
}

impl View for FileHistoryEntry {
    type V = FileHistoryEntryView;

    open spec fn view(&self) -> FileHistoryEntryView {
        FileHistoryEntryView {
            path: self.path@,
            view_position: self.view_position,
            selection: self.selection@,
        }
    }
}

impl Clone for FileHistoryEntry {
    fn clone(&self) -> (copy: Self)
        ensures
            copy@ == self@,
    {
        FileHistoryEntry {
            path: self.path.clone(),
            view_position: self.view_position,
            selection: self.selection.clone(),
        }
    }
}

impl FileHistoryEntry {
    pub fn new(path: String, view_position: ViewPosition, selection: Selection) -> (entry: Self)
        ensures
            entry.path == path,
            entry.view_position == view_position,
            entry.selection == selection,
    {
        Self { path, view_position, selection }
    }
}

/// The path of an entry stands first, its view position behind it, and its
/// selection last.
proof fn lemma_file_entry_layout(s: Seq<u8>, at: int, v: FileHistoryEntryView)
    ensures
        FileHistoryEntry::encoding(v).len() == str_bytes(v.path).len() + 24 + Selection::encoding(
            v.selection,
        ).len(),
        occurs_at(s, at, FileHistoryEntry::encoding(v)) <==> {
            &&& occurs_at(s, at, str_bytes(v.path))
            &&& occurs_at(s, at + str_bytes(v.path).len(), ViewPosition::encoding(v.view_position))
            &&& occurs_at(
                s,
                at + str_bytes(v.path).len() + 24,
                Selection::encoding(v.selection),
            )
        },
{
    lemma_occurs_at_concat(
        s,
        at,
        str_bytes(v.path),
        ViewPosition::encoding(v.view_position) + Selection::encoding(v.selection),
    );
    lemma_occurs_at_concat(
        s,
        at + str_bytes(v.path).len(),
        ViewPosition::encoding(v.view_position),
        Selection::encoding(v.selection),
    );
}

impl Record for FileHistoryEntry {
    open spec fn representable(v: FileHistoryEntryView) -> bool {
        str_fits(v.path) && Selection::representable(v.selection)
    }

    open spec fn encoding(v: FileHistoryEntryView) -> Seq<u8> {
        str_bytes(v.path) + (ViewPosition::encoding(v.view_position) + Selection::encoding(
            v.selection,
        ))
    }

    proof fn lemma_encoding_nonempty(v: FileHistoryEntryView) {
    }

    proof fn lemma_encoding_unique(
        s: Seq<u8>,
        at: int,
        a: FileHistoryEntryView,
        b: FileHistoryEntryView,
    ) {
        lemma_file_entry_layout(s, at, a);
        lemma_file_entry_layout(s, at, b);
        lemma_str_bytes_unique(s, at, a.path, b.path);
        let e1 = at + str_bytes(a.path).len();
        ViewPosition::lemma_encoding_unique(s, e1, a.view_position, b.view_position);
        Selection::lemma_encoding_unique(s, e1 + 24, a.selection, b.selection);
    }

    fn encode(&self, out: &mut Vec<u8>) {
        put_str(out, self.path.as_str());
        self.view_position.encode(out);
        self.selection.encode(out);
    }

    fn decode(bytes: &[u8], at: usize) -> (r: Option<(Self, usize)>) {
        let (path, e1) = match take_string(bytes, at) {
            Some(found) => found,
            None => {
                assert forall|v: FileHistoryEntryView| Self::representable(v) implies !occurs_at(
                    bytes@,
                    at as int,
                    #[trigger] Self::encoding(v),
                ) by {
                    lemma_file_entry_layout(bytes@, at as int, v);
                }
                return None;
            },
        };
        let (view_position, e2) = match ViewPosition::decode(bytes, e1) {
            Some(found) => found,
            None => {
                assert forall|v: FileHistoryEntryView| Self::representable(v) implies !occurs_at(
                    bytes@,
                    at as int,
                    #[trigger] Self::encoding(v),
                ) by {
                    lemma_file_entry_layout(bytes@, at as int, v);
                    if occurs_at(bytes@, at as int, Self::encoding(v)) {
                        lemma_str_bytes_unique(bytes@, at as int, v.path, path@);
                    }
                }
                return None;
            },
        };
        let (selection, e3) = match Selection::decode(bytes, e2) {
            Some(found) => found,
            None => {
                assert forall|v: FileHistoryEntryView| Self::representable(v) implies !occurs_at(
                    bytes@,
                    at as int,
                    #[trigger] Self::encoding(v),
                ) by {
                    lemma_file_entry_layout(bytes@, at as int, v);
                    if occurs_at(bytes@, at as int, Self::encoding(v)) {
                        lemma_str_bytes_unique(bytes@, at as int, v.path, path@);
                    }
                }
                return None;
            },
        };
        let entry = FileHistoryEntry { path, view_position, selection };
        proof {
            lemma_file_entry_layout(bytes@, at as int, entry@);
        }
        Some((entry, e3))
    }
}

} // verus!
