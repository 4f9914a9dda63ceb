//! The records of saved window layouts: a named tree of splits, whose leaves
//! are the documents shown and whose inner nodes say how their children are
//! laid out.

use crate::entries::{Selection, SelectionView, ViewPosition};
use crate::record::Record;
use crate::wire::{
    bool_bytes, lemma_bool_bytes_unique, lemma_occurs_at_concat, lemma_str_bytes_unique,
    lemma_u32_bytes_injective, lemma_u64_bytes_injective, occurs_at, put_bool, put_str, put_u32,
    put_u64, str_bytes, str_fits, take_bool, take_string, take_u32, take_u64, u32_bytes,
    u64_bytes,
};
use vstd::prelude::*;

verus! {

/// How the children of a split are laid out.
#[derive(Debug, Clone, Copy, PartialEq, Eq)]
pub enum Layout {
    Horizontal,
    Vertical,
}

/// An inner node of a layout: its children, side by side or one above the
/// other.
#[derive(Debug, PartialEq, Eq)]
pub struct SplitEntryNode {
    pub layout: Layout,
    pub children: Vec<SplitEntryTree>,
}

/// A document shown in a split.
#[derive(Debug, PartialEq, Eq)]
pub struct SplitEntryLeaf {
    /// The path of the document.
    pub path: String,
    /// Where its view stood.
    pub view_position: ViewPosition,
    pub selection: Selection,
    /// Whether this split had the focus.
    pub focus: bool,
}

/// A layout: a leaf, which may show no document, or a node with children.
#[derive(Debug, PartialEq, Eq)]
pub enum SplitEntryTree {
    Leaf(Option<SplitEntryLeaf>),
    Node(SplitEntryNode),
}

/// A saved layout under its name.
#[derive(Debug, PartialEq, Eq)]
pub struct SplitEntry {
    pub name: String,
    pub tree: SplitEntryTree,
}

/// The value of a [`SplitEntryLeaf`].
pub struct SplitEntryLeafView {
    pub path: Seq<char>,
    pub view_position: ViewPosition,
    pub selection: SelectionView,
    pub focus: bool,
}

/// The value of a [`SplitEntryNode`].
pub struct SplitEntryNodeView {
    pub layout: Layout,
    pub children: Seq<SplitEntryTreeView>,
}

/// The value of a [`SplitEntryTree`].
pub enum SplitEntryTreeView {
    Leaf(Option<SplitEntryLeafView>),
    Node(SplitEntryNodeView),
}

/// The value of a [`SplitEntry`].
pub struct SplitEntryView {
    pub name: Seq<char>,
    pub tree: SplitEntryTreeView,
}

impl View for SplitEntryLeaf {
    type V = SplitEntryLeafView;

    open spec fn view(&self) -> SplitEntryLeafView {
        SplitEntryLeafView {
            path: self.path@,
            view_position: self.view_position,
            selection: self.selection@,
            focus: self.focus,
        }
    }
}

/// The value of a tree.
pub open spec fn tree_view(tree: SplitEntryTree) -> SplitEntryTreeView
    decreases tree,
{
    match tree {
        SplitEntryTree::Leaf(None) => SplitEntryTreeView::Leaf(None),
        SplitEntryTree::Leaf(Some(leaf)) => SplitEntryTreeView::Leaf(Some(leaf@)),
        SplitEntryTree::Node(node) => SplitEntryTreeView::Node(
            SplitEntryNodeView { layout: node.layout, children: tree_views(node.children@) },
        ),
    }
}

/// The values of a list of trees, in order.
pub open spec fn tree_views(trees: Seq<SplitEntryTree>) -> Seq<SplitEntryTreeView>
    decreases trees,
{
    if trees.len() == 0 {
        Seq::empty()
    } else {
        tree_views(trees.drop_last()).push(tree_view(trees.last()))
    }
}

/// The values of a list of trees are the values of its trees, one for one.
pub proof fn lemma_tree_views(trees: Seq<SplitEntryTree>)
    ensures
        tree_views(trees).len() == trees.len(),
        forall|i: int|
            0 <= i < trees.len() ==> #[trigger] tree_views(trees)[i] == tree_view(trees[i]),
    decreases trees.len(),
{
    if trees.len() > 0 {
        lemma_tree_views(trees.drop_last());
    }
}

impl View for SplitEntryNode {
    type V = SplitEntryNodeView;

    open spec fn view(&self) -> SplitEntryNodeView {
        SplitEntryNodeView { layout: self.layout, children: tree_views(self.children@) }
    }
}

impl View for SplitEntryTree {
    type V = SplitEntryTreeView;

    open spec fn view(&self) -> SplitEntryTreeView {
        tree_view(*self)
    }
}

impl View for SplitEntry {
    type V = SplitEntryView;

    open spec fn view(&self) -> SplitEntryView {
        SplitEntryView { name: self.name@, tree: self.tree@ }
    }
}

/// The path of a leaf stands first, then its view position, its selection,
/// and its focus.
proof fn lemma_leaf_layout(s: Seq<u8>, at: int, v: SplitEntryLeafView)
    ensures
        SplitEntryLeaf::encoding(v).len() == str_bytes(v.path).len() + 24 + Selection::encoding(
            v.selection,
        ).len() + 1,
        occurs_at(s, at, SplitEntryLeaf::encoding(v)) <==> {
            &&& occurs_at(s, at, str_bytes(v.path))
            &&& occurs_at(s, at + str_bytes(v.path).len(), ViewPosition::encoding(v.view_position))
            &&& occurs_at(
                s,
                at + str_bytes(v.path).len() + 24,
                Selection::encoding(v.selection),
            )
            &&& occurs_at(
                s,
                at + str_bytes(v.path).len() + 24 + Selection::encoding(v.selection).len(),
                bool_bytes(v.focus),
            )
        },
{
    let path = str_bytes(v.path);
    let position = ViewPosition::encoding(v.view_position);
    let selection = Selection::encoding(v.selection);
    lemma_occurs_at_concat(s, at, path, position + (selection + bool_bytes(v.focus)));
    lemma_occurs_at_concat(s, at + path.len(), position, selection + bool_bytes(v.focus));
    lemma_occurs_at_concat(s, at + path.len() + 24, selection, bool_bytes(v.focus));
}

impl Record for SplitEntryLeaf {
    open spec fn representable(v: SplitEntryLeafView) -> bool {
        str_fits(v.path) && Selection::representable(v.selection)
    }

    open spec fn encoding(v: SplitEntryLeafView) -> Seq<u8> {
        str_bytes(v.path) + (ViewPosition::encoding(v.view_position) + (Selection::encoding(
            v.selection,
        ) + bool_bytes(v.focus)))
    }

    proof fn lemma_encoding_nonempty(v: SplitEntryLeafView) {
    }

    proof fn lemma_encoding_unique(
        s: Seq<u8>,
        at: int,
        a: SplitEntryLeafView,
        b: SplitEntryLeafView,
    ) {
        lemma_leaf_layout(s, at, a);
        lemma_leaf_layout(s, at, b);
        lemma_str_bytes_unique(s, at, a.path, b.path);
        let e1 = at + str_bytes(a.path).len();
        ViewPosition::lemma_encoding_unique(s, e1, a.view_position, b.view_position);
        Selection::lemma_encoding_unique(s, e1 + 24, a.selection, b.selection);
        let e3 = e1 + 24 + Selection::encoding(a.selection).len();
        lemma_bool_bytes_unique(s, e3, a.focus, b.focus);
    }

    fn encode(&self, out: &mut Vec<u8>) {
        put_str(out, self.path.as_str());
        self.view_position.encode(out);
        self.selection.encode(out);
        put_bool(out, self.focus);
    }

    fn decode(bytes: &[u8], at: usize) -> (r: Option<(Self, usize)>) {
        let (path, e1) = match take_string(bytes, at) {
            Some(found) => found,
            None => {
                assert forall|v: SplitEntryLeafView| Self::representable(v) implies !occurs_at(
                    bytes@,
                    at as int,
                    #[trigger] Self::encoding(v),
                ) by {
                    lemma_leaf_layout(bytes@, at as int, v);
                }
                return None;
            },
        };
        let (view_position, e2) = match ViewPosition::decode(bytes, e1) {
            Some(found) => found,
            None => {
                assert forall|v: SplitEntryLeafView| Self::representable(v) implies !occurs_at(
                    bytes@,
                    at as int,
                    #[trigger] Self::encoding(v),
                ) by {
                    lemma_leaf_layout(bytes@, at as int, v);
                    if occurs_at(bytes@, at as int, Self::encoding(v)) {
                        lemma_str_bytes_unique(bytes@, at as int, v.path, path@);
                    }
                }
                return None;
            },
        };
        let (selection, e3) = match Selection::decode(bytes, e2) {
            Some(found) => found,
            None => {
                assert forall|v: SplitEntryLeafView| Self::representable(v) implies !occurs_at(
                    bytes@,
                    at as int,
                    #[trigger] Self::encoding(v),
                ) by {
                    lemma_leaf_layout(bytes@, at as int, v);
                    if occurs_at(bytes@, at as int, Self::encoding(v)) {
                        lemma_str_bytes_unique(bytes@, at as int, v.path, path@);
                    }
                }
                return None;
            },
        };
        let (focus, e4) = match take_bool(bytes, e3) {
            Some(found) => found,
            None => {
                assert forall|v: SplitEntryLeafView| Self::representable(v) implies !occurs_at(
                    bytes@,
                    at as int,
                    #[trigger] Self::encoding(v),
                ) by {
                    lemma_leaf_layout(bytes@, at as int, v);
                    if occurs_at(bytes@, at as int, Self::encoding(v)) {
                        lemma_str_bytes_unique(bytes@, at as int, v.path, path@);
                        Selection::lemma_encoding_unique(
                            bytes@,
                            e2 as int,
                            v.selection,
                            selection@,
                        );
                    }
                }
                return None;
            },
        };
        let leaf = SplitEntryLeaf { path, view_position, selection, focus };
        proof {
            lemma_leaf_layout(bytes@, at as int, leaf@);
        }
        Some((leaf, e4))
    }
}

/// The number that stands for a layout.
pub open spec fn layout_tag(layout: Layout) -> u32 {
    match layout {
        Layout::Horizontal => 0,
        Layout::Vertical => 1,
    }
}

/// What a leaf shows: one byte that says whether it shows a document, and
/// then the document.
pub open spec fn shown_bytes(shown: Option<SplitEntryLeafView>) -> Seq<u8> {
    match shown {
        None => bool_bytes(false),
        Some(leaf) => bool_bytes(true) + SplitEntryLeaf::encoding(leaf),
    }
}

/// A tree as bytes. A leaf is the number 0 and what it shows. A node is the
/// number 1, its layout, the number of its children, and its children.
pub open spec fn tree_bytes(tree: SplitEntryTreeView) -> Seq<u8>
    decreases tree,
{
    match tree {
        SplitEntryTreeView::Leaf(shown) => u32_bytes(0) + shown_bytes(shown),
        SplitEntryTreeView::Node(node) => u32_bytes(1) + (u32_bytes(layout_tag(node.layout)) + (
        u64_bytes(node.children.len() as u64) + trees_bytes(node.children))),
    }
}

/// The trees of a list as bytes, one after the other.
pub open spec fn trees_bytes(trees: Seq<SplitEntryTreeView>) -> Seq<u8>
    decreases trees,
{
    if trees.len() == 0 {
        Seq::empty()
    } else {
        tree_bytes(trees.first()) + trees_bytes(trees.drop_first())
    }
}

/// The tree is small enough to be held in memory: so is each document it
/// shows, and no node has more children than a 64-bit integer counts.
pub open spec fn tree_fits(tree: SplitEntryTreeView) -> bool
    decreases tree,
{
    match tree {
        SplitEntryTreeView::Leaf(None) => true,
        SplitEntryTreeView::Leaf(Some(leaf)) => SplitEntryLeaf::representable(leaf),
        SplitEntryTreeView::Node(node) => node.children.len() <= u64::MAX && trees_fit(
            node.children,
        ),
    }
}

/// Each tree of the list fits.
pub open spec fn trees_fit(trees: Seq<SplitEntryTreeView>) -> bool
    decreases trees,
{
    trees.len() == 0 || (tree_fits(trees.first()) && trees_fit(trees.drop_first()))
}

/// The parts of a tree stand one behind the other.
proof fn lemma_tree_layout(s: Seq<u8>, at: int, tree: SplitEntryTreeView)
    ensures
        tree_bytes(tree).len() >= 5,
        match tree {
            SplitEntryTreeView::Leaf(None) => occurs_at(s, at, tree_bytes(tree)) <==> {
                &&& occurs_at(s, at, u32_bytes(0))
                &&& occurs_at(s, at + 4, bool_bytes(false))
            },
            SplitEntryTreeView::Leaf(Some(leaf)) => occurs_at(s, at, tree_bytes(tree)) <==> {
                &&& occurs_at(s, at, u32_bytes(0))
                &&& occurs_at(s, at + 4, bool_bytes(true))
                &&& occurs_at(s, at + 5, SplitEntryLeaf::encoding(leaf))
            },
            SplitEntryTreeView::Node(node) => occurs_at(s, at, tree_bytes(tree)) <==> {
                &&& occurs_at(s, at, u32_bytes(1))
                &&& occurs_at(s, at + 4, u32_bytes(layout_tag(node.layout)))
                &&& occurs_at(s, at + 8, u64_bytes(node.children.len() as u64))
                &&& occurs_at(s, at + 16, trees_bytes(node.children))
            },
        },
{
    match tree {
        SplitEntryTreeView::Leaf(None) => {
            lemma_occurs_at_concat(s, at, u32_bytes(0), bool_bytes(false));
        },
        SplitEntryTreeView::Leaf(Some(leaf)) => {
            lemma_occurs_at_concat(
                s,
                at,
                u32_bytes(0),
                bool_bytes(true) + SplitEntryLeaf::encoding(leaf),
            );
            lemma_occurs_at_concat(s, at + 4, bool_bytes(true), SplitEntryLeaf::encoding(leaf));
        },
        SplitEntryTreeView::Node(node) => {
            let layout = u32_bytes(layout_tag(node.layout));
            let count = u64_bytes(node.children.len() as u64);
            let children = trees_bytes(node.children);
            lemma_occurs_at_concat(s, at, u32_bytes(1), layout + (count + children));
            lemma_occurs_at_concat(s, at + 4, layout, count + children);
            lemma_occurs_at_concat(s, at + 8, count, children);
        },
    }
}

/// The bytes of two lists, one after the other, are the bytes of the lists
/// joined.
proof fn lemma_trees_bytes_concat(a: Seq<SplitEntryTreeView>, b: Seq<SplitEntryTreeView>)
    ensures
        trees_bytes(a + b) == trees_bytes(a) + trees_bytes(b),
        trees_fit(a + b) <==> trees_fit(a) && trees_fit(b),
    decreases a.len(),
{
    if a.len() == 0 {
    } else {
        lemma_trees_bytes_concat(a.drop_first(), b);
        assert((a + b).drop_first() =~= a.drop_first() + b);
    }
}

/// A list of one tree has the bytes of that tree.
proof fn lemma_trees_bytes_one(tree: SplitEntryTreeView)
    ensures
        trees_bytes(seq![tree]) == tree_bytes(tree),
        trees_fit(seq![tree]) <==> tree_fits(tree),
{
    let one = seq![tree];
    assert(trees_bytes(one.drop_first()) =~= Seq::<u8>::empty());
    assert(trees_fit(one.drop_first()));
}

/// At most one tree has its bytes at a given place.
pub proof fn lemma_tree_unique(
    s: Seq<u8>,
    at: int,
    a: SplitEntryTreeView,
    b: SplitEntryTreeView,
)
    requires
        tree_fits(a),
        tree_fits(b),
        occurs_at(s, at, tree_bytes(a)),
        occurs_at(s, at, tree_bytes(b)),
    ensures
        a == b,
    decreases a,
{
    lemma_tree_layout(s, at, a);
    lemma_tree_layout(s, at, b);
    assert(a is Leaf <==> b is Leaf) by {
        if (a is Leaf) != (b is Leaf) {
            lemma_u32_bytes_injective(0, 1);
        }
    }
    match (a, b) {
        (SplitEntryTreeView::Leaf(x), SplitEntryTreeView::Leaf(y)) => {
            assert(x is Some <==> y is Some) by {
                if (x is Some) != (y is Some) {
                    lemma_bool_bytes_unique(s, at + 4, true, false);
                }
            }
            if x is Some {
                SplitEntryLeaf::lemma_encoding_unique(s, at + 5, x->Some_0, y->Some_0);
            }
        },
        (SplitEntryTreeView::Node(x), SplitEntryTreeView::Node(y)) => {
            lemma_u32_bytes_injective(layout_tag(x.layout), layout_tag(y.layout));
            lemma_u64_bytes_injective(x.children.len() as u64, y.children.len() as u64);
            lemma_trees_agree(s, at + 16, x.children, y.children);
            assert(y.children.take(x.children.len() as int) =~= y.children);
        },
        _ => {},
    }
}

/// Two lists of trees whose bytes stand at the same place agree as far as
/// the shorter one goes.
pub proof fn lemma_trees_agree(
    s: Seq<u8>,
    at: int,
    a: Seq<SplitEntryTreeView>,
    b: Seq<SplitEntryTreeView>,
)
    requires
        trees_fit(a),
        trees_fit(b),
        occurs_at(s, at, trees_bytes(a)),
        occurs_at(s, at, trees_bytes(b)),
        a.len() <= b.len(),
    ensures
        b.take(a.len() as int) == a,
    decreases a,
{
    if a.len() == 0 {
    } else {
        lemma_occurs_at_concat(s, at, tree_bytes(a.first()), trees_bytes(a.drop_first()));
        lemma_occurs_at_concat(s, at, tree_bytes(b.first()), trees_bytes(b.drop_first()));
        lemma_tree_unique(s, at, a.first(), b.first());
        lemma_trees_agree(
            s,
            at + tree_bytes(a.first()).len(),
            a.drop_first(),
            b.drop_first(),
        );
        assert(b.take(a.len() as int) =~= a) by {
            assert forall|i: int| 0 <= i < a.len() implies b[i] == a[i] by {
                if i > 0 {
                    assert(b.drop_first().take(a.len() - 1)[i - 1] == a.drop_first()[i - 1]);
                }
            }
        }
    }
}

/// Appends the number that stands for the layout.
fn put_layout(out: &mut Vec<u8>, layout: Layout)
    ensures
        final(out)@ == old(out)@ + u32_bytes(layout_tag(layout)),
{
    match layout {
        Layout::Horizontal => put_u32(out, 0),
        Layout::Vertical => put_u32(out, 1),
    }
}

/// Reads the layout whose number stands at `at`. There is none when the
/// number is cut short or stands for no layout.
fn take_layout(bytes: &[u8], at: usize) -> (r: Option<(Layout, usize)>)
    ensures
        match r {
            Some((layout, end)) => end == at + 4 <= bytes@.len() && occurs_at(
                bytes@,
                at as int,
                u32_bytes(layout_tag(layout)),
            ),
            None => forall|layout: Layout|
                !occurs_at(bytes@, at as int, #[trigger] u32_bytes(layout_tag(layout))),
        },
{
    match take_u32(bytes, at) {
        None => None,
        Some((tag, end)) => {
            proof {
                assert forall|layout: Layout|
                    occurs_at(
                        bytes@,
                        at as int,
                        #[trigger] u32_bytes(layout_tag(layout)),
                    ) implies layout_tag(layout) == tag by {
                    lemma_u32_bytes_injective(layout_tag(layout), tag);
                }
            }
            if tag == 0 {
                Some((Layout::Horizontal, end))
            } else if tag == 1 {
                Some((Layout::Vertical, end))
            } else {
                None
            }
        },
    }
}

/// Appends the bytes of the tree.
pub fn put_tree(out: &mut Vec<u8>, tree: &SplitEntryTree)
    ensures
        tree_fits(tree@),
        final(out)@ == old(out)@ + tree_bytes(tree@),
    decreases tree,
{
    match tree {
        SplitEntryTree::Leaf(None) => {
            put_u32(out, 0);
            put_bool(out, false);
        },
        SplitEntryTree::Leaf(Some(leaf)) => {
            put_u32(out, 0);
            put_bool(out, true);
            leaf.encode(out);
        },
        SplitEntryTree::Node(node) => {
            put_u32(out, 1);
            put_layout(out, node.layout);
            put_u64(out, node.children.len() as u64);
            let ghost start = out@;
            let ghost children = tree_views(node.children@);
            proof {
                lemma_tree_views(node.children@);
            }
            let mut i: usize = 0;
            while i < node.children.len()
                invariant
                    *tree == SplitEntryTree::Node(*node),
                    children == tree_views(node.children@),
                    children.len() == node.children@.len(),
                    i <= node.children@.len(),
                    trees_fit(children.take(i as int)),
                    out@ == start + trees_bytes(children.take(i as int)),
                decreases node.children@.len() - i,
            {
                proof {
                    // The child is a part of the tree.
                    assert(decreases_to!(*tree => tree->Node_0.children[i as int]));
                }
                put_tree(out, &node.children[i]);
                proof {
                    lemma_tree_views(node.children@);
                    let child = seq![children[i as int]];
                    assert(children.take(i + 1) =~= children.take(i as int) + child);
                    lemma_trees_bytes_one(children[i as int]);
                    lemma_trees_bytes_concat(children.take(i as int), child);
                }
                i += 1;
            }
            proof {
                assert(children.take(i as int) =~= children);
            }
        },
    }
}

/// Reads the tree whose bytes stand at `at`, and says where it ends. There
/// is none exactly when no tree has its bytes there.
pub fn take_tree(bytes: &[u8], at: usize) -> (r: Option<(SplitEntryTree, usize)>)
    ensures
        match r {
            Some((tree, end)) => {
                &&& tree_fits(tree@)
                &&& occurs_at(bytes@, at as int, tree_bytes(tree@))
                &&& end == at + tree_bytes(tree@).len() <= bytes@.len()
            },
            None => forall|tree: SplitEntryTreeView|
                tree_fits(tree) ==> !occurs_at(bytes@, at as int, #[trigger] tree_bytes(tree)),
        },
    decreases bytes@.len() - at, 0int,
{
    proof {
        // What any tree standing here must look like.
        assert forall|tree: SplitEntryTreeView| #[trigger]
            occurs_at(bytes@, at as int, tree_bytes(tree)) implies match tree {
            SplitEntryTreeView::Leaf(None) => {
                &&& occurs_at(bytes@, at as int, u32_bytes(0))
                &&& occurs_at(bytes@, at + 4, bool_bytes(false))
            },
            SplitEntryTreeView::Leaf(Some(leaf)) => {
                &&& occurs_at(bytes@, at as int, u32_bytes(0))
                &&& occurs_at(bytes@, at + 4, bool_bytes(true))
                &&& occurs_at(bytes@, at + 5, SplitEntryLeaf::encoding(leaf))
            },
            SplitEntryTreeView::Node(node) => {
                &&& occurs_at(bytes@, at as int, u32_bytes(1))
                &&& occurs_at(bytes@, at + 4, u32_bytes(layout_tag(node.layout)))
                &&& occurs_at(bytes@, at + 8, u64_bytes(node.children.len() as u64))
                &&& occurs_at(bytes@, at + 16, trees_bytes(node.children))
            },
        } by {
            lemma_tree_layout(bytes@, at as int, tree);
        }
    }
    let (tag, e1) = match take_u32(bytes, at) {
        Some(found) => found,
        None => {
            return None;
        },
    };
    proof {
        if occurs_at(bytes@, at as int, u32_bytes(0)) {
            lemma_u32_bytes_injective(tag, 0);
        }
        if occurs_at(bytes@, at as int, u32_bytes(1)) {
            lemma_u32_bytes_injective(tag, 1);
        }
    }
    if tag == 0 {
        let (some, e2) = match take_bool(bytes, e1) {
            Some(found) => found,
            None => {
                return None;
            },
        };
        proof {
            if occurs_at(bytes@, e1 as int, bool_bytes(!some)) {
                lemma_bool_bytes_unique(bytes@, e1 as int, some, !some);
            }
        }
        if some {
            match SplitEntryLeaf::decode(bytes, e2) {
                None => None,
                Some((leaf, e3)) => {
                    let tree = SplitEntryTree::Leaf(Some(leaf));
                    proof {
                        lemma_tree_layout(bytes@, at as int, tree@);
                    }
                    Some((tree, e3))
                },
            }
        } else {
            let tree = SplitEntryTree::Leaf(None);
            proof {
                lemma_tree_layout(bytes@, at as int, tree@);
            }
            Some((tree, e2))
        }
    } else if tag == 1 {
        let (layout, e2) = match take_layout(bytes, e1) {
            Some(found) => found,
            None => {
                return None;
            },
        };
        let (count, e3) = match take_u64(bytes, e2) {
            Some(found) => found,
            None => {
                return None;
            },
        };
        proof {
            assert forall|tree: SplitEntryTreeView| #[trigger]
                occurs_at(bytes@, at as int, tree_bytes(tree)) implies {
                &&& tree is Node
                &&& tree->Node_0.children.len() as u64 == count
            } by {
                lemma_u64_bytes_injective(tree->Node_0.children.len() as u64, count);
            }
        }
        match take_trees(bytes, e3, count) {
            None => None,
            Some((children, e4)) => {
                let tree = SplitEntryTree::Node(SplitEntryNode { layout, children });
                proof {
                    lemma_tree_views(children@);
                    lemma_tree_layout(bytes@, at as int, tree@);
                }
                Some((tree, e4))
            },
        }
    } else {
        None
    }
}

/// Reads the `count` trees whose bytes stand one after the other from `at`
/// on, and says where the last one ends. There are none exactly when no list
/// of `count` trees has its bytes there.
fn take_trees(bytes: &[u8], at: usize, count: u64) -> (r: Option<(Vec<SplitEntryTree>, usize)>)
    requires
        at <= bytes@.len(),
    ensures
        match r {
            Some((trees, end)) => {
                &&& trees@.len() == count
                &&& trees_fit(tree_views(trees@))
                &&& occurs_at(bytes@, at as int, trees_bytes(tree_views(trees@)))
                &&& end == at + trees_bytes(tree_views(trees@)).len() <= bytes@.len()
            },
            None => forall|trees: Seq<SplitEntryTreeView>|
                trees.len() == count && trees_fit(trees) ==> !occurs_at(
                    bytes@,
                    at as int,
                    #[trigger] trees_bytes(trees),
                ),
        },
    decreases bytes@.len() - at, 1int,
{
    let mut trees: Vec<SplitEntryTree> = Vec::new();
    let mut end: usize = at;
    let mut i: u64 = 0;
    proof {
        assert(bytes@.subrange(at as int, at + 0) =~= Seq::<u8>::empty());
    }
    while i < count
        invariant
            i <= count,
            trees@.len() == i,
            at <= end <= bytes@.len(),
            trees_fit(tree_views(trees@)),
            occurs_at(bytes@, at as int, trees_bytes(tree_views(trees@))),
            end == at + trees_bytes(tree_views(trees@)).len(),
        decreases count - i,
    {
        match take_tree(bytes, end) {
            None => {
                assert forall|all: Seq<SplitEntryTreeView>|
                    all.len() == count && trees_fit(all) implies !occurs_at(
                    bytes@,
                    at as int,
                    #[trigger] trees_bytes(all),
                ) by {
                    if occurs_at(bytes@, at as int, trees_bytes(all)) {
                        let done = tree_views(trees@);
                        lemma_tree_views(trees@);
                        lemma_trees_agree(bytes@, at as int, done, all);
                        let rest = all.skip(i as int);
                        assert(all.take(i as int) + rest =~= all);
                        lemma_trees_bytes_concat(all.take(i as int), rest);
                        lemma_occurs_at_concat(
                            bytes@,
                            at as int,
                            trees_bytes(done),
                            trees_bytes(rest),
                        );
                        lemma_occurs_at_concat(
                            bytes@,
                            end as int,
                            tree_bytes(rest.first()),
                            trees_bytes(rest.drop_first()),
                        );
                    }
                }
                return None;
            },
            Some((tree, next)) => {
                proof {
                    let before = tree_views(trees@);
                    let child = seq![tree@];
                    lemma_tree_views(trees@);
                    lemma_tree_views(trees@.push(tree));
                    assert(tree_views(trees@.push(tree)) =~= before + child);
                    lemma_trees_bytes_one(tree@);
                    lemma_trees_bytes_concat(before, child);
                    lemma_occurs_at_concat(
                        bytes@,
                        at as int,
                        trees_bytes(before),
                        tree_bytes(tree@),
                    );
                }
                trees.push(tree);
                end = next;
                i += 1;
            },
        }
    }
    Some((trees, end))
}

/// The name of a saved layout stands first and its tree behind it.
proof fn lemma_split_entry_layout(s: Seq<u8>, at: int, v: SplitEntryView)
    ensures
        SplitEntry::encoding(v).len() == str_bytes(v.name).len() + tree_bytes(v.tree).len(),
        SplitEntry::encoding(v).len() >= 5,
        occurs_at(s, at, SplitEntry::encoding(v)) <==> {
            &&& occurs_at(s, at, str_bytes(v.name))
            &&& occurs_at(s, at + str_bytes(v.name).len(), tree_bytes(v.tree))
        },
{
    lemma_occurs_at_concat(s, at, str_bytes(v.name), tree_bytes(v.tree));
}

impl Record for SplitEntry {
    open spec fn representable(v: SplitEntryView) -> bool {
        str_fits(v.name) && tree_fits(v.tree)
    }

    open spec fn encoding(v: SplitEntryView) -> Seq<u8> {
        str_bytes(v.name) + tree_bytes(v.tree)
    }

    proof fn lemma_encoding_nonempty(v: SplitEntryView) {
    }

    proof fn lemma_encoding_unique(s: Seq<u8>, at: int, a: SplitEntryView, b: SplitEntryView) {
        lemma_split_entry_layout(s, at, a);
        lemma_split_entry_layout(s, at, b);
        lemma_str_bytes_unique(s, at, a.name, b.name);
        lemma_tree_unique(s, at + str_bytes(a.name).len(), a.tree, b.tree);
    }

    fn encode(&self, out: &mut Vec<u8>) {
        put_str(out, self.name.as_str());
        put_tree(out, &self.tree);
    }

    fn decode(bytes: &[u8], at: usize) -> (r: Option<(Self, usize)>) {
        let (name, e1) = match take_string(bytes, at) {
            Some(found) => found,
            None => {
                assert forall|v: SplitEntryView| Self::representable(v) implies !occurs_at(
                    bytes@,
                    at as int,
                    #[trigger] Self::encoding(v),
                ) by {
                    lemma_split_entry_layout(bytes@, at as int, v);
                }
                return None;
            },
        };
        let (tree, e2) = match take_tree(bytes, e1) {
            Some(found) => found,
            None => {
                assert forall|v: SplitEntryView| Self::representable(v) implies !occurs_at(
                    bytes@,
                    at as int,
                    #[trigger] Self::encoding(v),
                ) by {
                    lemma_split_entry_layout(bytes@, at as int, v);
                    if occurs_at(bytes@, at as int, Self::encoding(v)) {
                        lemma_str_bytes_unique(bytes@, at as int, v.name, name@);
                    }
                }
                return None;
            },
        };
        let entry = SplitEntry { name, tree };
        proof {
            lemma_split_entry_layout(bytes@, at as int, entry@);
        }
        Some((entry, e2))
    }
}

impl Clone for SplitEntryLeaf {
    fn clone(&self) -> (copy: Self)
        ensures
            copy@ == self@,
    {
        SplitEntryLeaf {
            path: self.path.clone(),
            view_position: self.view_position,
            selection: self.selection.clone(),
            focus: self.focus,
        }
    }
}

impl Clone for SplitEntryTree {
    fn clone(&self) -> (copy: Self)
        ensures
            copy@ == self@,
        decreases self,
    {
        match self {
            SplitEntryTree::Leaf(None) => SplitEntryTree::Leaf(None),
            SplitEntryTree::Leaf(Some(leaf)) => SplitEntryTree::Leaf(Some(leaf.clone())),
            SplitEntryTree::Node(node) => {
                let mut children: Vec<SplitEntryTree> = Vec::new();
                let mut i: usize = 0;
                while i < node.children.len()
                    invariant
                        *self == SplitEntryTree::Node(*node),
                        i <= node.children@.len(),
                        children@.len() == i,
                        forall|k: int| 0 <= k < i ==> children@[k]@ == node.children@[k]@,
                    decreases node.children@.len() - i,
                {
                    proof {
                        assert(decreases_to!(*self => self->Node_0.children[i as int]));
                    }
                    children.push(node.children[i].clone());
                    i += 1;
                }
                proof {
                    lemma_tree_views(children@);
                    lemma_tree_views(node.children@);
                    assert(tree_views(children@) =~= tree_views(node.children@));
                }
                SplitEntryTree::Node(SplitEntryNode { layout: node.layout, children })
            },
        }
    }
}

impl Clone for SplitEntryNode {
    fn clone(&self) -> (copy: Self)
        ensures
            copy@ == self@,
    {
        let mut children: Vec<SplitEntryTree> = Vec::new();
        let mut i: usize = 0;
        while i < self.children.len()
            invariant
                i <= self.children@.len(),
                children@.len() == i,
                forall|k: int| 0 <= k < i ==> children@[k]@ == self.children@[k]@,
            decreases self.children@.len() - i,
        {
            children.push(self.children[i].clone());
            i += 1;
        }
        proof {
            lemma_tree_views(children@);
            lemma_tree_views(self.children@);
            assert(tree_views(children@) =~= tree_views(self.children@));
        }
        SplitEntryNode { layout: self.layout, children }
    }
}

impl Clone for SplitEntry {
    fn clone(&self) -> (copy: Self)
        ensures
            copy@ == self@,
    {
        SplitEntry { name: self.name.clone(), tree: self.tree.clone() }
    }
}

} // verus!
