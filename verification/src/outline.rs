//! Building a document from its outline: the nodes in document order, each
//! with the level at which it stands.

use crate::order::{
    lemma_child_on_last_branch, lemma_last_branch_kept, lemma_last_branch_reaches_child,
    on_last_branch,
};
use crate::traverse::flatten;
use crate::tree::{
    lemma_with_child_well_formed, well_formed, with_child, DataView, Document, NodeData,
    NodeModel,
};
use vstd::prelude::*;

verus! {

/// One node of an outline. The root stands at level 1, its children at
/// level 2, and so on.
#[derive(Clone, Debug, PartialEq, Eq)]
pub struct OutlineEntry {
    /// The number of nodes on the way from the root to this node, both counted.
    pub level: usize,
    /// What the node carries.
    pub data: NodeData,
}

/// The mathematical value of an [`OutlineEntry`].
pub struct EntryView {
    pub level: usize,
    pub data: DataView,
}

impl View for OutlineEntry {
    type V = EntryView;

    open spec fn view(&self) -> EntryView {
        EntryView { level: self.level, data: self.data@ }
    }
}

/// Why a list of entries is not the outline of a tree.
#[derive(Clone, Copy, Debug, PartialEq, Eq, Structural)]
pub enum OutlineError {
    /// There is no entry, so there is no root.
    Empty,
    /// The entry at this position is the first that stands at a level where
    /// no node can stand: a first entry that is not at level 1, or a later
    /// one at level 1 or more than one level below the entry before it.
    Level(usize),
}

/// The views of a list of entries.
pub open spec fn outline_view(entries: Seq<OutlineEntry>) -> Seq<EntryView> {
    entries.map_values(|entry: OutlineEntry| entry@)
}

/// The entry at position `i` stands at a level where a node can stand.
pub open spec fn level_fits(outline: Seq<EntryView>, i: int) -> bool {
    if i == 0 {
        outline[0].level == 1
    } else {
        2 <= outline[i].level <= outline[i - 1].level + 1
    }
}

/// The entries are the pre-order outline of a tree.
pub open spec fn is_outline(outline: Seq<EntryView>) -> bool {
    outline.len() >= 1 && forall|i: int| 0 <= i < outline.len() ==> level_fits(outline, i)
}

/// The position of the last entry at `level` among the entries up to and
/// including `from`; -1 when there is none.
pub open spec fn nearest_at(outline: Seq<EntryView>, from: int, level: int) -> int
    decreases from + 1,
{
    if from < 0 || from >= outline.len() {
        -1
    } else if outline[from].level == level {
        from
    } else {
        nearest_at(outline, from - 1, level)
    }
}

/// The parent of the entry at position `i`: the nearest entry before it
/// that stands one level higher.
pub open spec fn outline_parent(outline: Seq<EntryView>, i: int) -> int {
    nearest_at(outline, i - 1, outline[i].level - 1)
}

/// The children of the entry at position `i` among the first `n` entries, in their order.
pub open spec fn outline_children(outline: Seq<EntryView>, i: int, n: int) -> Seq<int>
    decreases n,
{
    if n <= 1 {
        Seq::empty()
    } else if outline_parent(outline, n - 1) == i {
        outline_children(outline, i, n - 1).push(n - 1)
    } else {
        outline_children(outline, i, n - 1)
    }
}

/// The tree that the first `n` entries of an outline describe.
pub open spec fn outline_tree(outline: Seq<EntryView>, n: int) -> Seq<NodeModel> {
    Seq::new(
        n as nat,
        |i: int|
            NodeModel {
                data: outline[i].data,
                parent: if i == 0 {
                    None
                } else {
                    Some(outline_parent(outline, i))
                },
                children: outline_children(outline, i, n),
            },
    )
}

/// The numbers from 1 to `count`, in order.
pub open spec fn one_to(count: int) -> Seq<int> {
    Seq::new(count as nat, |i: int| i + 1)
}

/// `result` is what building a document from `outline` gives: the tree
/// that the outline describes when it is one, whose document order is the
/// order of the outline; and else the reason why it is none.
pub open spec fn builds(outline: Seq<EntryView>, result: Result<Document, OutlineError>) -> bool {
    match result {
        Ok(doc) => {
            &&& is_outline(outline)
            &&& doc.wf()
            &&& doc@ == outline_tree(outline, outline.len() as int)
            &&& flatten(doc@, 0) == one_to(outline.len() - 1)
        },
        Err(OutlineError::Empty) => outline.len() == 0,
        Err(OutlineError::Level(at)) => {
            &&& at < outline.len()
            &&& !level_fits(outline, at as int)
            &&& forall|j: int| 0 <= j < at ==> level_fits(outline, j)
        },
    }
}

/// Adding the entry at position `n` as the last child of its parent turns
/// the tree of the first `n` entries into the tree of the first `n + 1`.
proof fn lemma_outline_tree_grows(outline: Seq<EntryView>, n: int)
    requires
        1 <= n < outline.len(),
        0 <= outline_parent(outline, n) < n,
    ensures
        outline_tree(outline, n + 1) == with_child(
            outline_tree(outline, n),
            outline_parent(outline, n),
            outline[n].data,
        ),
{
    let parent = outline_parent(outline, n);
    let grown = with_child(outline_tree(outline, n), parent, outline[n].data);
    let next = outline_tree(outline, n + 1);
    assert(next.len() == grown.len());
    assert forall|i: int| 0 <= i < next.len() implies next[i] == grown[i] by {
        if i == n {
            lemma_no_children_yet(outline, n, n + 1);
        }
    }
    assert(next =~= grown);
}

/// An entry has no children among the entries up to and including itself.
proof fn lemma_no_children_yet(outline: Seq<EntryView>, i: int, n: int)
    requires
        0 <= n <= i + 1,
        i < outline.len(),
    ensures
        outline_children(outline, i, n) == Seq::<int>::empty(),
    decreases n,
{
    if n > 1 {
        lemma_no_children_yet(outline, i, n - 1);
        lemma_nearest_below(outline, n - 2, outline[n - 1].level - 1);
    }
}

/// The nearest entry at a level is found at or before the place where the search starts.
proof fn lemma_nearest_below(outline: Seq<EntryView>, from: int, level: int)
    ensures
        -1 <= nearest_at(outline, from, level) <= from || nearest_at(outline, from, level) == -1,
    decreases from + 1,
{
    if 0 <= from < outline.len() && outline[from].level != level {
        lemma_nearest_below(outline, from - 1, level);
    }
}

/// The tree of the first `n` entries of an outline is well formed, its
/// traversal lists the entries in their order, and the nearest entries at
/// two levels lie on its last branch, the higher level first.
proof fn lemma_outline_prefix(outline: Seq<EntryView>, n: int, a: int, b: int)
    requires
        is_outline(outline),
        1 <= n <= outline.len(),
        1 <= a <= b <= outline[n - 1].level,
    ensures
        well_formed(outline_tree(outline, n)),
        flatten(outline_tree(outline, n), 0) == one_to(n - 1),
        nearest_at(outline, n - 1, 1) == 0,
        0 <= nearest_at(outline, n - 1, a) < n,
        0 <= nearest_at(outline, n - 1, b) < n,
        on_last_branch(
            outline_tree(outline, n),
            nearest_at(outline, n - 1, a),
            nearest_at(outline, n - 1, b),
        ),
    decreases n,
{
    let tree = outline_tree(outline, n);
    assert(level_fits(outline, 0));
    assert(level_fits(outline, n - 1));
    if n == 1 {
        lemma_no_children_yet(outline, 0, 1);
        assert(tree[0].children.len() == 0);
        assert(flatten(tree, 0) =~= one_to(0));
        assert(nearest_at(outline, 0, 1) == 0);
    } else {
        let m = n - 1;
        let level = outline[m].level as int;
        let before = outline_tree(outline, m);
        let parent = outline_parent(outline, m);
        let data = outline[m].data;
        // The parent is on the last branch of the tree so far.
        lemma_outline_prefix(outline, m, 1, level - 1);
        lemma_outline_tree_grows(outline, m);
        lemma_with_child_well_formed(before, parent, data);
        lemma_child_on_last_branch(before, parent, data, 0, 0);
        assert(flatten(tree, 0) =~= one_to(n - 1));
        assert(nearest_at(outline, m, 1) == nearest_at(outline, m - 1, 1));
        if b < level {
            lemma_outline_prefix(outline, m, a, b);
            lemma_outline_prefix(outline, m, b, level - 1);
            lemma_last_branch_kept(
                before,
                parent,
                data,
                nearest_at(outline, m - 1, a),
                nearest_at(outline, m - 1, b),
            );
        } else if a < level {
            lemma_outline_prefix(outline, m, a, level - 1);
            lemma_last_branch_reaches_child(before, parent, data, nearest_at(outline, m - 1, a));
        }
    }
}

/// The tree that an outline describes is well formed, and a traversal of
/// it from the root lists the entries in the order of the outline.
pub proof fn lemma_outline_order(outline: Seq<EntryView>)
    requires
        is_outline(outline),
    ensures
        well_formed(outline_tree(outline, outline.len() as int)),
        flatten(outline_tree(outline, outline.len() as int), 0) == one_to(outline.len() - 1),
{
    assert(level_fits(outline, outline.len() - 1));
    assert(level_fits(outline, 0));
    lemma_outline_prefix(outline, outline.len() as int, 1, 1);
}

impl Document {
    /// Builds the document that an outline describes. The entries are the
    /// nodes in document order; each becomes the last child of the nearest
    /// entry before it that stands one level higher.
    pub fn from_outline(entries: Vec<OutlineEntry>) -> (result: Result<Document, OutlineError>)
        ensures
            builds(outline_view(entries@), result),
            result matches Ok(doc) ==> forall|i: int|
                0 <= i < entries@.len() ==> doc.data_at(i) == entries@[i].data,
    {
        let ghost all = entries@;
        assert(all.len() == entries.len());
        let ghost outline = outline_view(all);
        let mut built: Option<Document> = None;
        let mut path: Vec<usize> = Vec::new();
        let mut n: usize = 0;
        for entry in it: entries
            invariant
                it.seq() == all,
                all.len() <= usize::MAX,
                outline == outline_view(all),
                n == it.index(),
                forall|j: int| 0 <= j < n ==> level_fits(outline, j),
                n == 0 ==> built is None && path@.len() == 0,
                n > 0 ==> {
                    &&& built is Some
                    &&& built->0.wf()
                    &&& built->0@ == outline_tree(outline, n as int)
                    &&& path@.len() == outline[n - 1].level
                    &&& forall|d: int|
                        0 <= d < path@.len() ==> 0 <= #[trigger] path@[d] < n && path@[d]
                            == nearest_at(outline, n - 1, d + 1)
                    &&& forall|i: int| 0 <= i < n ==> built->0.data_at(i) == all[i].data
                },
        {
            let ghost entry_view = entry@;
            assert(n < all.len());
            assert(entry_view == outline[n as int]);
            let level = entry.level;
            match built {
                None => {
                    if level != 1 {
                        return Err(OutlineError::Level(n));
                    }
                    let doc = Document::new(entry.data);
                    proof {
                        lemma_no_children_yet(outline, 0, 1);
                        assert(doc@ =~= outline_tree(outline, 1));
                    }
                    built = Some(doc);
                    path.push(0);
                    assert(nearest_at(outline, 0, 1) == 0);
                },
                Some(mut doc) => {
                    if level < 2 || level - 1 > path.len() {
                        return Err(OutlineError::Level(n));
                    }
                    let parent = path[level - 2];
                    doc.add_child(parent, entry.data);
                    proof {
                        assert(parent == outline_parent(outline, n as int));
                        lemma_outline_tree_grows(outline, n as int);
                    }
                    let ghost above = path@;
                    path.truncate(level - 1);
                    path.push(n);
                    proof {
                        assert forall|d: int| 0 <= d < path@.len() implies 0 <= #[trigger] path@[d]
                            < n + 1 && path@[d] == nearest_at(outline, n as int, d + 1) by {
                            if d < level - 1 {
                                assert(path@[d] == above[d]);
                            }
                        }
                    }
                    built = Some(doc);
                },
            }
            n += 1;
        }
        match built {
            Some(doc) => {
                proof {
                    lemma_outline_order(outline);
                }
                Ok(doc)
            },
            None => Err(OutlineError::Empty),
        }
    }
}

} // verus!
