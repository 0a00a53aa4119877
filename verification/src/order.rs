//! What holds of the order in which a traversal lists the nodes of a tree.

use crate::traverse::{flatten, flatten_from, lemma_flatten_in_tree};
use crate::tree::{well_formed, with_child, DataView, NodeModel};
use vstd::prelude::*;

verus! {

/// `node` lies below `ancestor`: the way from `node` up through the parents reaches it.
pub open spec fn descends_from(tree: Seq<NodeModel>, node: int, ancestor: int) -> bool
    decreases node,
{
    &&& 0 < node < tree.len()
    &&& tree[node].parent is Some
    &&& 0 <= tree[node].parent->0 < node
    &&& (tree[node].parent->0 == ancestor || descends_from(tree, tree[node].parent->0, ancestor))
}

/// The node on the way from `node` up to `ancestor` that is a child of
/// `ancestor`; -1 when the way does not lead there.
pub open spec fn branch(tree: Seq<NodeModel>, node: int, ancestor: int) -> int
    decreases node,
{
    if 0 < node < tree.len() && tree[node].parent is Some && 0 <= tree[node].parent->0 < node {
        if tree[node].parent->0 == ancestor {
            node
        } else {
            branch(tree, tree[node].parent->0, ancestor)
        }
    } else {
        -1
    }
}

/// The place of the child at position `i` in what `flatten_from` lists from position `k` on.
pub open spec fn child_offset(tree: Seq<NodeModel>, node: int, k: int, i: int) -> int
    decreases i - k,
{
    if i <= k {
        0
    } else {
        1 + flatten(tree, tree[node].children[k]).len() + child_offset(tree, node, k + 1, i)
    }
}

/// How `flatten_from` is made up at a child of a well-formed tree.
proof fn lemma_unfold(tree: Seq<NodeModel>, node: int, k: int)
    requires
        well_formed(tree),
        0 <= node < tree.len(),
        0 <= k < tree[node].children.len(),
    ensures
        node < tree[node].children[k] < tree.len(),
        tree[tree[node].children[k]].parent == Some(node),
        flatten_from(tree, node, k) == seq![tree[node].children[k]] + flatten(
            tree,
            tree[node].children[k],
        ) + flatten_from(tree, node, k + 1),
{
}

proof fn lemma_descends_above(tree: Seq<NodeModel>, node: int, ancestor: int)
    requires
        descends_from(tree, node, ancestor),
    ensures
        0 <= ancestor < node,
    decreases node,
{
    if tree[node].parent->0 != ancestor {
        lemma_descends_above(tree, tree[node].parent->0, ancestor);
    }
}

proof fn lemma_descends_trans(tree: Seq<NodeModel>, node: int, middle: int, ancestor: int)
    requires
        descends_from(tree, node, middle),
        descends_from(tree, middle, ancestor),
    ensures
        descends_from(tree, node, ancestor),
    decreases node,
{
    if tree[node].parent->0 != middle {
        lemma_descends_trans(tree, tree[node].parent->0, middle, ancestor);
    }
}

/// Everything below a child of `ancestor` reaches `ancestor` through that child.
proof fn lemma_branch_of_descendant(tree: Seq<NodeModel>, node: int, child: int, ancestor: int)
    requires
        descends_from(tree, node, child),
        0 <= child < tree.len(),
        tree[child].parent == Some(ancestor),
        0 <= ancestor < child,
    ensures
        branch(tree, node, ancestor) == child,
    decreases node,
{
    let p = tree[node].parent->0;
    if p != child {
        lemma_descends_above(tree, p, child);
        lemma_branch_of_descendant(tree, p, child, ancestor);
    } else {
        assert(branch(tree, child, ancestor) == child);
    }
}

/// What a traversal of `node` lists lies below `node`, and reaches `node`
/// through one of the children from position `k` on.
proof fn lemma_listed_descend(tree: Seq<NodeModel>, node: int, k: int)
    requires
        well_formed(tree),
        0 <= node < tree.len(),
        0 <= k,
    ensures
        forall|a: int|
            0 <= a < flatten_from(tree, node, k).len() ==> {
                let x = #[trigger] flatten_from(tree, node, k)[a];
                &&& descends_from(tree, x, node)
                &&& exists|i: int|
                    k <= i < tree[node].children.len() && tree[node].children[i] == branch(
                        tree,
                        x,
                        node,
                    )
            },
    decreases tree.len() - node, tree[node].children.len() - k,
{
    if k < tree[node].children.len() {
        lemma_unfold(tree, node, k);
        let c = tree[node].children[k];
        let below = flatten(tree, c);
        let later = flatten_from(tree, node, k + 1);
        let all = flatten_from(tree, node, k);
        lemma_listed_descend(tree, c, 0);
        lemma_listed_descend(tree, node, k + 1);
        assert forall|a: int| 0 <= a < all.len() implies {
            let x = #[trigger] all[a];
            &&& descends_from(tree, x, node)
            &&& exists|i: int|
                k <= i < tree[node].children.len() && tree[node].children[i] == branch(
                    tree,
                    x,
                    node,
                )
        } by {
            let x = all[a];
            if a == 0 {
                assert(x == c);
                assert(tree[node].children[k] == branch(tree, x, node));
            } else if a < 1 + below.len() {
                assert(x == below[a - 1]);
                assert(descends_from(tree, x, c));
                assert(descends_from(tree, c, node));
                lemma_descends_trans(tree, x, c, node);
                lemma_branch_of_descendant(tree, x, c, node);
                assert(tree[node].children[k] == branch(tree, x, node));
            } else {
                assert(x == later[a - 1 - below.len()]);
                let i = choose|i: int|
                    k + 1 <= i < tree[node].children.len() && tree[node].children[i] == branch(
                        tree,
                        x,
                        node,
                    );
                assert(k <= i < tree[node].children.len() && tree[node].children[i] == branch(
                    tree,
                    x,
                    node,
                ));
            }
        }
    }
}

/// A traversal lists no node twice.
proof fn lemma_no_duplicates(tree: Seq<NodeModel>, node: int, k: int)
    requires
        well_formed(tree),
        0 <= node < tree.len(),
        0 <= k,
    ensures
        flatten_from(tree, node, k).no_duplicates(),
    decreases tree.len() - node, tree[node].children.len() - k,
{
    if k < tree[node].children.len() {
        lemma_unfold(tree, node, k);
        let c = tree[node].children[k];
        let below = flatten(tree, c);
        let later = flatten_from(tree, node, k + 1);
        let all = flatten_from(tree, node, k);
        lemma_no_duplicates(tree, c, 0);
        lemma_no_duplicates(tree, node, k + 1);
        lemma_flatten_in_tree(tree, c, 0);
        lemma_listed_descend(tree, node, k);
        lemma_listed_descend(tree, node, k + 1);
        lemma_listed_descend(tree, c, 0);
        assert forall|a: int, b: int| 0 <= a < b < all.len() implies all[a] != all[b] by {
            if b < 1 + below.len() {
                if a == 0 {
                    assert(all[b] == below[b - 1]);
                } else {
                    assert(all[a] == below[a - 1]);
                    assert(all[b] == below[b - 1]);
                }
            } else {
                let y = later[b - 1 - below.len()];
                assert(all[b] == y);
                if a >= 1 + below.len() {
                    assert(all[a] == later[a - 1 - below.len()]);
                } else {
                    let i = choose|i: int|
                        k + 1 <= i < tree[node].children.len() && tree[node].children[i] == branch(
                            tree,
                            y,
                            node,
                        );
                    assert(tree[node].children[k] < tree[node].children[i]);
                    if a == 0 {
                        assert(branch(tree, c, node) == c);
                    } else {
                        assert(all[a] == below[a - 1]);
                        lemma_branch_of_descendant(tree, all[a], c, node);
                    }
                }
            }
        }
    }
}

/// Where a child stands in what a traversal of its parent lists, and that
/// its own subtree follows it there at once.
proof fn lemma_child_place(tree: Seq<NodeModel>, node: int, k: int, i: int)
    requires
        well_formed(tree),
        0 <= node < tree.len(),
        0 <= k <= i < tree[node].children.len(),
    ensures
        ({
            let all = flatten_from(tree, node, k);
            let at = child_offset(tree, node, k, i);
            let below = flatten(tree, tree[node].children[i]);
            &&& 0 <= at
            &&& at + 1 + below.len() <= all.len()
            &&& all[at] == tree[node].children[i]
            &&& all.subrange(at + 1, at + 1 + below.len()) == below
        }),
    decreases i - k,
{
    lemma_unfold(tree, node, k);
    let all = flatten_from(tree, node, k);
    let first = flatten(tree, tree[node].children[k]);
    if i == k {
        assert(all.subrange(1, 1 + first.len() as int) =~= first);
    } else {
        lemma_child_place(tree, node, k + 1, i);
        let later = flatten_from(tree, node, k + 1);
        let at = child_offset(tree, node, k + 1, i);
        let below = flatten(tree, tree[node].children[i]);
        let shift = 1 + first.len();
        assert(all[shift + at] == later[at]);
        assert(all.subrange(shift + at + 1, shift + at + 1 + below.len()) =~= later.subrange(
            at + 1,
            at + 1 + below.len(),
        ));
    }
}

/// A later child stands behind an earlier child and all of its subtree.
proof fn lemma_child_offsets_grow(tree: Seq<NodeModel>, node: int, k: int, j: int, i: int)
    requires
        well_formed(tree),
        0 <= node < tree.len(),
        0 <= k <= j < i < tree[node].children.len(),
    ensures
        child_offset(tree, node, k, j) + 1 + flatten(tree, tree[node].children[j]).len()
            <= child_offset(tree, node, k, i),
    decreases j - k,
{
    if j == k {
        lemma_child_place(tree, node, k + 1, i);
    } else {
        lemma_child_offsets_grow(tree, node, k + 1, j, i);
    }
}

/// Wherever a traversal lists a node, the subtree of that node follows at once.
proof fn lemma_subtree_follows(tree: Seq<NodeModel>, node: int, k: int, a: int)
    requires
        well_formed(tree),
        0 <= node < tree.len(),
        0 <= k,
        0 <= a < flatten_from(tree, node, k).len(),
    ensures
        ({
            let all = flatten_from(tree, node, k);
            let below = flatten(tree, all[a]);
            &&& a + 1 + below.len() <= all.len()
            &&& all.subrange(a + 1, a + 1 + below.len()) == below
        }),
    decreases tree.len() - node, tree[node].children.len() - k,
{
    if k < tree[node].children.len() {
        lemma_unfold(tree, node, k);
        let c = tree[node].children[k];
        let first = flatten(tree, c);
        let later = flatten_from(tree, node, k + 1);
        let all = flatten_from(tree, node, k);
        let below = flatten(tree, all[a]);
        if a == 0 {
            assert(all.subrange(1, 1 + first.len() as int) =~= first);
        } else if a < 1 + first.len() {
            lemma_subtree_follows(tree, c, 0, a - 1);
            assert(all[a] == first[a - 1]);
            assert(all.subrange(a + 1, a + 1 + below.len()) =~= first.subrange(
                a,
                a + below.len(),
            ));
        } else {
            let shift = 1 + first.len();
            lemma_subtree_follows(tree, node, k + 1, a - shift);
            assert(all[a] == later[a - shift]);
            assert(all.subrange(a + 1, a + 1 + below.len()) =~= later.subrange(
                a - shift + 1,
                a - shift + 1 + below.len(),
            ));
        }
    }
}

/// Every node below `ancestor` is listed by a traversal of `ancestor`.
proof fn lemma_descendant_listed(tree: Seq<NodeModel>, node: int, ancestor: int)
    requires
        well_formed(tree),
        descends_from(tree, node, ancestor),
    ensures
        flatten(tree, ancestor).contains(node),
    decreases node,
{
    let p = tree[node].parent->0;
    assert(tree[p].children.contains(node));
    let i = choose|i: int| 0 <= i < tree[p].children.len() && tree[p].children[i] == node;
    lemma_child_place(tree, p, 0, i);
    let at = child_offset(tree, p, 0, i);
    assert(flatten(tree, p)[at] == node);
    if p != ancestor {
        lemma_descendant_listed(tree, p, ancestor);
        let all = flatten(tree, ancestor);
        let a = choose|a: int| 0 <= a < all.len() && all[a] == p;
        lemma_subtree_follows(tree, ancestor, 0, a);
        let below = flatten(tree, p);
        assert(all.subrange(a + 1, a + 1 + below.len())[at] == node);
        assert(all[a + 1 + at] == node);
    }
}

/// A traversal lists every node below the node it starts from, each exactly
/// once, and no other node.
pub proof fn lemma_flatten_lists_each_descendant_once(tree: Seq<NodeModel>, root: int)
    requires
        well_formed(tree),
        0 <= root < tree.len(),
    ensures
        flatten(tree, root).no_duplicates(),
        forall|node: int| flatten(tree, root).contains(node) <==> descends_from(tree, node, root),
{
    lemma_no_duplicates(tree, root, 0);
    lemma_listed_descend(tree, root, 0);
    assert forall|node: int| descends_from(tree, node, root) implies flatten(tree, root).contains(
        node,
    ) by {
        lemma_descendant_listed(tree, node, root);
    }
}

/// In a sequence without duplicates, an item is found where it stands.
proof fn lemma_found_in_place(items: Seq<int>, at: int)
    requires
        items.no_duplicates(),
        0 <= at < items.len(),
    ensures
        items.contains(items[at]),
        items.index_of(items[at]) == at,
{
}

/// Where the traversal of a listed node begins within the traversal that lists it.
proof fn lemma_own_traversal(tree: Seq<NodeModel>, root: int, node: int) -> (start: int)
    requires
        well_formed(tree),
        0 <= root < tree.len(),
        node == root || flatten(tree, root).contains(node),
    ensures
        0 <= node < tree.len(),
        flatten(tree, root).no_duplicates(),
        node == root ==> start == 0,
        node != root ==> start == flatten(tree, root).index_of(node) + 1,
        0 <= start,
        start + flatten(tree, node).len() <= flatten(tree, root).len(),
        forall|t: int|
            0 <= t < flatten(tree, node).len() ==> flatten(tree, root)[start + t]
                == #[trigger] flatten(tree, node)[t],
{
    let listed = flatten(tree, root);
    let own = flatten(tree, node);
    lemma_no_duplicates(tree, root, 0);
    lemma_flatten_in_tree(tree, root, 0);
    if node == root {
        0
    } else {
        let at = listed.index_of(node);
        lemma_subtree_follows(tree, root, 0, at);
        assert forall|t: int| 0 <= t < own.len() implies listed[at + 1 + t]
            == #[trigger] own[t] by {
            assert(listed.subrange(at + 1, at + 1 + own.len())[t] == own[t]);
        }
        at + 1
    }
}

/// The place at which a traversal from `root` lists `node`.
pub open spec fn place(tree: Seq<NodeModel>, root: int, node: int) -> int {
    flatten(tree, root).index_of(node)
}

/// In what a traversal from `root` lists, a node stands before its
/// children, a child stands before everything below it, and a child with
/// all that is below it stands before the next child of the same parent.
pub proof fn lemma_flatten_order(tree: Seq<NodeModel>, root: int, node: int, j: int, k: int)
    requires
        well_formed(tree),
        0 <= root < tree.len(),
        node == root || flatten(tree, root).contains(node),
        0 <= j < k < tree[node].children.len(),
    ensures
        flatten(tree, root).contains(tree[node].children[j]),
        flatten(tree, root).contains(tree[node].children[k]),
        node != root ==> place(tree, root, node) < place(tree, root, tree[node].children[j]),
        place(tree, root, tree[node].children[j]) < place(tree, root, tree[node].children[k]),
        forall|below: int| #[trigger]
            descends_from(tree, below, tree[node].children[j]) ==> {
                &&& flatten(tree, root).contains(below)
                &&& place(tree, root, tree[node].children[j]) < place(tree, root, below)
                &&& place(tree, root, below) < place(tree, root, tree[node].children[k])
            },
{
    let listed = flatten(tree, root);
    let own = flatten(tree, node);
    let first = tree[node].children[j];
    let second = tree[node].children[k];
    let under = flatten(tree, first);
    let start = lemma_own_traversal(tree, root, node);
    lemma_child_place(tree, node, 0, j);
    lemma_child_place(tree, node, 0, k);
    lemma_child_offsets_grow(tree, node, 0, j, k);
    let at_first = child_offset(tree, node, 0, j);
    let at_second = child_offset(tree, node, 0, k);
    assert(listed[start + at_first] == own[at_first]);
    assert(listed[start + at_second] == own[at_second]);
    lemma_found_in_place(listed, start + at_first);
    lemma_found_in_place(listed, start + at_second);
    assert forall|below: int| #[trigger] descends_from(tree, below, first) implies {
        &&& listed.contains(below)
        &&& place(tree, root, first) < place(tree, root, below)
        &&& place(tree, root, below) < place(tree, root, second)
    } by {
        lemma_descendant_listed(tree, below, first);
        let t = choose|t: int| 0 <= t < under.len() && under[t] == below;
        assert(own.subrange(at_first + 1, at_first + 1 + under.len())[t] == below);
        assert(listed[start + (at_first + 1 + t)] == own[at_first + 1 + t]);
        lemma_found_in_place(listed, start + at_first + 1 + t);
    }
}

/// `to` is reached from `from` by going down to the last child zero or more times.
pub open spec fn on_last_branch(tree: Seq<NodeModel>, from: int, to: int) -> bool
    decreases tree.len() - from,
{
    from == to || (0 <= from < tree.len() && tree[from].children.len() > 0 && from
        < tree[from].children.last() < tree.len() && on_last_branch(
        tree,
        tree[from].children.last(),
        to,
    ))
}

pub proof fn lemma_last_branch_goes_down(tree: Seq<NodeModel>, from: int, to: int)
    requires
        on_last_branch(tree, from, to),
    ensures
        from <= to,
    decreases tree.len() - from,
{
    if from != to {
        lemma_last_branch_goes_down(tree, tree[from].children.last(), to);
    }
}

proof fn lemma_last_branch_descends(tree: Seq<NodeModel>, from: int, to: int)
    requires
        well_formed(tree),
        0 <= from < tree.len(),
        on_last_branch(tree, from, to),
    ensures
        from == to || descends_from(tree, to, from),
    decreases tree.len() - from,
{
    if from != to {
        let last = tree[from].children.last();
        assert(last == tree[from].children[tree[from].children.len() - 1]);
        lemma_last_branch_descends(tree, last, to);
        assert(descends_from(tree, last, from));
        if last != to {
            lemma_descends_trans(tree, to, last, from);
        }
    }
}

/// A traversal that does not come by `parent` lists the same after `parent` got a new child.
proof fn lemma_untouched(tree: Seq<NodeModel>, parent: int, data: DataView, node: int, k: int)
    requires
        well_formed(tree),
        0 <= parent < tree.len(),
        0 <= node < tree.len(),
        0 <= k,
        node != parent,
        !flatten_from(tree, node, k).contains(parent),
    ensures
        flatten_from(with_child(tree, parent, data), node, k) == flatten_from(tree, node, k),
    decreases tree.len() - node, tree[node].children.len() - k,
{
    let grown = with_child(tree, parent, data);
    assert(grown[node] == tree[node]);
    if k < tree[node].children.len() {
        lemma_unfold(tree, node, k);
        let c = tree[node].children[k];
        let below = flatten(tree, c);
        let later = flatten_from(tree, node, k + 1);
        let all = flatten_from(tree, node, k);
        assert(all[0] == c);
        assert forall|t: int| 0 <= t < below.len() implies below[t] != parent by {
            assert(all[1 + t] == below[t]);
        }
        assert forall|t: int| 0 <= t < later.len() implies later[t] != parent by {
            assert(all[1 + below.len() + t] == later[t]);
        }
        lemma_untouched(tree, parent, data, c, 0);
        lemma_untouched(tree, parent, data, node, k + 1);
    }
}

/// A new last child of a node on the last branch below `node` is listed
/// last by the traversal of `node`, behind all that was listed before.
pub proof fn lemma_child_on_last_branch(
    tree: Seq<NodeModel>,
    parent: int,
    data: DataView,
    node: int,
    k: int,
)
    requires
        well_formed(tree),
        0 <= parent < tree.len(),
        0 <= node < tree.len(),
        on_last_branch(tree, node, parent),
        0 <= k <= tree[node].children.len(),
        node != parent ==> k < tree[node].children.len(),
    ensures
        flatten_from(with_child(tree, parent, data), node, k) == flatten_from(tree, node, k).push(
            tree.len() as int,
        ),
    decreases tree.len() - node, tree[node].children.len() - k,
{
    let grown = with_child(tree, parent, data);
    let fresh = tree.len() as int;
    let count = tree[node].children.len() as int;
    if k == count {
        assert(grown[node].children[k] == fresh);
        assert(grown[fresh].children.len() == 0);
        assert(flatten_from(grown, fresh, 0) =~= Seq::<int>::empty());
        assert(flatten_from(grown, node, k + 1) =~= Seq::<int>::empty());
        assert(flatten_from(grown, node, k) =~= seq![fresh]);
        assert(flatten_from(tree, node, k).push(fresh) =~= seq![fresh]);
    } else {
        lemma_unfold(tree, node, k);
        let c = tree[node].children[k];
        let below = flatten(tree, c);
        let later = flatten_from(tree, node, k + 1);
        assert(grown[node].children[k] == c);
        if node != parent && k == count - 1 {
            assert(grown[node] == tree[node]);
            assert(c == tree[node].children.last());
            assert(on_last_branch(tree, c, parent));
            lemma_child_on_last_branch(tree, parent, data, c, 0);
            assert(later =~= Seq::<int>::empty());
            assert(flatten_from(grown, node, k + 1) =~= Seq::<int>::empty());
            assert(flatten_from(grown, node, k) =~= (seq![c] + below + later).push(fresh));
        } else {
            assert(c != parent && !below.contains(parent)) by {
                if node == parent {
                    lemma_flatten_in_tree(tree, c, 0);
                } else {
                    let last = tree[node].children.last();
                    assert(last == tree[node].children[count - 1]);
                    assert(c < last);
                    lemma_last_branch_goes_down(tree, last, parent);
                    lemma_last_branch_descends(tree, last, parent);
                    assert(branch(tree, last, node) == last);
                    if last != parent {
                        lemma_branch_of_descendant(tree, parent, last, node);
                    }
                    if below.contains(parent) {
                        lemma_listed_descend(tree, c, 0);
                        lemma_branch_of_descendant(tree, parent, c, node);
                    }
                }
            }
            lemma_untouched(tree, parent, data, c, 0);
            lemma_child_on_last_branch(tree, parent, data, node, k + 1);
            assert(flatten_from(grown, node, k) =~= (seq![c] + below + later).push(fresh));
        }
    }
}

/// The new child of a node on the last branch is itself on the last branch.
pub proof fn lemma_last_branch_reaches_child(
    tree: Seq<NodeModel>,
    parent: int,
    data: DataView,
    from: int,
)
    requires
        0 <= parent < tree.len(),
        0 <= from < tree.len(),
        on_last_branch(tree, from, parent),
    ensures
        on_last_branch(with_child(tree, parent, data), from, tree.len() as int),
    decreases tree.len() - from,
{
    let grown = with_child(tree, parent, data);
    let fresh = tree.len() as int;
    if from == parent {
        assert(grown[from].children.last() == fresh);
        assert(on_last_branch(grown, fresh, fresh));
    } else {
        assert(grown[from] == tree[from]);
        lemma_last_branch_reaches_child(tree, parent, data, tree[from].children.last());
    }
}

/// The last branch down to a node stays as it is when a node at or below
/// its end gets a new child.
pub proof fn lemma_last_branch_kept(
    tree: Seq<NodeModel>,
    parent: int,
    data: DataView,
    from: int,
    to: int,
)
    requires
        0 <= parent < tree.len(),
        0 <= from < tree.len(),
        on_last_branch(tree, from, to),
        on_last_branch(tree, to, parent),
    ensures
        on_last_branch(with_child(tree, parent, data), from, to),
    decreases tree.len() - from,
{
    let grown = with_child(tree, parent, data);
    if from != to {
        lemma_last_branch_goes_down(tree, tree[from].children.last(), to);
        lemma_last_branch_goes_down(tree, to, parent);
        assert(grown[from] == tree[from]);
        lemma_last_branch_kept(tree, parent, data, tree[from].children.last(), to);
    }
}

} // verus!
