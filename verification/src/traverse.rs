//! Pre-order traversal of a document tree: every descendant of a node, the
//! descendants that a predicate selects, and the descendants that carry text.

use crate::kind::{KindView, NodeKind};
use crate::tree::{ids, DataView, NodeModel, NodeRef};
use vstd::prelude::*;

verus! {

/// The descendants of `node` that are reached through its children from
/// position `k` on, in pre-order: each child, then that child's own
/// descendants, then the later children.
pub open spec fn flatten_from(tree: Seq<NodeModel>, node: int, k: int) -> Seq<int>
    decreases tree.len() - node, tree[node].children.len() - k,
{
    if 0 <= node < tree.len() && 0 <= k < tree[node].children.len() {
        let child = tree[node].children[k];
        let later = flatten_from(tree, node, k + 1);
        if node < child < tree.len() {
            seq![child] + flatten_from(tree, child, 0) + later
        } else {
            later
        }
    } else {
        Seq::empty()
    }
}

/// Every descendant of `node` in document order; the node itself is left out.
pub open spec fn flatten(tree: Seq<NodeModel>, node: int) -> Seq<int> {
    flatten_from(tree, node, 0)
}

/// The items whose position is marked in `mask`, in their order.
pub open spec fn select(items: Seq<int>, mask: Seq<bool>) -> Seq<int>
    decreases items.len(),
{
    if items.len() == 0 || mask.len() != items.len() {
        Seq::empty()
    } else if mask.last() {
        select(items.drop_last(), mask.drop_last()).push(items.last())
    } else {
        select(items.drop_last(), mask.drop_last())
    }
}

/// `mask` records, for each of the listed nodes, an answer that the
/// predicate can give for the kind of that node.
pub open spec fn answers<F: Fn(&NodeKind) -> bool>(
    node: NodeRef<'_>,
    listed: Seq<int>,
    mask: Seq<bool>,
    filter_fn: F,
) -> bool {
    &&& mask.len() == listed.len()
    &&& forall|i: int|
        0 <= i < listed.len() ==> call_ensures(
            filter_fn,
            (&node.doc().data_at(listed[i]).kind,),
            #[trigger] mask[i],
        )
}

/// The predicate is a function of the kind: whenever it answers, the answer is `p` of the kind.
pub open spec fn computes<F: Fn(&NodeKind) -> bool>(
    filter_fn: F,
    p: spec_fn(KindView) -> bool,
) -> bool {
    forall|kind: NodeKind, answer: bool| #[trigger]
        call_ensures(filter_fn, (&kind,), answer) ==> answer == p(kind@)
}

/// The listed nodes whose kind satisfies `p`, in their order.
pub open spec fn of_kind(
    tree: Seq<NodeModel>,
    listed: Seq<int>,
    p: spec_fn(KindView) -> bool,
) -> Seq<int> {
    listed.filter(|j: int| p(tree[j].data.kind))
}

/// Every reference points at a node of `node`'s document.
pub open spec fn within(refs: Seq<NodeRef<'_>>, node: NodeRef<'_>) -> bool {
    forall|i: int| 0 <= i < refs.len() ==> (#[trigger] refs[i]).wf() && refs[i].doc() == node.doc()
}

/// What a traversal lists are nodes of the tree that lie after the node it started from.
pub proof fn lemma_flatten_in_tree(tree: Seq<NodeModel>, node: int, k: int)
    ensures
        forall|i: int|
            0 <= i < flatten_from(tree, node, k).len() ==> node < #[trigger] flatten_from(
                tree,
                node,
                k,
            )[i] < tree.len(),
    decreases tree.len() - node, tree[node].children.len() - k,
{
    if 0 <= node < tree.len() && 0 <= k < tree[node].children.len() {
        let child = tree[node].children[k];
        let later = flatten_from(tree, node, k + 1);
        lemma_flatten_in_tree(tree, node, k + 1);
        if node < child < tree.len() {
            let below = flatten_from(tree, child, 0);
            lemma_flatten_in_tree(tree, child, 0);
            let all = flatten_from(tree, node, k);
            assert(all == seq![child] + below + later);
            assert forall|i: int| 0 <= i < all.len() implies node < #[trigger] all[i]
                < tree.len() by {
                if i == 0 {
                } else if i < 1 + below.len() {
                    assert(all[i] == below[i - 1]);
                } else {
                    assert(all[i] == later[i - 1 - below.len()]);
                }
            }
        }
    }
}

proof fn lemma_select_concat(a: Seq<int>, ma: Seq<bool>, b: Seq<int>, mb: Seq<bool>)
    requires
        a.len() == ma.len(),
        b.len() == mb.len(),
    ensures
        select(a + b, ma + mb) == select(a, ma) + select(b, mb),
    decreases b.len(),
{
    if b.len() == 0 {
        assert(a + b =~= a);
        assert(ma + mb =~= ma);
        assert(select(a, ma) + select(b, mb) =~= select(a, ma));
    } else {
        assert((a + b).drop_last() =~= a + b.drop_last());
        assert((ma + mb).drop_last() =~= ma + mb.drop_last());
        lemma_select_concat(a, ma, b.drop_last(), mb.drop_last());
        if mb.last() {
            assert(select(a, ma) + select(b.drop_last(), mb.drop_last()).push(b.last()) =~= (
            select(a, ma) + select(b.drop_last(), mb.drop_last())).push(b.last()));
        }
    }
}

proof fn lemma_select_one(item: int, keep: bool)
    ensures
        select(seq![item], seq![keep]) == if keep {
            seq![item]
        } else {
            Seq::<int>::empty()
        },
{
    reveal_with_fuel(select, 2);
    assert(seq![item].drop_last() =~= Seq::<int>::empty());
    if keep {
        assert(Seq::<int>::empty().push(item) =~= seq![item]);
    }
}

proof fn lemma_select_filter(items: Seq<int>, mask: Seq<bool>, q: spec_fn(int) -> bool)
    requires
        mask.len() == items.len(),
        forall|i: int| 0 <= i < items.len() ==> mask[i] == q(#[trigger] items[i]),
    ensures
        select(items, mask) == items.filter(q),
    decreases items.len(),
{
    reveal(Seq::filter);
    if items.len() > 0 {
        lemma_select_filter(items.drop_last(), mask.drop_last(), q);
    }
}

/// Walks the subtree below `node` in pre-order. Each child is first put to
/// the predicate and kept if it answers yes; then the walk descends into the
/// child, whatever the answer was, before it goes on to the next sibling.
fn traverse_nodes<'a, F: Fn(&NodeKind) -> bool>(node: NodeRef<'a>, filter_fn: &F) -> (found: (
    Vec<NodeRef<'a>>,
    Ghost<Seq<bool>>,
))
    requires
        node.wf(),
        forall|kind: NodeKind| call_requires(*filter_fn, (&kind,)),
    ensures
        within(found.0@, node),
        answers(node, flatten(node.doc()@, node.id()), found.1@, *filter_fn),
        ids(found.0@) == select(flatten(node.doc()@, node.id()), found.1@),
    decreases node.doc()@.len() - node.id(),
{
    let ghost tree = node.doc()@;
    let children = node.children();
    let mut final_vec: Vec<NodeRef<'a>> = Vec::new();
    let ghost mut seen: Seq<int> = Seq::empty();
    let ghost mut mask: Seq<bool> = Seq::empty();
    let mut k: usize = 0;
    assert(ids(final_vec@) =~= select(seen, mask));
    while k < children.len()
        invariant
            node.wf(),
            tree == node.doc()@,
            forall|kind: NodeKind| call_requires(*filter_fn, (&kind,)),
            ids(children@) == tree[node.id()].children,
            within(children@, node),
            k <= children.len(),
            seen + flatten_from(tree, node.id(), k as int) == flatten(tree, node.id()),
            answers(node, seen, mask, *filter_fn),
            ids(final_vec@) == select(seen, mask),
            within(final_vec@, node),
        decreases children.len() - k,
    {
        let child = children[k];
        let ghost c = child.id();
        assert(c == ids(children@)[k as int]);
        assert(c == tree[node.id()].children[k as int]);
        let keep = filter_fn(&child.data().kind);
        let ghost before = final_vec@;
        if keep {
            final_vec.push(child);
        }
        let (mut inner_vec, Ghost(inner_mask)) = traverse_nodes(child, filter_fn);
        let ghost inner = inner_vec@;
        final_vec.append(&mut inner_vec);
        proof {
            let below = flatten(tree, c);
            let block = seq![c] + below;
            let block_mask = seq![keep] + inner_mask;
            assert(flatten_from(tree, node.id(), k as int) == block + flatten_from(
                tree,
                node.id(),
                k + 1,
            ));
            assert((seen + block) + flatten_from(tree, node.id(), k + 1) =~= seen + (block
                + flatten_from(tree, node.id(), k + 1)));
            lemma_select_one(c, keep);
            lemma_select_concat(seq![c], seq![keep], below, inner_mask);
            lemma_select_concat(seen, mask, block, block_mask);
            let kept = if keep {
                seq![child]
            } else {
                Seq::<NodeRef<'a>>::empty()
            };
            assert(final_vec@ =~= before + kept + inner);
            assert(ids(final_vec@) =~= ids(before) + ids(kept) + ids(inner));
            assert(ids(kept) =~= select(seq![c], seq![keep]));
            assert forall|i: int| 0 <= i < block.len() implies call_ensures(
                *filter_fn,
                (&node.doc().data_at(block[i]).kind,),
                #[trigger] block_mask[i],
            ) by {
                if i > 0 {
                    assert(block[i] == below[i - 1]);
                    assert(block_mask[i] == inner_mask[i - 1]);
                }
            }
            seen = seen + block;
            mask = mask + block_mask;
        }
        k += 1;
    }
    assert(seen =~= flatten(tree, node.id()));
    (final_vec, Ghost(mask))
}

proof fn lemma_select_all(items: Seq<int>, mask: Seq<bool>)
    requires
        mask.len() == items.len(),
        forall|i: int| 0 <= i < mask.len() ==> #[trigger] mask[i],
    ensures
        select(items, mask) == items,
    decreases items.len(),
{
    if items.len() > 0 {
        lemma_select_all(items.drop_last(), mask.drop_last());
        assert(items.drop_last().push(items.last()) =~= items);
    }
}

/// Every descendant of `node` in document order: each node comes before
/// its own children and before the subtrees of its later siblings.
pub fn flatten_nodes<'a>(node: NodeRef<'a>) -> (all: Vec<NodeRef<'a>>)
    requires
        node.wf(),
    ensures
        within(all@, node),
        ids(all@) == flatten(node.doc()@, node.id()),
{
    let keep_all = |kind: &NodeKind| -> (keep: bool)
        ensures
            keep,
        { true };
    let (all, Ghost(mask)) = traverse_nodes(node, &keep_all);
    proof {
        lemma_select_all(flatten(node.doc()@, node.id()), mask);
    }
    all
}

/// The descendants of `node` whose kind the predicate accepts, in document
/// order. A node that is not accepted does not hide its descendants.
///
/// For a predicate that is a function `p` of the kind, the result is
/// `flatten` of the node filtered by `p`.
pub fn filter_nodes<'a, F: Fn(&NodeKind) -> bool>(node: NodeRef<'a>, filter_fn: F) -> (found: Vec<
    NodeRef<'a>,
>)
    requires
        node.wf(),
        forall|kind: NodeKind| call_requires(filter_fn, (&kind,)),
    ensures
        within(found@, node),
        exists|mask: Seq<bool>|
            answers(node, flatten(node.doc()@, node.id()), mask, filter_fn) && ids(found@)
                == select(flatten(node.doc()@, node.id()), mask),
        forall|p: spec_fn(KindView) -> bool| #[trigger]
            computes(filter_fn, p) ==> ids(found@) == of_kind(
                node.doc()@,
                flatten(node.doc()@, node.id()),
                p,
            ),
{
    let (found, Ghost(mask)) = traverse_nodes(node, &filter_fn);
    proof {
        let tree = node.doc()@;
        let all = flatten(tree, node.id());
        assert(answers(node, all, mask, filter_fn) && ids(found@) == select(all, mask));
        assert forall|p: spec_fn(KindView) -> bool| #[trigger]
            computes(filter_fn, p) implies ids(found@) == of_kind(tree, all, p) by {
            assert forall|i: int| 0 <= i < all.len() implies mask[i] == p(
                tree[#[trigger] all[i]].data.kind,
            ) by {
                lemma_flatten_in_tree(tree, node.id(), 0);
                node.doc().lemma_data_at(all[i]);
            }
            lemma_select_filter(all, mask, |j: int| p(tree[j].data.kind));
        }
    }
    found
}

/// A node carries text when its content is not empty, or when it is a code
/// block whose literal is not empty.
pub open spec fn has_content(data: DataView) -> bool {
    data.content.len() > 0 || (data.kind matches KindView::CodeBlock { literal, .. }
        && literal.len() > 0)
}

/// The descendants of `node` that carry text, in document order.
pub fn flatten_nodes_with_content<'a>(node: NodeRef<'a>) -> (found: Vec<NodeRef<'a>>)
    requires
        node.wf(),
    ensures
        within(found@, node),
        ids(found@) == flatten(node.doc()@, node.id()).filter(
            |j: int| has_content(node.doc()@[j].data),
        ),
{
    let all = flatten_nodes(node);
    let ghost tree = node.doc()@;
    let ghost carries = |j: int| has_content(tree[j].data);
    let mut found: Vec<NodeRef<'a>> = Vec::new();
    let mut n: usize = 0;
    assert(ids(all@).take(0) =~= Seq::<int>::empty());
    assert(ids(found@) =~= ids(all@).take(0).filter(carries)) by {
        reveal(Seq::filter);
    }
    while n < all.len()
        invariant
            n <= all.len(),
            tree == node.doc()@,
            carries == |j: int| has_content(tree[j].data),
            within(all@, node),
            within(found@, node),
            ids(found@) == ids(all@).take(n as int).filter(carries),
        decreases all.len() - n,
    {
        let child = all[n];
        let data = child.data();
        let keep = if data.content.is_empty() {
            match &data.kind {
                NodeKind::CodeBlock { literal, .. } => !literal.is_empty(),
                _ => false,
            }
        } else {
            true
        };
        let ghost before = found@;
        if keep {
            found.push(child);
        }
        proof {
            let listed = ids(all@);
            assert(keep == carries(listed[n as int]));
            assert(listed.take(n + 1).drop_last() =~= listed.take(n as int));
            reveal(Seq::filter);
            if keep {
                assert(ids(found@) =~= ids(before).push(child.id()));
            }
        }
        n += 1;
    }
    assert(ids(all@).take(n as int) =~= ids(all@));
    found
}

/// `f` has been called on each of the nodes, and has returned.
pub open spec fn called_on<'a, F: Fn(NodeRef<'a>)>(f: F, visited: Seq<NodeRef<'a>>) -> bool {
    forall|i: int| 0 <= i < visited.len() ==> call_ensures(f, (#[trigger] visited[i],), ())
}

fn visit<'a, F: Fn(NodeRef<'a>)>(node: NodeRef<'a>, f: &F) -> (visited: Ghost<Seq<NodeRef<'a>>>)
    requires
        node.wf(),
        forall|r: NodeRef<'a>| r.wf() && r.doc() == node.doc() ==> call_requires(*f, (r,)),
    ensures
        within(visited@, node),
        ids(visited@) == seq![node.id()] + flatten(node.doc()@, node.id()),
        called_on(*f, visited@),
    decreases node.doc()@.len() - node.id(),
{
    let ghost tree = node.doc()@;
    f(node);
    let ghost mut visited: Seq<NodeRef<'a>> = seq![node];
    let ghost mut seen: Seq<int> = Seq::empty();
    let children = node.children();
    let mut k: usize = 0;
    assert(ids(visited) =~= seq![node.id()] + seen);
    while k < children.len()
        invariant
            node.wf(),
            tree == node.doc()@,
            forall|r: NodeRef<'a>| r.wf() && r.doc() == node.doc() ==> call_requires(*f, (r,)),
            ids(children@) == tree[node.id()].children,
            within(children@, node),
            k <= children.len(),
            seen + flatten_from(tree, node.id(), k as int) == flatten(tree, node.id()),
            within(visited, node),
            ids(visited) == seq![node.id()] + seen,
            called_on(*f, visited),
        decreases children.len() - k,
    {
        let child = children[k];
        let ghost c = child.id();
        assert(c == ids(children@)[k as int]);
        let Ghost(inner) = visit(child, f);
        proof {
            let block = seq![c] + flatten(tree, c);
            assert(flatten_from(tree, node.id(), k as int) == block + flatten_from(
                tree,
                node.id(),
                k + 1,
            ));
            assert((seen + block) + flatten_from(tree, node.id(), k + 1) =~= seen + (block
                + flatten_from(tree, node.id(), k + 1)));
            assert(ids(inner) == block);
            assert(ids(visited + inner) =~= ids(visited) + ids(inner));
            assert(ids(visited + inner) =~= seq![node.id()] + (seen + block));
            visited = visited + inner;
            seen = seen + block;
        }
        k += 1;
    }
    assert(seen =~= flatten(tree, node.id()));
    Ghost(visited)
}

/// Calls `f` on `node` and then on every descendant of it, in document order.
pub fn iter_nodes<'a, F: Fn(NodeRef<'a>)>(node: NodeRef<'a>, f: &F)
    requires
        node.wf(),
        forall|r: NodeRef<'a>| r.wf() && r.doc() == node.doc() ==> call_requires(*f, (r,)),
    ensures
        exists|visited: Seq<NodeRef<'a>>|
            {
                &&& within(visited, node)
                &&& ids(visited) == seq![node.id()] + flatten(node.doc()@, node.id())
                &&& called_on(*f, visited)
            },
{
    let Ghost(visited) = visit(node, f);
    assert(within(visited, node) && ids(visited) == seq![node.id()] + flatten(
        node.doc()@,
        node.id(),
    ) && called_on(*f, visited));
}

} // verus!
