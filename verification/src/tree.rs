//! The document tree: an arena of nodes that refer to each other by index.

use crate::kind::{KindView, NodeKind};
use vstd::prelude::*;

verus! {

/// What a node carries besides its place in the tree.
#[derive(Clone, Debug, PartialEq, Eq)]
pub struct NodeData {
    /// The structural kind of the node.
    pub kind: NodeKind,
    /// The raw byte payload; empty for purely structural nodes.
    pub content: Vec<u8>,
    /// The column of the source text at which the node starts.
    pub start_column: usize,
}

/// The mathematical value of a [`NodeData`].
pub struct DataView {
    pub kind: KindView,
    pub content: Seq<u8>,
    pub start_column: usize,
}

impl View for NodeData {
    type V = DataView;

    open spec fn view(&self) -> DataView {
        DataView { kind: self.kind@, content: self.content@, start_column: self.start_column }
    }
}

/// One node of the mathematical tree: its data, its parent and its children
/// in document order, all by index into the sequence of nodes.
pub struct NodeModel {
    pub data: DataView,
    pub parent: Option<int>,
    pub children: Seq<int>,
}

/// A sequence of nodes is a tree rooted at index 0 when every child lies
/// after its parent, the children of a node are listed in increasing order,
/// and parent and child links agree in both directions.
pub open spec fn well_formed(tree: Seq<NodeModel>) -> bool {
    &&& tree.len() >= 1
    &&& tree[0].parent is None
    &&& forall|i: int, k: int|
        0 <= i < tree.len() && 0 <= k < tree[i].children.len() ==> {
            &&& i < #[trigger] tree[i].children[k] < tree.len()
            &&& tree[tree[i].children[k]].parent == Some(i)
        }
    &&& forall|i: int, j: int, k: int|
        0 <= i < tree.len() && 0 <= j < k < tree[i].children.len()
            ==> #[trigger] tree[i].children[j] < #[trigger] tree[i].children[k]
    &&& forall|c: int|
        1 <= c < tree.len() ==> {
            &&& (#[trigger] tree[c]).parent is Some
            &&& 0 <= tree[c].parent->0 < c
            &&& tree[tree[c].parent->0].children.contains(c)
        }
}

/// The tree that results from appending a new last child to `parent`.
pub open spec fn with_child(tree: Seq<NodeModel>, parent: int, data: DataView) -> Seq<NodeModel> {
    tree.update(
        parent,
        NodeModel {
            data: tree[parent].data,
            parent: tree[parent].parent,
            children: tree[parent].children.push(tree.len() as int),
        },
    ).push(NodeModel { data, parent: Some(parent), children: Seq::empty() })
}

#[derive(Debug)]
struct Slot {
    data: NodeData,
    parent: Option<usize>,
    children: Vec<usize>,
}

/// A parsed document: the arena that owns every node of one tree.
#[derive(Debug)]
pub struct Document {
    nodes: Vec<Slot>,
}

impl View for Document {
    type V = Seq<NodeModel>;

    closed spec fn view(&self) -> Seq<NodeModel> {
        Seq::new(
            self.nodes@.len(),
            |i: int|
                NodeModel {
                    data: self.nodes@[i].data@,
                    parent: match self.nodes@[i].parent {
                        Some(p) => Some(p as int),
                        None => None,
                    },
                    children: self.nodes@[i].children@.map_values(|c: usize| c as int),
                },
        )
    }
}

impl Document {
    /// The invariant of the arena: its nodes form a tree.
    pub open spec fn wf(&self) -> bool {
        well_formed(self@)
    }

    /// The data stored for node `i`.
    pub closed spec fn data_at(&self, i: int) -> NodeData {
        self.nodes@[i].data
    }

    /// The view of a document shows the view of the data stored for each node.
    pub proof fn lemma_data_at(&self, i: int)
        requires
            0 <= i < self@.len(),
        ensures
            self.data_at(i)@ == self@[i].data,
    {
    }

    /// A document that holds only a root with the given data.
    pub fn new(root: NodeData) -> (doc: Document)
        ensures
            doc.wf(),
            doc@ == seq![NodeModel { data: root@, parent: None, children: Seq::empty() }],
            doc.data_at(0) == root,
    {
        let mut nodes: Vec<Slot> = Vec::new();
        nodes.push(Slot { data: root, parent: None, children: Vec::new() });
        let doc = Document { nodes };
        proof {
            assert(doc.nodes@[0].children@.map_values(|c: usize| c as int) =~= Seq::empty());
            assert(doc@ =~= seq![
                NodeModel { data: root@, parent: None, children: Seq::empty() },
            ]);
        }
        doc
    }

    /// The number of nodes, the root included.
    pub fn len(&self) -> (n: usize)
        ensures
            n == self@.len(),
    {
        self.nodes.len()
    }

    /// Appends a node as the new last child of `parent` and returns its
    /// index; `None`, with the document unchanged, when there is no such
    /// parent.
    pub fn add_child(&mut self, parent: usize, data: NodeData) -> (added: Option<usize>)
        requires
            old(self).wf(),
        ensures
            final(self).wf(),
            parent < old(self)@.len() ==> {
                &&& added == Some(old(self)@.len() as usize)
                &&& final(self)@ == with_child(old(self)@, parent as int, data@)
                &&& final(self).data_at(old(self)@.len() as int) == data
                &&& forall|i: int|
                    0 <= i < old(self)@.len() ==> final(self).data_at(i) == old(self).data_at(i)
            },
            parent >= old(self)@.len() ==> added is None && *final(self) == *old(self),
    {
        let index = self.nodes.len();
        if parent >= index {
            return None;
        }
        let ghost before = *self;
        self.nodes[parent].children.push(index);
        self.nodes.push(Slot { data, parent: Some(parent), children: Vec::new() });
        proof {
            let grown = with_child(before@, parent as int, data@);
            assert(self@.len() == grown.len());
            assert forall|i: int| 0 <= i < grown.len() implies self@[i] == grown[i] by {
                if i == parent {
                    assert(self@[i].children =~= grown[i].children);
                } else if i < index {
                    assert(self.nodes@[i] == before.nodes@[i]);
                } else {
                    assert(self@[i].children =~= grown[i].children);
                }
            }
            assert(self@ =~= grown);
            lemma_with_child_well_formed(before@, parent as int, data@);
        }
        Some(index)
    }
}

/// A reference to one node of a document.
#[derive(Clone, Copy, Debug)]
pub struct NodeRef<'a> {
    doc: &'a Document,
    index: usize,
}

impl<'a> NodeRef<'a> {
    /// The document that the node belongs to.
    pub closed spec fn doc(self) -> Document {
        *self.doc
    }

    /// The index of the node in its document.
    pub closed spec fn id(self) -> int {
        self.index as int
    }

    /// The reference points at a node of a well-formed document.
    pub open spec fn wf(self) -> bool {
        self.doc().wf() && 0 <= self.id() < self.doc()@.len()
    }

    /// The node that the reference points at.
    pub open spec fn model(self) -> NodeModel {
        self.doc()@[self.id()]
    }

    /// The index of the node in its document.
    pub fn index(&self) -> (i: usize)
        ensures
            i == self.id(),
    {
        self.index
    }

    /// The data of the node.
    pub fn data(&self) -> (data: &'a NodeData)
        requires
            self.wf(),
        ensures
            *data == self.doc().data_at(self.id()),
            data@ == self.model().data,
    {
        &self.doc.nodes[self.index].data
    }

    /// The parent of the node; `None` for the root.
    pub fn parent(&self) -> (parent: Option<NodeRef<'a>>)
        requires
            self.wf(),
        ensures
            match parent {
                Some(p) => p.wf() && p.doc() == self.doc() && self.model().parent == Some(p.id()),
                None => self.model().parent is None,
            },
    {
        match self.doc.nodes[self.index].parent {
            Some(p) => {
                assert(self.doc@[self.index as int].parent == Some(p as int));
                Some(NodeRef { doc: self.doc, index: p })
            },
            None => None,
        }
    }

    /// The children of the node, in document order.
    pub fn children(&self) -> (children: Vec<NodeRef<'a>>)
        requires
            self.wf(),
        ensures
            ids(children@) == self.model().children,
            forall|k: int|
                0 <= k < children@.len() ==> (#[trigger] children@[k]).doc() == self.doc()
                    && children@[k].wf(),
    {
        let list = &self.doc.nodes[self.index].children;
        let mut children: Vec<NodeRef<'a>> = Vec::new();
        let mut k: usize = 0;
        while k < list.len()
            invariant
                self.wf(),
                *list == self.doc.nodes@[self.index as int].children,
                k <= list.len(),
                children@.len() == k,
                forall|j: int|
                    0 <= j < k ==> (#[trigger] children@[j]).doc() == self.doc()
                        && children@[j].id() == list@[j],
            decreases list.len() - k,
        {
            children.push(NodeRef { doc: self.doc, index: list[k] });
            k += 1;
        }
        proof {
            let model = self.model().children;
            assert(model.len() == list@.len());
            assert forall|j: int| 0 <= j < children@.len() implies (#[trigger] children@[j]).wf()
                && ids(children@)[j] == model[j] by {
                assert(model[j] == list@[j] as int);
            }
            assert(ids(children@) =~= model);
        }
        children
    }
}

/// The indices of the nodes that a sequence of references points at.
pub open spec fn ids(refs: Seq<NodeRef<'_>>) -> Seq<int> {
    refs.map_values(|r: NodeRef<'_>| r.id())
}

impl Document {
    /// A reference to the root.
    pub fn root(&self) -> (root: NodeRef<'_>)
        requires
            self.wf(),
        ensures
            root.wf(),
            root.doc() == *self,
            root.id() == 0,
    {
        NodeRef { doc: self, index: 0 }
    }

    /// A reference to the node at `index`, if the document has one there.
    pub fn node(&self, index: usize) -> (node: Option<NodeRef<'_>>)
        requires
            self.wf(),
        ensures
            match node {
                Some(r) => index < self@.len() && r.wf() && r.doc() == *self && r.id() == index,
                None => index >= self@.len(),
            },
    {
        if index < self.nodes.len() {
            Some(NodeRef { doc: self, index })
        } else {
            None
        }
    }
}

/// Appending a child to a node of a tree gives a tree.
pub proof fn lemma_with_child_well_formed(tree: Seq<NodeModel>, parent: int, data: DataView)
    requires
        well_formed(tree),
        0 <= parent < tree.len(),
    ensures
        well_formed(with_child(tree, parent, data)),
{
    let grown = with_child(tree, parent, data);
    let fresh = tree.len() as int;
    assert forall|i: int, k: int|
        0 <= i < grown.len() && 0 <= k < grown[i].children.len() implies {
        &&& i < #[trigger] grown[i].children[k] < grown.len()
        &&& grown[grown[i].children[k]].parent == Some(i)
    } by {
        if i == parent && k == tree[parent].children.len() {
        } else {
            assert(grown[i].children[k] == tree[i].children[k]);
        }
    }
    assert forall|i: int, j: int, k: int|
        0 <= i < grown.len() && 0 <= j < k < grown[i].children.len() implies
        #[trigger] grown[i].children[j] < #[trigger] grown[i].children[k] by {
        assert(grown[i].children[j] == tree[i].children[j]);
        if i == parent && k == tree[parent].children.len() {
        } else {
            assert(grown[i].children[k] == tree[i].children[k]);
        }
    }
    assert forall|c: int| 1 <= c < grown.len() implies {
        &&& (#[trigger] grown[c]).parent is Some
        &&& 0 <= grown[c].parent->0 < c
        &&& grown[grown[c].parent->0].children.contains(c)
    } by {
        if c == fresh {
            assert(grown[parent].children[tree[parent].children.len() as int] == c);
        } else {
            assert(tree[c].parent is Some);
            let p = tree[c].parent->0;
            let k = choose|k: int| 0 <= k < tree[p].children.len() && tree[p].children[k] == c;
            assert(grown[p].children[k] == c);
        }
    }
}

} // verus!
