use vstd::prelude::*;

verus! {

/// Index of a node in a document's arena.
#[derive(Clone, Copy, Debug, PartialEq, Eq, Hash, Structural)]
pub struct NodeId(u32);

impl View for NodeId {
    type V = nat;

    closed spec fn view(&self) -> nat {
        self.0 as nat
    }
}

/// The identifier whose index is `i` (for `0 <= i <= u32::MAX`).
pub closed spec fn nid(i: int) -> NodeId {
    NodeId(i as u32)
}

pub broadcast proof fn lemma_nid_view(i: int)
    requires
        0 <= i <= u32::MAX,
    ensures
        #[trigger] nid(i)@ == i,
{
}

pub broadcast proof fn lemma_view_nid(x: NodeId)
    ensures
        #[trigger] nid(x@ as int) == x,
        x@ <= u32::MAX,
{
}

pub broadcast proof fn lemma_view_injective(x: NodeId, y: NodeId)
    ensures
        #[trigger] x@ == #[trigger] y@ <==> x == y,
{
}

pub broadcast group group_node_id {
    lemma_nid_view,
    lemma_view_nid,
    lemma_view_injective,
}

impl NodeId {
    /// An identifier names an index below `u32::MAX`, the most nodes an arena holds.
    #[verifier::type_invariant]
    spec fn below_max(self) -> bool {
        self.0 < u32::MAX
    }

    /// Builds the identifier of the node at `index`; an arena holds fewer than `u32::MAX` nodes.
    pub fn new(index: usize) -> (id: NodeId)
        requires
            index < u32::MAX,
        ensures
            id@ == index,
    {
        NodeId(index as u32)
    }

    /// The arena index that this identifier names.
    pub fn index(self) -> (index: usize)
        ensures
            index == self@,
            index < u32::MAX,
    {
        proof {
            use_type_invariant(self);
        }
        self.0 as usize
    }
}

/// An attribute of an element: a name and an optional value.
#[derive(Clone, Debug)]
pub struct Attr {
    pub name: String,
    pub value: Option<String>,
}

/// The data that a doctype node carries.
#[derive(Clone, Debug)]
pub struct DoctypeData {
    pub name: String,
    pub public_id: String,
    pub system_id: String,
}

/// The data that a processing-instruction node carries.
#[derive(Clone, Debug)]
pub struct ProcessingInstructionData {
    pub target: String,
    pub data: String,
}

/// The data that an element node carries. `namespace` is `None` for the HTML namespace.
#[derive(Clone, Debug)]
pub struct ElementData {
    pub local_name: String,
    pub attrs: Vec<Attr>,
    pub namespace: Option<String>,
}

/// What a node is.
#[derive(Clone, Debug)]
pub enum NodeType {
    Document,
    Element(ElementData),
    Text(String),
    CData(String),
    Declaration(String),
    TemplateString(String),
    Comment(String),
    Doctype(Box<DoctypeData>),
    ProcessingInstruction(Box<ProcessingInstructionData>),
}

/// A node of the arena: its links to its neighbours and what it is.
#[derive(Clone, Debug)]
pub struct Node {
    pub parent: Option<NodeId>,
    pub first_child: Option<NodeId>,
    pub last_child: Option<NodeId>,
    pub prev_sibling: Option<NodeId>,
    pub next_sibling: Option<NodeId>,
    pub node_type: NodeType,
}

impl Node {
    /// A node of the given kind with no links.
    pub fn new(node_type: NodeType) -> (node: Node)
        ensures
            node == Node::fresh(node_type),
            node.parent is None,
            node.first_child is None,
            node.last_child is None,
            node.prev_sibling is None,
            node.next_sibling is None,
            node.node_type == node_type,
    {
        Node {
            parent: None,
            first_child: None,
            last_child: None,
            prev_sibling: None,
            next_sibling: None,
            node_type,
        }
    }

    /// The node of the given kind with no links.
    pub open spec fn fresh(node_type: NodeType) -> Node {
        Node {
            parent: None,
            first_child: None,
            last_child: None,
            prev_sibling: None,
            next_sibling: None,
            node_type,
        }
    }

    pub open spec fn is_unlinked(self) -> bool {
        &&& self.parent is None
        &&& self.first_child is None
        &&& self.last_child is None
        &&& self.prev_sibling is None
        &&& self.next_sibling is None
    }
}

impl ElementData {
    /// The element's tag name.
    pub fn tag_name(&self) -> (name: &str)
        ensures
            name@ == self.local_name@,
    {
        self.local_name.as_str()
    }
}

pub open spec fn first_of(s: Seq<NodeId>) -> Option<NodeId> {
    if s.len() == 0 {
        None
    } else {
        Some(s[0])
    }
}

pub open spec fn last_of(s: Seq<NodeId>) -> Option<NodeId> {
    if s.len() == 0 {
        None
    } else {
        Some(s.last())
    }
}

pub open spec fn prev_in(s: Seq<NodeId>, i: int) -> Option<NodeId> {
    if i <= 0 {
        None
    } else {
        Some(s[i - 1])
    }
}

pub open spec fn next_in(s: Seq<NodeId>, i: int) -> Option<NodeId> {
    if i + 1 < s.len() {
        Some(s[i + 1])
    } else {
        None
    }
}

/// `s` with the occurrence of `x` taken out (unchanged when `x` does not occur).
pub open spec fn remove_value(s: Seq<NodeId>, x: NodeId) -> Seq<NodeId> {
    if s.contains(x) {
        s.remove(s.index_of(x))
    } else {
        s
    }
}

/// An arena of nodes forming a forest; `root` is the document node.
/// The ghost fields record each node's children in order and its depth.
pub struct Document {
    pub nodes: Vec<Node>,
    pub root: NodeId,
    pub root_decomposed: bool,
    pub kids: Ghost<Seq<Seq<NodeId>>>,
    pub depth: Ghost<Seq<nat>>,
    pub bound: Ghost<nat>,
}

impl Document {
    /// Number of nodes in the arena.
    pub open spec fn len(self) -> nat {
        self.nodes@.len()
    }

    pub open spec fn valid(self, id: NodeId) -> bool {
        id@ < self.nodes@.len()
    }

    pub open spec fn node_at(self, id: NodeId) -> Node {
        self.nodes@[id@ as int]
    }

    pub open spec fn parent_of(self, id: NodeId) -> Option<NodeId> {
        self.nodes@[id@ as int].parent
    }

    pub open spec fn type_of(self, id: NodeId) -> NodeType {
        self.nodes@[id@ as int].node_type
    }

    /// The children of `id`, in order.
    pub closed spec fn children(self, id: NodeId) -> Seq<NodeId> {
        self.kids@[id@ as int]
    }

    spec fn wf_shape(self) -> bool {
        &&& self.kids@.len() == self.nodes@.len()
        &&& self.depth@.len() == self.nodes@.len()
        &&& self.nodes@.len() <= u32::MAX
        &&& self.root@ < self.nodes@.len()
    }

    spec fn wf_kids(self) -> bool {
        forall|p: int|
            0 <= p < self.nodes@.len() ==> {
                &&& (#[trigger] self.kids@[p]).no_duplicates()
                &&& forall|i: int|
                    0 <= i < self.kids@[p].len() ==> (#[trigger] self.kids@[p][i])@
                        < self.nodes@.len()
            }
    }

    spec fn wf_ends(self) -> bool {
        forall|p: int|
            0 <= p < self.nodes@.len() ==> {
                &&& (#[trigger] self.nodes@[p]).first_child == first_of(self.kids@[p])
                &&& self.nodes@[p].last_child == last_of(self.kids@[p])
            }
    }

    spec fn wf_child_links(self) -> bool {
        forall|p: int, i: int|
            0 <= p < self.nodes@.len() && 0 <= i < self.kids@[p].len() ==> {
                let c = (#[trigger] self.kids@[p][i])@ as int;
                &&& self.nodes@[c].parent == Some(nid(p))
                &&& self.nodes@[c].prev_sibling == prev_in(self.kids@[p], i)
                &&& self.nodes@[c].next_sibling == next_in(self.kids@[p], i)
            }
    }

    spec fn wf_parent_links(self) -> bool {
        forall|c: int|
            0 <= c < self.nodes@.len() ==> match (#[trigger] self.nodes@[c]).parent {
                Some(q) => {
                    &&& q@ < self.nodes@.len()
                    &&& self.kids@[q@ as int].contains(nid(c))
                    &&& self.depth@[c] == self.depth@[q@ as int] + 1
                },
                None => {
                    &&& self.nodes@[c].prev_sibling is None
                    &&& self.nodes@[c].next_sibling is None
                },
            }
    }

    spec fn wf_depth(self) -> bool {
        forall|c: int| 0 <= c < self.nodes@.len() ==> #[trigger] self.depth@[c] < self.bound@
    }

    /// The links of the arena agree with its record of children, and the parent relation has no cycle.
    #[verifier::opaque]
    pub closed spec fn wf(self) -> bool {
        &&& self.wf_shape()
        &&& self.wf_kids()
        &&& self.wf_ends()
        &&& self.wf_child_links()
        &&& self.wf_parent_links()
        &&& self.wf_depth()
    }

    /// Whether `x` is `top` or lies below it.
    pub closed spec fn in_subtree(self, x: NodeId, top: NodeId) -> bool
        decreases self.depth@[x@ as int],
    {
        if x == top {
            true
        } else {
            match self.nodes@[x@ as int].parent {
                Some(q) => if self.depth@[q@ as int] < self.depth@[x@ as int] {
                    self.in_subtree(q, top)
                } else {
                    false
                },
                None => false,
            }
        }
    }

    /// The same nodes, children and node kinds: only the values carried by nodes may differ.
    pub open spec fn same_shape(self, other: Document) -> bool {
        &&& self.nodes@.len() == other.nodes@.len()
        &&& self.root == other.root
        &&& forall|i: int| 0 <= i < self.nodes@.len() ==> #[trigger] self.nodes@[i].parent == other.nodes@[i].parent
        &&& forall|x: NodeId| self.valid(x) ==> #[trigger] self.children(x) == other.children(x)
    }

    pub(crate) proof fn lemma_wf_child(self, p: NodeId, i: int)
        requires
            self.wf(),
            self.valid(p),
            0 <= i < self.children(p).len(),
        ensures
            self.valid(self.children(p)[i]),
            self.parent_of(self.children(p)[i]) == Some(p),
            self.depth@[self.children(p)[i]@ as int] == self.depth@[p@ as int] + 1,
            self.depth@[self.children(p)[i]@ as int] < self.bound@,
            self.depth@[p@ as int] < self.bound@,
            self.node_at(self.children(p)[i]).prev_sibling == prev_in(self.children(p), i),
            self.node_at(self.children(p)[i]).next_sibling == next_in(self.children(p), i),
    {
        reveal(Document::wf);
        broadcast use group_node_id;
        let c = self.kids@[p@ as int][i];
        assert(self.kids@[p@ as int][i]@ < self.nodes@.len());
    }

    pub(crate) proof fn lemma_wf_basic(self)
        requires
            self.wf(),
        ensures
            self.kids@.len() == self.nodes@.len(),
            self.depth@.len() == self.nodes@.len(),
            self.nodes@.len() <= u32::MAX,
            self.valid(self.root),
            forall|c: int| 0 <= c < self.nodes@.len() ==> #[trigger] self.depth@[c] < self.bound@,
    {
        reveal(Document::wf);
    }

    pub(crate) proof fn lemma_wf_ends_at(self, x: NodeId)
        requires
            self.wf(),
            self.valid(x),
        ensures
            self.node_at(x).first_child == first_of(self.children(x)),
            self.node_at(x).last_child == last_of(self.children(x)),
            self.children(x).no_duplicates(),
            self.kids@.len() == self.nodes@.len(),
            self.depth@.len() == self.nodes@.len(),
    {
        reveal(Document::wf);
        assert(self.nodes@[x@ as int] == self.nodes@[x@ as int]);
    }

    pub(crate) proof fn lemma_wf_parent(self, c: NodeId)
        requires
            self.wf(),
            self.valid(c),
        ensures
            self.parent_of(c) matches Some(q) ==> {
                &&& self.valid(q)
                &&& self.children(q).contains(c)
                &&& self.depth@[q@ as int] < self.depth@[c@ as int]
                &&& self.depth@[c@ as int] == self.depth@[q@ as int] + 1
            },
            self.parent_of(c) is None ==> {
                &&& self.node_at(c).prev_sibling is None
                &&& self.node_at(c).next_sibling is None
            },
    {
        reveal(Document::wf);
        broadcast use group_node_id;
        assert(self.nodes@[c@ as int] == self.nodes@[c@ as int]);
    }

    /// An empty document: one document node, which is the root.
    pub fn empty() -> (document: Self)
        ensures
            document.wf(),
            document.len() == 1,
            document.root@ == 0,
            document.type_of(document.root) == NodeType::Document,
            document.parent_of(document.root) is None,
            document.children(document.root) == Seq::<NodeId>::empty(),
            !document.root_decomposed,
    {
        broadcast use group_node_id;
        reveal(Document::wf);
        let root = NodeId::new(0);
        let mut nodes = Vec::new();
        nodes.push(Node::new(NodeType::Document));
        let ghost kids: Seq<Seq<NodeId>> = seq![Seq::empty()];
        let ghost depth: Seq<nat> = seq![0];
        let document = Document {
            nodes,
            root,
            root_decomposed: false,
            kids: Ghost(kids),
            depth: Ghost(depth),
            bound: Ghost(1),
        };
        assert(document.wf());
        document
    }

    /// The node named by `id`.
    pub fn node(&self, id: NodeId) -> (node: &Node)
        requires
            self.valid(id),
        ensures
            *node == self.node_at(id),
    {
        &self.nodes[id.index()]
    }

    /// Adds an unlinked node to the arena.
    pub(crate) fn push_node(&mut self, node: Node) -> (id: NodeId)
        requires
            old(self).wf(),
            node.is_unlinked(),
            old(self).len() < u32::MAX,
        ensures
            final(self).wf(),
            id@ == old(self).len(),
            final(self).nodes@ == old(self).nodes@.push(node),
            final(self).root == old(self).root,
            final(self).root_decomposed == old(self).root_decomposed,
            final(self).children(id) == Seq::<NodeId>::empty(),
            forall|x: NodeId| old(self).valid(x) ==> #[trigger] final(self).children(x) == old(self).children(x),
    {
        broadcast use group_node_id;
        reveal(Document::wf);
        let id = NodeId::new(self.nodes.len());
        self.nodes.push(node);
        self.kids = Ghost(self.kids@.push(Seq::empty()));
        self.depth = Ghost(self.depth@.push(0));
        proof {
            let n = self.nodes@.len();
            assert(self.wf_shape());
            assert(self.wf_kids()) by {
                assert forall|p: int| 0 <= p < n implies {
                    &&& (#[trigger] self.kids@[p]).no_duplicates()
                    &&& forall|i: int| 0 <= i < self.kids@[p].len() ==> (#[trigger] self.kids@[p][i])@ < n
                } by {
                    if p < n - 1 {
                        assert(old(self).kids@[p] == self.kids@[p]);
                    }
                }
            }
            assert(self.wf_ends()) by {
                assert forall|p: int| 0 <= p < n implies {
                    &&& (#[trigger] self.nodes@[p]).first_child == first_of(self.kids@[p])
                    &&& self.nodes@[p].last_child == last_of(self.kids@[p])
                } by {
                    if p < n - 1 {
                        assert(old(self).nodes@[p] == self.nodes@[p]);
                    }
                }
            }
            assert(self.wf_child_links()) by {
                assert forall|p: int, i: int| 0 <= p < n && 0 <= i < self.kids@[p].len() implies {
                    let c = (#[trigger] self.kids@[p][i])@ as int;
                    &&& self.nodes@[c].parent == Some(nid(p))
                    &&& self.nodes@[c].prev_sibling == prev_in(self.kids@[p], i)
                    &&& self.nodes@[c].next_sibling == next_in(self.kids@[p], i)
                } by {
                    assert(p < n - 1);
                    assert(old(self).kids@[p][i] == self.kids@[p][i]);
                    assert(old(self).kids@[p][i]@ < n - 1);
                }
            }
            assert(self.wf_parent_links()) by {
                assert forall|c: int| 0 <= c < n implies match (#[trigger] self.nodes@[c]).parent {
                    Some(q) => {
                        &&& q@ < n
                        &&& self.kids@[q@ as int].contains(nid(c))
                        &&& self.depth@[c] == self.depth@[q@ as int] + 1
                    },
                    None => {
                        &&& self.nodes@[c].prev_sibling is None
                        &&& self.nodes@[c].next_sibling is None
                    },
                } by {
                    if c < n - 1 {
                        assert(old(self).nodes@[c] == self.nodes@[c]);
                        if let Some(q) = self.nodes@[c].parent {
                            assert(old(self).kids@[q@ as int] == self.kids@[q@ as int]);
                        }
                    }
                }
            }
            assert(self.wf_depth()) by {
                assert(old(self).depth@[0] < self.bound@);
            }
        }
        id
    }

    pub(crate) proof fn lemma_only_parent_holds(self, p: NodeId, x: NodeId)
        requires
            self.wf(),
            self.valid(p),
            self.children(p).contains(x),
        ensures
            self.valid(x),
            self.parent_of(x) == Some(p),
    {
        reveal(Document::wf);
        broadcast use group_node_id;
        let i = choose|i: int| 0 <= i < self.children(p).len() && self.children(p)[i] == x;
        self.lemma_wf_child(p, i);
    }

    /// Takes `target` out of its parent's children; the rest of the arena keeps its shape.
    #[verifier::rlimit(100)]
    #[verifier::spinoff_prover]
    pub fn detach(&mut self, target: NodeId)
        requires
            old(self).wf(),
            old(self).valid(target),
        ensures
            final(self).wf(),
            final(self).len() == old(self).len(),
            final(self).root == old(self).root,
            final(self).root_decomposed == old(self).root_decomposed,
            forall|i: int| 0 <= i < old(self).len() ==> #[trigger] final(self).nodes@[i].node_type == old(self).nodes@[i].node_type,
            final(self).parent_of(target) is None,
            forall|x: NodeId| old(self).valid(x) && x != target ==> #[trigger] final(self).parent_of(x) == old(self).parent_of(x),
            forall|x: NodeId| old(self).valid(x) ==> #[trigger] final(self).children(x) == remove_value(old(self).children(x), target),
            forall|x: NodeId| old(self).valid(x) ==> #[trigger] final(self).in_subtree(x, target) == old(self).in_subtree(x, target),
    {
        broadcast use group_node_id;
        let ghost old_doc = *self;
        proof {
            old_doc.lemma_wf_basic();
        }
        let t = target.index();
        let parent = self.nodes[t].parent;
        let previous = self.nodes[t].prev_sibling;
        let next = self.nodes[t].next_sibling;
        proof {
            old_doc.lemma_wf_parent(target);
            if let Some(p) = parent {
                let i = old_doc.children(p).index_of(target);
                old_doc.lemma_wf_child(p, i);
                if i > 0 {
                    old_doc.lemma_wf_child(p, i - 1);
                }
                if i + 1 < old_doc.children(p).len() {
                    old_doc.lemma_wf_child(p, i + 1);
                }
            }
        }
        if let Some(previous_id) = previous {
            self.nodes[previous_id.index()].next_sibling = next;
        } else if let Some(parent_id) = parent {
            self.nodes[parent_id.index()].first_child = next;
        }
        if let Some(next_id) = next {
            self.nodes[next_id.index()].prev_sibling = previous;
        } else if let Some(parent_id) = parent {
            self.nodes[parent_id.index()].last_child = previous;
        }
        self.nodes[t].parent = None;
        self.nodes[t].prev_sibling = None;
        self.nodes[t].next_sibling = None;
        proof {
            if let Some(p) = parent {
                let s = old_doc.kids@[p@ as int];
                self.kids = Ghost(old_doc.kids@.update(p@ as int, s.remove(s.index_of(target))));
            }
            assert(self.detached_from(old_doc, target));
            self.lemma_detach_wf(old_doc, target);
        }
    }

    spec fn detached_from(self, old_doc: Document, t: NodeId) -> bool {
        &&& old_doc.wf()
        &&& old_doc.valid(t)
        &&& self.nodes@.len() == old_doc.nodes@.len()
        &&& self.root == old_doc.root
        &&& self.depth == old_doc.depth
        &&& self.bound == old_doc.bound
        &&& self.kids@ == (match old_doc.parent_of(t) {
            Some(p) => old_doc.kids@.update(p@ as int, old_doc.kids@[p@ as int].remove(old_doc.kids@[p@ as int].index_of(t))),
            None => old_doc.kids@,
        })
        &&& self.node_at(t).parent is None
        &&& self.node_at(t).prev_sibling is None
        &&& self.node_at(t).next_sibling is None
        &&& self.node_at(t).first_child == old_doc.node_at(t).first_child
        &&& self.node_at(t).last_child == old_doc.node_at(t).last_child
        &&& forall|i: int| 0 <= i < self.nodes@.len() ==> #[trigger] self.nodes@[i].node_type == old_doc.nodes@[i].node_type
        &&& forall|i: int| 0 <= i < self.nodes@.len() && i != t@ ==> #[trigger] self.nodes@[i].parent == old_doc.nodes@[i].parent
        &&& forall|i: int| 0 <= i < self.nodes@.len() && i != t@ ==> {
            let o = old_doc.nodes@[i];
            let n = #[trigger] self.nodes@[i];
            let tn = old_doc.node_at(t);
            &&& n.first_child == (if tn.parent == Some(nid(i)) && tn.prev_sibling is None { tn.next_sibling } else { o.first_child })
            &&& n.last_child == (if tn.parent == Some(nid(i)) && tn.next_sibling is None { tn.prev_sibling } else { o.last_child })
            &&& n.next_sibling == (if tn.prev_sibling == Some(nid(i)) { tn.next_sibling } else { o.next_sibling })
            &&& n.prev_sibling == (if tn.next_sibling == Some(nid(i)) { tn.prev_sibling } else { o.prev_sibling })
        }
    }

    proof fn lemma_not_in_other_kids(self, t: NodeId, x: NodeId)
        requires
            self.wf(),
            self.valid(t),
            self.valid(x),
            self.parent_of(t) != Some(x),
        ensures
            !self.children(x).contains(t),
    {
        reveal(Document::wf);
        if self.children(x).contains(t) {
            self.lemma_only_parent_holds(x, t);
        }
    }

    proof fn lemma_remove_at(s: Seq<NodeId>, k: int)
        requires
            s.no_duplicates(),
            0 <= k < s.len(),
        ensures
            s.remove(k).no_duplicates(),
            !s.remove(k).contains(s[k]),
            forall|i: int| 0 <= i < k ==> #[trigger] s.remove(k)[i] == s[i],
            forall|i: int| k <= i < s.len() - 1 ==> #[trigger] s.remove(k)[i] == s[i + 1],
            forall|x: NodeId| x != s[k] ==> (s.remove(k).contains(x) <==> s.contains(x)),
    {
        let s2 = s.remove(k);
        assert forall|i: int, j: int| 0 <= i < s2.len() && 0 <= j < s2.len() && i != j implies s2[i] != s2[j] by {
            let oi = if i < k { i } else { i + 1 };
            let oj = if j < k { j } else { j + 1 };
            assert(s2[i] == s[oi]);
            assert(s2[j] == s[oj]);
        }
        if s2.contains(s[k]) {
            let j = choose|j: int| 0 <= j < s2.len() && s2[j] == s[k];
            let oj = if j < k { j } else { j + 1 };
            assert(s2[j] == s[oj]);
        }
        assert forall|x: NodeId| x != s[k] implies (s2.contains(x) <==> s.contains(x)) by {
            if s2.contains(x) {
                let j = choose|j: int| 0 <= j < s2.len() && s2[j] == x;
                let oj = if j < k { j } else { j + 1 };
                assert(s2[j] == s[oj]);
            }
            if s.contains(x) {
                let j = choose|j: int| 0 <= j < s.len() && s[j] == x;
                assert(j != k);
                let j2 = if j < k { j } else { j - 1 };
                assert(s2[j2] == x);
            }
        }
    }

    proof fn lemma_detach_wf(self, old_doc: Document, t: NodeId)
        requires
            self.detached_from(old_doc, t),
        ensures
            self.wf(),
            forall|x: NodeId| old_doc.valid(x) ==> #[trigger] self.children(x) == remove_value(old_doc.children(x), t),
            forall|x: NodeId| old_doc.valid(x) ==> #[trigger] self.in_subtree(x, t) == old_doc.in_subtree(x, t),
    {
        reveal(Document::wf);
        broadcast use group_node_id;
        old_doc.lemma_wf_parent(t);
        self.lemma_detach_subtree(old_doc, t);
        assert(self.wf_shape());
        self.lemma_detach_children(old_doc, t);
        self.lemma_detach_kids(old_doc, t);
        self.lemma_detach_ends(old_doc, t);
        self.lemma_detach_child_links(old_doc, t);
        self.lemma_detach_parent_links(old_doc, t);
        assert(self.wf_depth()) by {
            assert forall|c: int| 0 <= c < self.nodes@.len() implies #[trigger] self.depth@[c] < self.bound@ by {
                assert(old_doc.depth@[c] < old_doc.bound@);
            }
        }
    }

    proof fn lemma_detach_subtree(self, old_doc: Document, t: NodeId)
        requires
            self.detached_from(old_doc, t),
        ensures
            forall|x: NodeId| old_doc.valid(x) ==> #[trigger] self.in_subtree(x, t) == old_doc.in_subtree(x, t),
    {
        reveal(Document::wf);
        assert forall|x: NodeId| old_doc.valid(x) implies #[trigger] self.in_subtree(x, t) == old_doc.in_subtree(x, t) by {
            assert forall|i: int| 0 <= i < old_doc.nodes@.len() implies match #[trigger] old_doc.nodes@[i].parent {
                Some(q) => q@ < old_doc.nodes@.len(),
                None => true,
            } by {
                assert(old_doc.nodes@[i] == old_doc.nodes@[i]);
            }
            Self::lemma_in_subtree_same_above(old_doc, self, t, x);
        }
    }

    proof fn lemma_detach_children(self, old_doc: Document, t: NodeId)
        requires
            self.detached_from(old_doc, t),
        ensures
            forall|x: NodeId| old_doc.valid(x) ==> #[trigger] self.children(x) == remove_value(old_doc.children(x), t),
    {
        reveal(Document::wf);
        broadcast use group_node_id;
        assert forall|x: NodeId| old_doc.valid(x) implies #[trigger] self.children(x) == remove_value(old_doc.children(x), t) by {
            if old_doc.parent_of(t) != Some(x) {
                old_doc.lemma_not_in_other_kids(t, x);
            } else {
                old_doc.lemma_wf_parent(t);
            }
        }
    }

    proof fn lemma_detach_kids(self, old_doc: Document, t: NodeId)
        requires
            self.detached_from(old_doc, t),
        ensures
            self.wf_kids(),
    {
        reveal(Document::wf);
        broadcast use group_node_id;
        let n = self.nodes@.len();
        old_doc.lemma_wf_parent(t);
        assert forall|q: int| 0 <= q < n implies {
            &&& (#[trigger] self.kids@[q]).no_duplicates()
            &&& forall|i: int| 0 <= i < self.kids@[q].len() ==> (#[trigger] self.kids@[q][i])@ < n
        } by {
            if let Some(p) = old_doc.parent_of(t) {
                if q == p@ {
                    let s = old_doc.kids@[q];
                    let k = s.index_of(t);
                    Self::lemma_remove_at(s, k);
                    assert forall|i: int| 0 <= i < self.kids@[q].len() implies (#[trigger] self.kids@[q][i])@ < n by {
                        if i < k {
                            assert(self.kids@[q][i] == s[i]);
                        } else {
                            assert(self.kids@[q][i] == s[i + 1]);
                        }
                    }
                }
            }
        }
    }

    proof fn lemma_detach_ends(self, old_doc: Document, t: NodeId)
        requires
            self.detached_from(old_doc, t),
        ensures
            self.wf_ends(),
    {
        reveal(Document::wf);
        broadcast use group_node_id;
        let n = self.nodes@.len();
        old_doc.lemma_wf_parent(t);
        assert forall|q: int| 0 <= q < n implies {
            &&& (#[trigger] self.nodes@[q]).first_child == first_of(self.kids@[q])
            &&& self.nodes@[q].last_child == last_of(self.kids@[q])
        } by {
            assert(old_doc.nodes@[q] == old_doc.nodes@[q]);
            if let Some(p) = old_doc.parent_of(t) {
                let s = old_doc.kids@[p@ as int];
                let k = s.index_of(t);
                old_doc.lemma_wf_child(p, k);
                Self::lemma_remove_at(s, k);
                if q == p@ {
                    if k > 0 {
                        old_doc.lemma_wf_child(p, k - 1);
                    } else if s.len() > 1 {
                        old_doc.lemma_wf_child(p, 1);
                    }
                    if k + 1 < s.len() {
                        old_doc.lemma_wf_child(p, k + 1);
                    } else if k > 0 {
                        old_doc.lemma_wf_child(p, k - 1);
                    }
                } else if q != t@ {
                    if old_doc.node_at(t).prev_sibling == Some(nid(q)) {
                        old_doc.lemma_wf_child(p, k - 1);
                    }
                    if old_doc.node_at(t).next_sibling == Some(nid(q)) {
                        old_doc.lemma_wf_child(p, k + 1);
                    }
                }
            }
        }
    }

    #[verifier::rlimit(40)]
    proof fn lemma_detach_child_links(self, old_doc: Document, t: NodeId)
        requires
            self.detached_from(old_doc, t),
        ensures
            self.wf_child_links(),
    {
        reveal(Document::wf);
        broadcast use group_node_id;
        let n = self.nodes@.len();
        old_doc.lemma_wf_parent(t);
        assert forall|q: int, i: int| 0 <= q < n && 0 <= i < self.kids@[q].len() implies {
            let c = (#[trigger] self.kids@[q][i])@ as int;
            &&& self.nodes@[c].parent == Some(nid(q))
            &&& self.nodes@[c].prev_sibling == prev_in(self.kids@[q], i)
            &&& self.nodes@[c].next_sibling == next_in(self.kids@[q], i)
        } by {
            match old_doc.parent_of(t) {
                Some(p) => {
                    let s = old_doc.kids@[p@ as int];
                    let k = s.index_of(t);
                    old_doc.lemma_wf_child(p, k);
                    Self::lemma_remove_at(s, k);
                    if k > 0 {
                        old_doc.lemma_wf_child(p, k - 1);
                    }
                    if k + 1 < s.len() {
                        old_doc.lemma_wf_child(p, k + 1);
                    }
                    if q == p@ {
                        let s2 = self.kids@[q];
                        let oi = if i < k { i } else { i + 1 };
                        assert(s2[i] == s[oi]);
                        old_doc.lemma_wf_child(p, oi);
                        if i > 0 {
                            let op = if i - 1 < k { i - 1 } else { i };
                            assert(s2[i - 1] == s[op]);
                        }
                        if i + 1 < s2.len() {
                            let on = if i + 1 < k { i + 1 } else { i + 2 };
                            assert(s2[i + 1] == s[on]);
                        }
                    } else {
                        old_doc.lemma_wf_child(nid(q), i);
                        old_doc.lemma_not_in_other_kids(t, nid(q));
                    }
                },
                None => {
                    old_doc.lemma_wf_child(nid(q), i);
                    old_doc.lemma_not_in_other_kids(t, nid(q));
                },
            }
        }
    }

    proof fn lemma_detach_parent_links(self, old_doc: Document, t: NodeId)
        requires
            self.detached_from(old_doc, t),
        ensures
            self.wf_parent_links(),
    {
        reveal(Document::wf);
        broadcast use group_node_id;
        let n = self.nodes@.len();
        old_doc.lemma_wf_parent(t);
        assert forall|c: int| 0 <= c < n implies match (#[trigger] self.nodes@[c]).parent {
            Some(q) => {
                &&& q@ < n
                &&& self.kids@[q@ as int].contains(nid(c))
                &&& self.depth@[c] == self.depth@[q@ as int] + 1
            },
            None => {
                &&& self.nodes@[c].prev_sibling is None
                &&& self.nodes@[c].next_sibling is None
            },
        } by {
            assert(old_doc.nodes@[c] == old_doc.nodes@[c]);
            if c != t@ {
                if let Some(p) = old_doc.parent_of(t) {
                    let s = old_doc.kids@[p@ as int];
                    let k = s.index_of(t);
                    old_doc.lemma_wf_child(p, k);
                    Self::lemma_remove_at(s, k);
                    if k > 0 {
                        old_doc.lemma_wf_child(p, k - 1);
                    }
                    if k + 1 < s.len() {
                        old_doc.lemma_wf_child(p, k + 1);
                    }
                }
            }
        }
    }

    /// Two arenas with the same depths and the same parents, but perhaps that of `t`,
    /// agree on what lies in the subtree of `t`.
    proof fn lemma_in_subtree_same_above(a: Document, b: Document, t: NodeId, x: NodeId)
        requires
            a.nodes@.len() == b.nodes@.len(),
            a.depth == b.depth,
            a.depth@.len() == a.nodes@.len(),
            x@ < a.nodes@.len(),
            forall|i: int| 0 <= i < a.nodes@.len() && i != t@ ==> #[trigger] b.nodes@[i].parent == a.nodes@[i].parent,
            forall|i: int| 0 <= i < a.nodes@.len() ==> match #[trigger] a.nodes@[i].parent {
                Some(q) => q@ < a.nodes@.len(),
                None => true,
            },
        ensures
            b.in_subtree(x, t) == a.in_subtree(x, t),
        decreases a.depth@[x@ as int],
    {
        broadcast use group_node_id;
        if x != t {
            assert(b.nodes@[x@ as int].parent == a.nodes@[x@ as int].parent);
            if let Some(q) = a.nodes@[x@ as int].parent {
                if a.depth@[q@ as int] < a.depth@[x@ as int] {
                    Self::lemma_in_subtree_same_above(a, b, t, q);
                }
            }
        }
    }

    /// Every node lies in its own subtree.
    pub proof fn lemma_in_subtree_refl(self, x: NodeId)
        ensures
            self.in_subtree(x, x),
    {
    }

    pub(crate) proof fn lemma_in_subtree_step(self, x: NodeId, top: NodeId)
        requires
            self.wf(),
            self.valid(x),
        ensures
            x != top ==> (self.in_subtree(x, top) <==> (self.parent_of(x) matches Some(q) && self.in_subtree(q, top))),
    {
        reveal(Document::wf);
        broadcast use group_node_id;
        assert(self.nodes@[x@ as int] == self.nodes@[x@ as int]);
    }

    /// Lying below is transitive: below `y`, which lies below `z`, is below `z`.
    pub proof fn lemma_in_subtree_trans(self, x: NodeId, y: NodeId, z: NodeId)
        requires
            self.wf(),
            self.valid(x),
            self.in_subtree(x, y),
            self.in_subtree(y, z),
        ensures
            self.in_subtree(x, z),
        decreases self.depth@[x@ as int],
    {
        if x != y {
            self.lemma_in_subtree_step(x, y);
            let q = self.parent_of(x).unwrap();
            self.lemma_wf_parent(x);
            self.lemma_in_subtree_trans(q, y, z);
            self.lemma_in_subtree_step(x, z);
        }
    }

    /// Whether `x` lies below `top` depends only on the parents of the nodes above `x`: where
    /// `b` gives them the parents `a` does, the two agree.
    pub proof fn lemma_in_subtree_same_parents(a: Document, b: Document, x: NodeId, top: NodeId)
        requires
            a.wf(),
            b.wf(),
            a.len() == b.len(),
            a.valid(x),
            forall|z: NodeId| a.valid(z) && #[trigger] a.in_subtree(x, z) ==> b.parent_of(z) == a.parent_of(z),
        ensures
            b.in_subtree(x, top) == a.in_subtree(x, top),
        decreases a.depth@[x@ as int],
    {
        a.lemma_in_subtree_refl(x);
        if x != top {
            a.lemma_in_subtree_step(x, top);
            b.lemma_in_subtree_step(x, top);
            a.lemma_wf_parent(x);
            if let Some(q) = a.parent_of(x) {
                a.lemma_in_subtree_refl(q);
                a.lemma_in_subtree_step(x, q);
                assert forall|z: NodeId| a.valid(z) && #[trigger] a.in_subtree(q, z) implies b.parent_of(z) == a.parent_of(z) by {
                    a.lemma_in_subtree_trans(x, q, z);
                }
                Self::lemma_in_subtree_same_parents(a, b, q, top);
            }
        }
    }

    pub(crate) proof fn lemma_in_subtree_depth(self, x: NodeId, top: NodeId)
        requires
            self.wf(),
            self.valid(x),
            self.in_subtree(x, top),
        ensures
            self.depth@[x@ as int] >= self.depth@[top@ as int],
            self.valid(top),
        decreases self.depth@[x@ as int],
    {
        reveal(Document::wf);
        broadcast use group_node_id;
        assert(self.nodes@[x@ as int] == self.nodes@[x@ as int]);
        if x != top {
            let q = self.nodes@[x@ as int].parent.unwrap();
            self.lemma_in_subtree_depth(q, top);
        }
    }

    /// `self` is `old_doc` with the parentless `child` linked in at position `k` of `parent`'s children.
    spec fn inserted_from(self, old_doc: Document, parent: NodeId, k: int, child: NodeId) -> bool {
        &&& self.insert_ghost_from(old_doc, parent, k, child)
        &&& self.insert_links_from(old_doc, parent, k, child)
    }

    spec fn insert_ghost_from(self, old_doc: Document, parent: NodeId, k: int, child: NodeId) -> bool {
        let n = old_doc.nodes@.len();
        let s = old_doc.kids@[parent@ as int];
        let dp = old_doc.depth@[parent@ as int];
        let dc = old_doc.depth@[child@ as int];
        &&& old_doc.wf()
        &&& old_doc.valid(parent)
        &&& old_doc.valid(child)
        &&& 0 <= k <= s.len()
        &&& old_doc.parent_of(child) is None
        &&& !old_doc.in_subtree(parent, child)
        &&& self.nodes@.len() == n
        &&& self.root == old_doc.root
        &&& self.kids@ == old_doc.kids@.update(parent@ as int, s.insert(k, child))
        &&& self.bound@ == old_doc.bound@ + dp + 1
        &&& self.depth@.len() == n
        &&& forall|i: int| 0 <= i < n ==> #[trigger] self.depth@[i] == (if old_doc.in_subtree(nid(i), child) {
            (old_doc.depth@[i] - dc + dp + 1) as nat
        } else {
            old_doc.depth@[i]
        })
    }

    spec fn insert_links_from(self, old_doc: Document, parent: NodeId, k: int, child: NodeId) -> bool {
        let n = old_doc.nodes@.len();
        let s = old_doc.kids@[parent@ as int];
        let before = prev_in(s, k);
        let after = if k < s.len() { Some(s[k]) } else { None };
        &&& forall|i: int| 0 <= i < n ==> #[trigger] self.nodes@[i].node_type == old_doc.nodes@[i].node_type
        &&& forall|i: int| 0 <= i < n && i != child@ ==> #[trigger] self.nodes@[i].parent == old_doc.nodes@[i].parent
        &&& self.node_at(child).parent == Some(parent)
        &&& self.node_at(child).prev_sibling == before
        &&& self.node_at(child).next_sibling == after
        &&& self.node_at(child).first_child == old_doc.node_at(child).first_child
        &&& self.node_at(child).last_child == old_doc.node_at(child).last_child
        &&& forall|i: int| 0 <= i < n && i != child@ ==> {
            let o = old_doc.nodes@[i];
            let m = #[trigger] self.nodes@[i];
            &&& m.first_child == (if i == parent@ && k == 0 { Some(child) } else { o.first_child })
            &&& m.last_child == (if i == parent@ && k == s.len() { Some(child) } else { o.last_child })
            &&& m.next_sibling == (if before == Some(nid(i)) { Some(child) } else { o.next_sibling })
            &&& m.prev_sibling == (if after == Some(nid(i)) { Some(child) } else { o.prev_sibling })
        }
    }

    proof fn lemma_insert_at(s: Seq<NodeId>, k: int, x: NodeId)
        requires
            s.no_duplicates(),
            !s.contains(x),
            0 <= k <= s.len(),
        ensures
            s.insert(k, x).no_duplicates(),
            s.insert(k, x).len() == s.len() + 1,
            s.insert(k, x)[k] == x,
            forall|i: int| 0 <= i < k ==> #[trigger] s.insert(k, x)[i] == s[i],
            forall|i: int| k < i <= s.len() ==> #[trigger] s.insert(k, x)[i] == s[i - 1],
            forall|y: NodeId| s.insert(k, x).contains(y) <==> (y == x || s.contains(y)),
    {
        let s2 = s.insert(k, x);
        assert forall|i: int, j: int| 0 <= i < s2.len() && 0 <= j < s2.len() && i != j implies s2[i] != s2[j] by {
            if i != k && j != k {
                let oi = if i < k { i } else { i - 1 };
                let oj = if j < k { j } else { j - 1 };
                assert(s2[i] == s[oi]);
                assert(s2[j] == s[oj]);
            } else if i == k {
                let oj = if j < k { j } else { j - 1 };
                assert(s2[j] == s[oj]);
            } else {
                let oi = if i < k { i } else { i - 1 };
                assert(s2[i] == s[oi]);
            }
        }
        assert forall|y: NodeId| s2.contains(y) <==> (y == x || s.contains(y)) by {
            if s2.contains(y) {
                let j = choose|j: int| 0 <= j < s2.len() && s2[j] == y;
                if j != k {
                    let oj = if j < k { j } else { j - 1 };
                    assert(s2[j] == s[oj]);
                }
            }
            if y == x {
                assert(s2[k] == x);
            }
            if s.contains(y) {
                let j = choose|j: int| 0 <= j < s.len() && s[j] == y;
                let j2 = if j < k { j } else { j + 1 };
                assert(s2[j2] == y);
            }
        }
    }

    proof fn lemma_insert_wf(self, old_doc: Document, parent: NodeId, k: int, child: NodeId)
        requires
            self.inserted_from(old_doc, parent, k, child),
        ensures
            self.wf(),
    {
        reveal(Document::wf);
        broadcast use group_node_id;
        let n = self.nodes@.len();
        assert(self.wf_shape());
        self.lemma_insert_kids(old_doc, parent, k, child);
        self.lemma_insert_ends(old_doc, parent, k, child);
        self.lemma_insert_child_links(old_doc, parent, k, child);
        self.lemma_insert_parent_links(old_doc, parent, k, child);
        assert(self.wf_depth()) by {
            assert forall|c: int| 0 <= c < n implies #[trigger] self.depth@[c] < self.bound@ by {
                assert(old_doc.depth@[c] < old_doc.bound@);
                if old_doc.in_subtree(nid(c), child) {
                    old_doc.lemma_in_subtree_depth(nid(c), child);
                }
            }
        }
    }

    proof fn lemma_child_not_held(old_doc: Document, parent: NodeId, child: NodeId)
        requires
            old_doc.wf(),
            old_doc.valid(parent),
            old_doc.valid(child),
            old_doc.parent_of(child) is None,
        ensures
            !old_doc.children(parent).contains(child),
    {
        reveal(Document::wf);
        if old_doc.children(parent).contains(child) {
            old_doc.lemma_only_parent_holds(parent, child);
        }
    }

    proof fn lemma_insert_kids(self, old_doc: Document, parent: NodeId, k: int, child: NodeId)
        requires
            self.inserted_from(old_doc, parent, k, child),
        ensures
            self.wf_kids(),
    {
        reveal(Document::wf);
        broadcast use group_node_id;
        let n = self.nodes@.len();
        Self::lemma_child_not_held(old_doc, parent, child);
        assert forall|q: int| 0 <= q < n implies {
            &&& (#[trigger] self.kids@[q]).no_duplicates()
            &&& forall|i: int| 0 <= i < self.kids@[q].len() ==> (#[trigger] self.kids@[q][i])@ < n
        } by {
            if q == parent@ {
                let s = old_doc.kids@[q];
                Self::lemma_insert_at(s, k, child);
                assert forall|i: int| 0 <= i < self.kids@[q].len() implies (#[trigger] self.kids@[q][i])@ < n by {
                    if i < k {
                        assert(self.kids@[q][i] == s[i]);
                    } else if i > k {
                        assert(self.kids@[q][i] == s[i - 1]);
                    }
                }
            }
        }
    }

    proof fn lemma_insert_ends(self, old_doc: Document, parent: NodeId, k: int, child: NodeId)
        requires
            self.inserted_from(old_doc, parent, k, child),
        ensures
            self.wf_ends(),
    {
        reveal(Document::wf);
        broadcast use group_node_id;
        let n = self.nodes@.len();
        let s = old_doc.kids@[parent@ as int];
        Self::lemma_child_not_held(old_doc, parent, child);
        Self::lemma_insert_at(s, k, child);
        assert forall|q: int| 0 <= q < n implies {
            &&& (#[trigger] self.nodes@[q]).first_child == first_of(self.kids@[q])
            &&& self.nodes@[q].last_child == last_of(self.kids@[q])
        } by {
            assert(old_doc.nodes@[q] == old_doc.nodes@[q]);
            if q == child@ {
                assert(child != parent);
            } else if q == parent@ {
                if s.len() > 0 {
                    assert(self.kids@[q].last() == self.kids@[q][s.len() as int]);
                }
            } else {
                if k > 0 && s[k - 1] == nid(q) {
                    old_doc.lemma_wf_child(parent, k - 1);
                }
                if k < s.len() && s[k] == nid(q) {
                    old_doc.lemma_wf_child(parent, k);
                }
            }
        }
    }

    #[verifier::rlimit(40)]
    proof fn lemma_insert_child_links(self, old_doc: Document, parent: NodeId, k: int, child: NodeId)
        requires
            self.inserted_from(old_doc, parent, k, child),
        ensures
            self.wf_child_links(),
    {
        reveal(Document::wf);
        let n = self.nodes@.len();
        assert forall|q: int, i: int| 0 <= q < n && 0 <= i < self.kids@[q].len() implies {
            let c = (#[trigger] self.kids@[q][i])@ as int;
            &&& self.nodes@[c].parent == Some(nid(q))
            &&& self.nodes@[c].prev_sibling == prev_in(self.kids@[q], i)
            &&& self.nodes@[c].next_sibling == next_in(self.kids@[q], i)
        } by {
            self.lemma_insert_child_link(old_doc, parent, k, child, q, i);
        }
    }

    #[verifier::rlimit(60)]
    proof fn lemma_insert_child_link(self, old_doc: Document, parent: NodeId, k: int, child: NodeId, q: int, i: int)
        requires
            self.inserted_from(old_doc, parent, k, child),
            0 <= q < self.nodes@.len(),
            0 <= i < self.kids@[q].len(),
        ensures
            ({
                let c = self.kids@[q][i]@ as int;
                &&& self.nodes@[c].parent == Some(nid(q))
                &&& self.nodes@[c].prev_sibling == prev_in(self.kids@[q], i)
                &&& self.nodes@[c].next_sibling == next_in(self.kids@[q], i)
            }),
    {
        reveal(Document::wf);
        broadcast use group_node_id;
        let s = old_doc.kids@[parent@ as int];
        Self::lemma_child_not_held(old_doc, parent, child);
        Self::lemma_insert_at(s, k, child);
        if k > 0 {
            old_doc.lemma_wf_child(parent, k - 1);
        }
        if k < s.len() {
            old_doc.lemma_wf_child(parent, k);
        }
        if q == parent@ {
            let s2 = self.kids@[q];
            if i == k {
            } else {
                let oi = if i < k { i } else { i - 1 };
                assert(s2[i] == s[oi]);
                old_doc.lemma_wf_child(parent, oi);
                assert(s[oi] != child);
                if i > 0 && i - 1 != k {
                    let op = if i - 1 < k { i - 1 } else { i - 2 };
                    assert(s2[i - 1] == s[op]);
                }
                if i + 1 < s2.len() && i + 1 != k {
                    let on = if i + 1 < k { i + 1 } else { i };
                    assert(s2[i + 1] == s[on]);
                }
            }
        } else {
            old_doc.lemma_wf_child(nid(q), i);
            let c = old_doc.kids@[q][i];
            assert(self.kids@[q][i] == c);
            assert(c != child);
            if k > 0 && s[k - 1] == c {
                assert(false);
            }
            if k < s.len() && s[k] == c {
                assert(false);
            }
        }
    }

    proof fn lemma_insert_parent_links(self, old_doc: Document, parent: NodeId, k: int, child: NodeId)
        requires
            self.inserted_from(old_doc, parent, k, child),
        ensures
            self.wf_parent_links(),
    {
        reveal(Document::wf);
        let n = self.nodes@.len();
        assert forall|c: int| 0 <= c < n implies match (#[trigger] self.nodes@[c]).parent {
            Some(q) => {
                &&& q@ < n
                &&& self.kids@[q@ as int].contains(nid(c))
                &&& self.depth@[c] == self.depth@[q@ as int] + 1
            },
            None => {
                &&& self.nodes@[c].prev_sibling is None
                &&& self.nodes@[c].next_sibling is None
            },
        } by {
            self.lemma_insert_parent_link(old_doc, parent, k, child, c);
        }
    }

    #[verifier::rlimit(40)]
    proof fn lemma_insert_parent_link(self, old_doc: Document, parent: NodeId, k: int, child: NodeId, c: int)
        requires
            self.inserted_from(old_doc, parent, k, child),
            0 <= c < self.nodes@.len(),
        ensures
            match self.nodes@[c].parent {
                Some(q) => {
                    &&& q@ < self.nodes@.len()
                    &&& self.kids@[q@ as int].contains(nid(c))
                    &&& self.depth@[c] == self.depth@[q@ as int] + 1
                },
                None => {
                    &&& self.nodes@[c].prev_sibling is None
                    &&& self.nodes@[c].next_sibling is None
                },
            },
    {
        reveal(Document::wf);
        broadcast use group_node_id;
        let s = old_doc.kids@[parent@ as int];
        Self::lemma_child_not_held(old_doc, parent, child);
        Self::lemma_insert_at(s, k, child);
        assert(old_doc.nodes@[c] == old_doc.nodes@[c]);
        assert(self.nodes@[c] == self.nodes@[c]);
        if c == child@ {
            assert(old_doc.in_subtree(child, child));
        } else {
            if let Some(q) = old_doc.nodes@[c].parent {
                old_doc.lemma_in_subtree_step(nid(c), child);
                assert(self.depth@[c] == (if old_doc.in_subtree(nid(c), child) {
                    (old_doc.depth@[c] - old_doc.depth@[child@ as int] + old_doc.depth@[parent@ as int] + 1) as nat
                } else {
                    old_doc.depth@[c]
                }));
                assert(self.depth@[q@ as int] == (if old_doc.in_subtree(q, child) {
                    (old_doc.depth@[q@ as int] - old_doc.depth@[child@ as int] + old_doc.depth@[parent@ as int] + 1) as nat
                } else {
                    old_doc.depth@[q@ as int]
                }));
                if old_doc.in_subtree(q, child) {
                    old_doc.lemma_in_subtree_depth(q, child);
                }
            } else {
                if k > 0 && s[k - 1] == nid(c) {
                    old_doc.lemma_wf_child(parent, k - 1);
                }
                if k < s.len() && s[k] == nid(c) {
                    old_doc.lemma_wf_child(parent, k);
                }
            }
        }
    }

    /// Links the parentless `child` in as the last child of `parent`.
    #[verifier::rlimit(80)]
    fn attach_last(&mut self, parent: NodeId, child: NodeId)
        requires
            old(self).wf(),
            old(self).valid(parent),
            old(self).valid(child),
            old(self).parent_of(child) is None,
            !old(self).in_subtree(parent, child),
        ensures
            final(self).wf(),
            final(self).len() == old(self).len(),
            final(self).root == old(self).root,
            final(self).root_decomposed == old(self).root_decomposed,
            forall|i: int| 0 <= i < old(self).len() ==> #[trigger] final(self).nodes@[i].node_type == old(self).nodes@[i].node_type,
            final(self).parent_of(child) == Some(parent),
            forall|x: NodeId| old(self).valid(x) && x != child ==> #[trigger] final(self).parent_of(x) == old(self).parent_of(x),
            final(self).children(parent) == old(self).children(parent).push(child),
            forall|x: NodeId| old(self).valid(x) && x != parent ==> #[trigger] final(self).children(x) == old(self).children(x),
    {
        broadcast use group_node_id;
        let ghost old_doc = *self;
        proof {
            old_doc.lemma_wf_basic();
            old_doc.lemma_wf_ends_at(parent);
            old_doc.lemma_wf_parent(child);
            if old_doc.kids@[parent@ as int].len() > 0 {
                old_doc.lemma_wf_child(parent, old_doc.kids@[parent@ as int].len() - 1);
            }
            assert(old_doc.nodes@[parent@ as int] == old_doc.nodes@[parent@ as int]);
            assert(child != parent) by {
                assert(old_doc.in_subtree(child, child));
            }
        }
        let c = child.index();
        let p = parent.index();
        self.nodes[c].parent = Some(parent);
        if let Some(last_child) = self.nodes[p].last_child {
            self.nodes[last_child.index()].next_sibling = Some(child);
            self.nodes[c].prev_sibling = Some(last_child);
        } else {
            self.nodes[p].first_child = Some(child);
        }
        self.nodes[p].last_child = Some(child);
        proof {
            let n = old_doc.nodes@.len();
            let dp = old_doc.depth@[parent@ as int];
            let dc = old_doc.depth@[child@ as int];
            let ks = old_doc.kids@[parent@ as int];
            assert(ks.push(child) == ks.insert(ks.len() as int, child));
            self.kids = Ghost(old_doc.kids@.update(parent@ as int, ks.insert(ks.len() as int, child)));
            self.depth = Ghost(Seq::new(n, |i: int| if old_doc.in_subtree(nid(i), child) {
                (old_doc.depth@[i] - dc + dp + 1) as nat
            } else {
                old_doc.depth@[i]
            }));
            self.bound = Ghost(old_doc.bound@ + dp + 1);
            assert(self.insert_ghost_from(old_doc, parent, ks.len() as int, child));
            assert(self.insert_links_from(old_doc, parent, ks.len() as int, child));
            self.lemma_insert_wf(old_doc, parent, ks.len() as int, child);
        }
    }

    /// Moves `child` to the end of `parent`'s children; `parent` must not lie in `child`'s subtree.
    pub fn append_existing(&mut self, parent: NodeId, child: NodeId)
        requires
            old(self).wf(),
            old(self).valid(parent),
            old(self).valid(child),
            !old(self).in_subtree(parent, child),
        ensures
            final(self).wf(),
            final(self).len() == old(self).len(),
            final(self).root == old(self).root,
            final(self).root_decomposed == old(self).root_decomposed,
            forall|i: int| 0 <= i < old(self).len() ==> #[trigger] final(self).nodes@[i].node_type == old(self).nodes@[i].node_type,
            final(self).parent_of(child) == Some(parent),
            forall|x: NodeId| old(self).valid(x) && x != child ==> #[trigger] final(self).parent_of(x) == old(self).parent_of(x),
            final(self).children(parent) == remove_value(old(self).children(parent), child).push(child),
            forall|x: NodeId| old(self).valid(x) && x != parent ==> #[trigger] final(self).children(x) == remove_value(old(self).children(x), child),
    {
        self.detach(child);
        self.attach_last(parent, child);
    }

    /// Links the parentless `child` in just before `sibling`, which has a parent.
    #[verifier::rlimit(100)]
    #[verifier::spinoff_prover]
    fn link_before(&mut self, sibling: NodeId, child: NodeId)
        requires
            old(self).wf(),
            old(self).valid(sibling),
            old(self).valid(child),
            old(self).parent_of(child) is None,
            old(self).parent_of(sibling) matches Some(p) && !old(self).in_subtree(p, child),
        ensures
            final(self).wf(),
            final(self).len() == old(self).len(),
            final(self).root == old(self).root,
            final(self).root_decomposed == old(self).root_decomposed,
            forall|i: int| 0 <= i < old(self).len() ==> #[trigger] final(self).nodes@[i].node_type == old(self).nodes@[i].node_type,
            final(self).parent_of(child) == old(self).parent_of(sibling),
            forall|x: NodeId| old(self).valid(x) && x != child ==> #[trigger] final(self).parent_of(x) == old(self).parent_of(x),
            ({
                let p = old(self).parent_of(sibling).unwrap();
                let s = old(self).children(p);
                final(self).children(p) == s.insert(s.index_of(sibling), child)
            }),
            forall|x: NodeId| old(self).valid(x) && Some(x) != old(self).parent_of(sibling) ==> #[trigger] final(self).children(x) == old(self).children(x),
    {
        broadcast use group_node_id;
        let ghost old_doc = *self;
        proof {
            old_doc.lemma_wf_basic();
            old_doc.lemma_wf_ends_at(sibling);
        }
        let ghost p = old_doc.parent_of(sibling).unwrap();
        let ghost ks = old_doc.kids@[p@ as int];
        let ghost k = ks.index_of(sibling);
        proof {
            old_doc.lemma_wf_parent(sibling);
            old_doc.lemma_wf_parent(child);
            assert(ks.contains(sibling));
            old_doc.lemma_wf_child(p, k);
            if k > 0 {
                old_doc.lemma_wf_child(p, k - 1);
            }
            assert(child != p) by {
                assert(old_doc.in_subtree(child, child));
            }
            assert(child != sibling);
        }
        let c = child.index();
        let parent = self.nodes[sibling.index()].parent;
        let previous = self.nodes[sibling.index()].prev_sibling;
        self.nodes[c].parent = parent;
        self.nodes[c].prev_sibling = previous;
        self.nodes[c].next_sibling = Some(sibling);
        if let Some(previous_id) = previous {
            self.nodes[previous_id.index()].next_sibling = Some(child);
        } else if let Some(parent_id) = parent {
            self.nodes[parent_id.index()].first_child = Some(child);
        }
        self.nodes[sibling.index()].prev_sibling = Some(child);
        proof {
            let n = old_doc.nodes@.len();
            let dp = old_doc.depth@[p@ as int];
            let dc = old_doc.depth@[child@ as int];
            self.kids = Ghost(old_doc.kids@.update(p@ as int, ks.insert(k, child)));
            self.depth = Ghost(Seq::new(n, |i: int| if old_doc.in_subtree(nid(i), child) {
                (old_doc.depth@[i] - dc + dp + 1) as nat
            } else {
                old_doc.depth@[i]
            }));
            self.bound = Ghost(old_doc.bound@ + dp + 1);
            assert(self.insert_ghost_from(old_doc, p, k, child));
            assert(self.insert_links_from(old_doc, p, k, child));
            self.lemma_insert_wf(old_doc, p, k, child);
        }
    }

    /// Links the parentless `child` in just after `sibling`, which has a parent.
    #[verifier::rlimit(100)]
    #[verifier::spinoff_prover]
    fn link_after(&mut self, sibling: NodeId, child: NodeId)
        requires
            old(self).wf(),
            old(self).valid(sibling),
            old(self).valid(child),
            old(self).parent_of(child) is None,
            old(self).parent_of(sibling) matches Some(p) && !old(self).in_subtree(p, child),
        ensures
            final(self).wf(),
            final(self).len() == old(self).len(),
            final(self).root == old(self).root,
            final(self).root_decomposed == old(self).root_decomposed,
            forall|i: int| 0 <= i < old(self).len() ==> #[trigger] final(self).nodes@[i].node_type == old(self).nodes@[i].node_type,
            final(self).parent_of(child) == old(self).parent_of(sibling),
            forall|x: NodeId| old(self).valid(x) && x != child ==> #[trigger] final(self).parent_of(x) == old(self).parent_of(x),
            ({
                let p = old(self).parent_of(sibling).unwrap();
                let s = old(self).children(p);
                final(self).children(p) == s.insert(s.index_of(sibling) + 1, child)
            }),
            forall|x: NodeId| old(self).valid(x) && Some(x) != old(self).parent_of(sibling) ==> #[trigger] final(self).children(x) == old(self).children(x),
    {
        broadcast use group_node_id;
        let ghost old_doc = *self;
        proof {
            old_doc.lemma_wf_basic();
            old_doc.lemma_wf_ends_at(sibling);
        }
        let ghost p = old_doc.parent_of(sibling).unwrap();
        let ghost ks = old_doc.kids@[p@ as int];
        let ghost k = ks.index_of(sibling) + 1;
        proof {
            old_doc.lemma_wf_parent(sibling);
            old_doc.lemma_wf_parent(child);
            assert(ks.contains(sibling));
            old_doc.lemma_wf_child(p, k - 1);
            if k < ks.len() {
                old_doc.lemma_wf_child(p, k);
            }
            assert(child != p) by {
                assert(old_doc.in_subtree(child, child));
            }
            assert(child != sibling);
        }
        let c = child.index();
        let parent = self.nodes[sibling.index()].parent;
        let next = self.nodes[sibling.index()].next_sibling;
        self.nodes[c].parent = parent;
        self.nodes[c].prev_sibling = Some(sibling);
        self.nodes[c].next_sibling = next;
        if let Some(next_id) = next {
            self.nodes[next_id.index()].prev_sibling = Some(child);
        } else if let Some(parent_id) = parent {
            self.nodes[parent_id.index()].last_child = Some(child);
        }
        self.nodes[sibling.index()].next_sibling = Some(child);
        proof {
            let n = old_doc.nodes@.len();
            let dp = old_doc.depth@[p@ as int];
            let dc = old_doc.depth@[child@ as int];
            self.kids = Ghost(old_doc.kids@.update(p@ as int, ks.insert(k, child)));
            self.depth = Ghost(Seq::new(n, |i: int| if old_doc.in_subtree(nid(i), child) {
                (old_doc.depth@[i] - dc + dp + 1) as nat
            } else {
                old_doc.depth@[i]
            }));
            self.bound = Ghost(old_doc.bound@ + dp + 1);
            assert(self.insert_ghost_from(old_doc, p, k, child));
            assert(self.insert_links_from(old_doc, p, k, child));
            self.lemma_insert_wf(old_doc, p, k, child);
        }
    }

    /// Moves `child` to just before `sibling`, which has a parent that does not lie in `child`'s subtree.
    pub fn insert_before_existing(&mut self, sibling: NodeId, child: NodeId)
        requires
            old(self).wf(),
            old(self).valid(sibling),
            old(self).valid(child),
            child != sibling,
            old(self).parent_of(sibling) matches Some(p) && !old(self).in_subtree(p, child),
        ensures
            final(self).wf(),
            final(self).len() == old(self).len(),
            final(self).root == old(self).root,
            final(self).root_decomposed == old(self).root_decomposed,
            forall|i: int| 0 <= i < old(self).len() ==> #[trigger] final(self).nodes@[i].node_type == old(self).nodes@[i].node_type,
            final(self).parent_of(child) == old(self).parent_of(sibling),
            forall|x: NodeId| old(self).valid(x) && x != child ==> #[trigger] final(self).parent_of(x) == old(self).parent_of(x),
            ({
                let p = old(self).parent_of(sibling).unwrap();
                let s = remove_value(old(self).children(p), child);
                final(self).children(p) == s.insert(s.index_of(sibling), child)
            }),
            forall|x: NodeId| old(self).valid(x) && Some(x) != old(self).parent_of(sibling) ==> #[trigger] final(self).children(x) == remove_value(old(self).children(x), child),
    {
        proof {
            self.lemma_wf_parent(sibling);
        }
        self.detach(child);
        self.link_before(sibling, child);
    }

    /// Moves `child` to just after `sibling`, which has a parent that does not lie in `child`'s subtree.
    pub fn insert_after_existing(&mut self, sibling: NodeId, child: NodeId)
        requires
            old(self).wf(),
            old(self).valid(sibling),
            old(self).valid(child),
            child != sibling,
            old(self).parent_of(sibling) matches Some(p) && !old(self).in_subtree(p, child),
        ensures
            final(self).wf(),
            final(self).len() == old(self).len(),
            final(self).root == old(self).root,
            final(self).root_decomposed == old(self).root_decomposed,
            forall|i: int| 0 <= i < old(self).len() ==> #[trigger] final(self).nodes@[i].node_type == old(self).nodes@[i].node_type,
            final(self).parent_of(child) == old(self).parent_of(sibling),
            forall|x: NodeId| old(self).valid(x) && x != child ==> #[trigger] final(self).parent_of(x) == old(self).parent_of(x),
            ({
                let p = old(self).parent_of(sibling).unwrap();
                let s = remove_value(old(self).children(p), child);
                final(self).children(p) == s.insert(s.index_of(sibling) + 1, child)
            }),
            forall|x: NodeId| old(self).valid(x) && Some(x) != old(self).parent_of(sibling) ==> #[trigger] final(self).children(x) == remove_value(old(self).children(x), child),
    {
        proof {
            self.lemma_wf_parent(sibling);
        }
        self.detach(child);
        self.link_after(sibling, child);
    }

    /// The children of `id`, in order.
    pub fn child_nodes(&self, id: NodeId) -> (out: Vec<NodeId>)
        requires
            self.wf(),
            self.valid(id),
        ensures
            out@ == self.children(id),
    {
        let ghost s = self.children(id);
        let mut out = Vec::new();
        let mut child = self.nodes[id.index()].first_child;
        proof {
            self.lemma_wf_ends_at(id);
        }
        while child.is_some()
            invariant
                self.wf(),
                self.valid(id),
                s == self.children(id),
                out@.len() <= s.len(),
                out@ == s.take(out@.len() as int),
                child == (if out@.len() < s.len() { Some(s[out@.len() as int]) } else { None::<NodeId> }),
            decreases s.len() - out@.len(),
        {
            let current = child.unwrap();
            proof {
                self.lemma_wf_child(id, out@.len() as int);
            }
            out.push(current);
            child = self.nodes[current.index()].next_sibling;
            proof {
                assert(out@ == s.take(out@.len() as int));
            }
        }
        proof {
            assert(out@ == s);
        }
        out
    }

    /// How many children `id` has.
    pub fn child_count(&self, id: NodeId) -> (count: usize)
        requires
            self.wf(),
            self.valid(id),
        ensures
            count == self.children(id).len(),
    {
        let ghost s = self.children(id);
        let mut count: usize = 0;
        let mut child = self.nodes[id.index()].first_child;
        proof {
            self.lemma_wf_ends_at(id);
            self.lemma_children_fit(id);
        }
        while child.is_some()
            invariant
                self.wf(),
                self.valid(id),
                s == self.children(id),
                s.len() < usize::MAX,
                count <= s.len(),
                child == (if count < s.len() { Some(s[count as int]) } else { None::<NodeId> }),
            decreases s.len() - count,
        {
            let current = child.unwrap();
            proof {
                self.lemma_wf_child(id, count as int);
            }
            count += 1;
            child = self.nodes[current.index()].next_sibling;
        }
        count
    }

    pub(crate) proof fn lemma_children_fit(self, id: NodeId)
        requires
            self.wf(),
            self.valid(id),
        ensures
            self.children(id).len() < self.len(),
            self.children(id).len() < usize::MAX,
    {
        reveal(Document::wf);
        let s = self.kids@[id@ as int];
        let ids = s.map_values(|x: NodeId| x@ as int);
        assert forall|i: int, j: int| 0 <= i < ids.len() && 0 <= j < ids.len() && i != j implies ids[i] != ids[j] by {
            assert(s[i] != s[j]);
            assert(s[i]@ != s[j]@) by {
                broadcast use group_node_id;
            }
        }
        let set_ids = ids.to_set();
        let range = vstd::set_lib::set_int_range(0, self.len() as int).remove(id@ as int);
        assert forall|x: int| set_ids.contains(x) implies range.contains(x) by {
            let i = choose|i: int| 0 <= i < ids.len() && ids[i] == x;
            self.lemma_wf_child(id, i);
            assert(s[i]@ < self.len());
            assert(s[i] != id) by {
                broadcast use group_node_id;
                assert(self.nodes@[id@ as int] == self.nodes@[id@ as int]);
                assert(self.nodes@[s[i]@ as int] == self.nodes@[s[i]@ as int]);
            }
        }
        ids.unique_seq_to_set();
        vstd::set_lib::lemma_int_range(0, self.len() as int);
        vstd::set_lib::lemma_len_subset(set_ids, range);
    }

    /// The position of `target` among `parent`'s children, if it is one of them.
    pub fn child_index(&self, parent: NodeId, target: NodeId) -> (index: Option<usize>)
        requires
            self.wf(),
            self.valid(parent),
        ensures
            match index {
                Some(i) => i < self.children(parent).len() && self.children(parent)[i as int] == target,
                None => !self.children(parent).contains(target),
            },
    {
        let ghost s = self.children(parent);
        let mut index: usize = 0;
        let mut child = self.nodes[parent.index()].first_child;
        proof {
            self.lemma_wf_ends_at(parent);
            self.lemma_children_fit(parent);
        }
        while child.is_some()
            invariant
                self.wf(),
                self.valid(parent),
                s == self.children(parent),
                s.len() < usize::MAX,
                index <= s.len(),
                child == (if index < s.len() { Some(s[index as int]) } else { None::<NodeId> }),
                forall|j: int| 0 <= j < index ==> s[j] != target,
            decreases s.len() - index,
        {
            let current = child.unwrap();
            if current == target {
                return Some(index);
            }
            proof {
                self.lemma_wf_child(parent, index as int);
            }
            index += 1;
            child = self.nodes[current.index()].next_sibling;
        }
        None
    }

    /// The nodes of the subtree of `x` in document order, `x` first.
    pub closed spec fn subtree_nodes(self, x: NodeId) -> Seq<NodeId>
        decreases self.bound@ - self.depth@[x@ as int], 0int,
    {
        if self.valid(x) && self.depth@[x@ as int] < self.bound@ {
            seq![x] + self.forest_nodes(self.kids@[x@ as int], 0, self.depth@[x@ as int] as int)
        } else {
            seq![x]
        }
    }

    /// The subtrees of `s[i..]` in order; `d` is the depth of their parent.
    pub closed spec fn forest_nodes(self, s: Seq<NodeId>, i: int, d: int) -> Seq<NodeId>
        decreases self.bound@ - d - 1, s.len() - i + 1,
    {
        if i < 0 || i >= s.len() {
            Seq::empty()
        } else if self.valid(s[i]) && self.depth@[s[i]@ as int] == d + 1 && d + 1 < self.bound@ {
            self.subtree_nodes(s[i]) + self.forest_nodes(s, i + 1, d)
        } else {
            Seq::empty()
        }
    }

    /// Climbing from `y` towards `root` (exclusive), the first next sibling met.
    pub closed spec fn after_subtree(self, root: NodeId, y: NodeId) -> Option<NodeId>
        decreases self.depth@[y@ as int],
    {
        if y == root {
            None
        } else if self.nodes@[y@ as int].next_sibling is Some {
            self.nodes@[y@ as int].next_sibling
        } else {
            match self.nodes@[y@ as int].parent {
                Some(q) => if self.depth@[q@ as int] < self.depth@[y@ as int] {
                    self.after_subtree(root, q)
                } else {
                    None
                },
                None => None,
            }
        }
    }

    /// Where the subtree of `y` starts within the subtree of `root`, in document order.
    pub closed spec fn order_pos(self, root: NodeId, y: NodeId) -> int
        decreases self.depth@[y@ as int],
    {
        if y == root {
            0
        } else {
            match self.nodes@[y@ as int].parent {
                Some(q) => if self.depth@[q@ as int] < self.depth@[y@ as int] {
                    let kq = self.kids@[q@ as int];
                    let d = self.depth@[q@ as int] as int;
                    self.order_pos(root, q) + 1 + (self.forest_nodes(kq, 0, d).len()
                        - self.forest_nodes(kq, kq.index_of(y), d).len())
                } else {
                    0
                },
                None => 0,
            }
        }
    }

    pub(crate) proof fn lemma_forest_step(self, x: NodeId, i: int)
        requires
            self.wf(),
            self.valid(x),
            0 <= i < self.children(x).len(),
        ensures
            self.forest_nodes(self.kids@[x@ as int], i, self.depth@[x@ as int] as int)
                == self.subtree_nodes(self.kids@[x@ as int][i]) + self.forest_nodes(self.kids@[x@ as int], i + 1, self.depth@[x@ as int] as int),
            self.subtree_nodes(self.kids@[x@ as int][i])[0] == self.kids@[x@ as int][i],
            self.subtree_nodes(self.kids@[x@ as int][i]).len() >= 1,
    {
        
        broadcast use group_node_id;
        let c = self.kids@[x@ as int][i];
        self.lemma_wf_child(x, i);
        assert(self.nodes@[c@ as int] == self.nodes@[c@ as int]);
        assert(self.depth@[c@ as int] < self.bound@);
    }

    /// The children of `x` are the ghost list the arena keeps for it; past their end the
    /// forest of their subtrees is empty.
    pub(crate) proof fn lemma_forest_end(self, x: NodeId)
        ensures
            self.children(x) == self.kids@[x@ as int],
            self.forest_nodes(self.kids@[x@ as int], self.kids@[x@ as int].len() as int, self.depth@[x@ as int] as int) == Seq::<NodeId>::empty(),
    {
    }

    pub(crate) proof fn lemma_subtree_unfold(self, x: NodeId)
        requires
            self.wf(),
            self.valid(x),
        ensures
            self.subtree_nodes(x) == seq![x] + self.forest_nodes(self.kids@[x@ as int], 0, self.depth@[x@ as int] as int),
            self.subtree_nodes(x)[0] == x,
    {
        self.lemma_wf_basic();
        
        assert(self.depth@[x@ as int] < self.bound@);
    }

    proof fn lemma_subrange_compose(p: Seq<NodeId>, kp: int, lq: Seq<NodeId>, off: int, l: Seq<NodeId>)
        requires
            0 <= kp,
            kp + lq.len() <= p.len(),
            p.subrange(kp, kp + lq.len()) == lq,
            0 <= off,
            off + l.len() <= lq.len(),
            lq.subrange(off, off + l.len()) == l,
        ensures
            p.subrange(kp + off, kp + off + l.len()) == l,
            off + l.len() < lq.len() ==> p[kp + off + l.len()] == lq[off + l.len()],
    {
        assert(p.subrange(kp + off, kp + off + l.len()) =~= l) by {
            assert forall|t: int| 0 <= t < l.len() implies p[kp + off + t] == l[t] by {
                assert(p.subrange(kp, kp + lq.len())[off + t] == lq[off + t]);
                assert(lq.subrange(off, off + l.len())[t] == l[t]);
            }
        }
        if off + l.len() < lq.len() {
            assert(p.subrange(kp, kp + lq.len())[off + l.len()] == lq[off + l.len()]);
        }
    }

    /// Within the subtree of `q`, the subtree of its `j`-th child starts after the earlier children's subtrees.
    pub(crate) proof fn lemma_order_in_parent(self, q: NodeId, j: int)
        requires
            self.wf(),
            self.valid(q),
            0 <= j < self.children(q).len(),
        ensures
            ({
                let kq = self.kids@[q@ as int];
                let d = self.depth@[q@ as int] as int;
                let f0 = self.forest_nodes(kq, 0, d);
                let a = f0.len() - self.forest_nodes(kq, j, d).len();
                let lq = self.subtree_nodes(q);
                let l = self.subtree_nodes(kq[j]);
                &&& 0 <= a
                &&& 1 + a + l.len() <= lq.len()
                &&& lq.subrange(1 + a, 1 + a + l.len()) == l
                &&& (j + 1 < kq.len() ==> {
                    &&& 1 + a + l.len() < lq.len()
                    &&& lq[1 + a + l.len()] == kq[j + 1]
                    &&& f0.len() - self.forest_nodes(kq, j + 1, d).len() == a + l.len()
                })
                &&& (j + 1 == kq.len() ==> 1 + a + l.len() == lq.len())
            }),
    {
        
        let kq = self.kids@[q@ as int];
        let d = self.depth@[q@ as int] as int;
        let f0 = self.forest_nodes(kq, 0, d);
        let fj = self.forest_nodes(kq, j, d);
        let fj1 = self.forest_nodes(kq, j + 1, d);
        let lq = self.subtree_nodes(q);
        let l = self.subtree_nodes(kq[j]);
        self.lemma_subtree_unfold(q);
        self.lemma_forest_suffix(q, j);
        self.lemma_forest_step(q, j);
        let a = f0.len() - fj.len();
        assert(lq.subrange(1 + a, 1 + a + l.len()) =~= l) by {
            assert forall|t: int| 0 <= t < l.len() implies lq[1 + a + t] == l[t] by {
                assert(lq[1 + a + t] == f0[a + t]);
                assert(f0.subrange(a, f0.len() as int)[t] == fj[t]);
            }
        }
        if j + 1 < kq.len() {
            self.lemma_forest_step(q, j + 1);
            assert(lq[1 + a + l.len()] == f0[a + l.len()]);
            assert(f0.subrange(a, f0.len() as int)[l.len() as int] == fj[l.len() as int]);
        } else {
            assert(fj1 == Seq::<NodeId>::empty());
        }
    }

    /// Within the subtree of `root`, the subtree of `y` is a contiguous run that starts at
    /// `order_pos(root, y)`, and what follows it is `after_subtree(root, y)`.
    proof fn lemma_order(self, root: NodeId, y: NodeId)
        requires
            self.wf(),
            self.valid(root),
            self.valid(y),
            self.in_subtree(y, root),
        ensures
            ({
                let p = self.subtree_nodes(root);
                let l = self.subtree_nodes(y);
                let k = self.order_pos(root, y);
                &&& 0 <= k
                &&& k + l.len() <= p.len()
                &&& p.subrange(k, k + l.len()) == l
                &&& self.after_subtree(root, y) == (if k + l.len() < p.len() { Some(p[k + l.len()]) } else { None::<NodeId> })
                &&& (self.after_subtree(root, y) matches Some(z) ==> {
                    &&& self.valid(z)
                    &&& self.in_subtree(z, root)
                    &&& self.order_pos(root, z) == k + l.len()
                })
            }),
        decreases self.depth@[y@ as int],
    {
        
        broadcast use group_node_id;
        let p = self.subtree_nodes(root);
        let l = self.subtree_nodes(y);
        self.lemma_subtree_unfold(y);
        self.lemma_wf_ends_at(y);
        assert(self.nodes@[y@ as int] == self.nodes@[y@ as int]);
        if y == root {
            assert(p.subrange(0, p.len() as int) =~= p);
        } else {
            self.lemma_in_subtree_step(y, root);
            let q = self.nodes@[y@ as int].parent.unwrap();
            self.lemma_wf_parent(y);
            self.lemma_order(root, q);
            let kq = self.kids@[q@ as int];
            let d = self.depth@[q@ as int] as int;
            let j = kq.index_of(y);
            assert(kq.contains(y));
            assert(0 <= j < kq.len() && kq[j] == y);
            self.lemma_wf_child(q, j);
            let kp = self.order_pos(root, q);
            let lq = self.subtree_nodes(q);
            self.lemma_order_in_parent(q, j);
            let f0 = self.forest_nodes(kq, 0, d);
            let a = f0.len() - self.forest_nodes(kq, j, d).len();
            assert(self.order_pos(root, y) == kp + 1 + a);
            Self::lemma_subrange_compose(p, kp, lq, 1 + a, l);
            if j + 1 < kq.len() {
                let z = kq[j + 1];
                self.lemma_wf_child(q, j + 1);
                assert(self.nodes@[y@ as int].next_sibling == Some(z));
                assert(self.nodes@[z@ as int] == self.nodes@[z@ as int]);
                self.lemma_in_subtree_step(z, root);
                assert(self.in_subtree(z, root));
                assert(kq.index_of(z) == j + 1) by {
                    self.lemma_wf_ends_at(q);
                }
                assert(self.order_pos(root, z) == kp + 1 + (f0.len() - self.forest_nodes(kq, j + 1, d).len()));
            } else {
                assert(self.nodes@[y@ as int].next_sibling is None);
                assert(self.after_subtree(root, y) == self.after_subtree(root, q));
            }
        }
    }

    /// The forest from position `j` on is a suffix of the whole forest of `x`'s children.
    proof fn lemma_forest_suffix(self, x: NodeId, j: int)
        requires
            self.wf(),
            self.valid(x),
            0 <= j <= self.children(x).len(),
        ensures
            ({
                let kx = self.kids@[x@ as int];
                let d = self.depth@[x@ as int] as int;
                let f0 = self.forest_nodes(kx, 0, d);
                let fj = self.forest_nodes(kx, j, d);
                &&& fj.len() <= f0.len()
                &&& fj == f0.subrange(f0.len() - fj.len(), f0.len() as int)
            }),
        decreases j,
    {
        
        let kx = self.kids@[x@ as int];
        let d = self.depth@[x@ as int] as int;
        if j > 0 {
            self.lemma_forest_suffix(x, j - 1);
            self.lemma_forest_step(x, j - 1);
            let f0 = self.forest_nodes(kx, 0, d);
            let fj = self.forest_nodes(kx, j, d);
            let fp = self.forest_nodes(kx, j - 1, d);
            assert(fp == self.subtree_nodes(kx[j - 1]) + fj);
            assert(fj =~= f0.subrange(f0.len() - fj.len(), f0.len() as int)) by {
                assert forall|t: int| 0 <= t < fj.len() implies fj[t] == f0[f0.len() - fj.len() + t] by {
                    let m = self.subtree_nodes(kx[j - 1]).len();
                    assert(fp[m + t] == fj[t]);
                    assert(fp == f0.subrange(f0.len() - fp.len(), f0.len() as int));
                    assert(fp[m + t] == f0[f0.len() - fp.len() + m + t]);
                }
            }
        } else {
            assert(self.forest_nodes(kx, 0, d) =~= self.forest_nodes(kx, 0, d).subrange(0, self.forest_nodes(kx, 0, d).len() as int));
        }
    }

    /// In document order within the subtree of `root`, the node that follows `id`.
    pub closed spec fn next_in_order(self, root: NodeId, id: NodeId) -> Option<NodeId> {
        if self.nodes@[id@ as int].first_child is Some {
            self.nodes@[id@ as int].first_child
        } else {
            self.after_subtree(root, id)
        }
    }

    /// Where `id` stands in the document order of the subtree of `root`.
    pub open spec fn pos_in(self, root: NodeId, id: NodeId) -> int {
        self.order_pos(root, id)
    }

    /// `id` lies in the subtree of `root`, at position `order_pos(root, id)` of its document order.
    pub open spec fn placed(self, root: NodeId, id: NodeId) -> bool {
        &&& self.valid(id)
        &&& self.in_subtree(id, root)
        &&& 0 <= self.order_pos(root, id) < self.subtree_nodes(root).len()
        &&& self.subtree_nodes(root)[self.order_pos(root, id)] == id
    }

    pub(crate) proof fn lemma_placed(self, root: NodeId, id: NodeId)
        requires
            self.wf(),
            self.valid(root),
            self.valid(id),
            self.in_subtree(id, root),
        ensures
            self.placed(root, id),
    {
        
        self.lemma_order(root, id);
        self.lemma_subtree_unfold(id);
        let k = self.order_pos(root, id);
        let l = self.subtree_nodes(id);
        assert(self.subtree_nodes(root).subrange(k, k + l.len())[0] == l[0]);
    }

    pub(crate) proof fn lemma_next_in_order(self, root: NodeId, id: NodeId)
        requires
            self.wf(),
            self.valid(root),
            self.valid(id),
            self.in_subtree(id, root),
        ensures
            ({
                let p = self.subtree_nodes(root);
                let k = self.order_pos(root, id);
                &&& self.placed(root, id)
                &&& self.next_in_order(root, id) == (if k + 1 < p.len() { Some(p[k + 1]) } else { None::<NodeId> })
                &&& (self.next_in_order(root, id) matches Some(z) ==> {
                    &&& self.placed(root, z)
                    &&& self.order_pos(root, z) == k + 1
                })
            }),
    {
        
        broadcast use group_node_id;
        self.lemma_placed(root, id);
        self.lemma_order(root, id);
        self.lemma_subtree_unfold(id);
        let p = self.subtree_nodes(root);
        let k = self.order_pos(root, id);
        let l = self.subtree_nodes(id);
        self.lemma_wf_ends_at(id);
        let kx = self.kids@[id@ as int];
        if kx.len() > 0 {
            let c = kx[0];
            self.lemma_wf_child(id, 0);
            self.lemma_order_in_parent(id, 0);
            self.lemma_forest_step(id, 0);
            assert(l[1] == c);
            assert(p.subrange(k, k + l.len())[1] == l[1]);
            assert(self.nodes@[c@ as int] == self.nodes@[c@ as int]);
            self.lemma_in_subtree_step(c, root);
            assert(kx.index_of(c) == 0);
            assert(self.order_pos(root, c) == k + 1);
            self.lemma_placed(root, c);
        } else {
            assert(self.forest_nodes(kx, 0, self.depth@[id@ as int] as int) == Seq::<NodeId>::empty());
            assert(l.len() == 1);
            if let Some(z) = self.after_subtree(root, id) {
                self.lemma_placed(root, z);
            }
        }
    }

    /// Whether `x` lies in the subtree of `top` (`x` itself counting).
    pub fn is_in_subtree(&self, x: NodeId, top: NodeId) -> (r: bool)
        requires
            self.wf(),
            self.valid(x),
        ensures
            r == self.in_subtree(x, top),
    {
        let mut current = x;
        proof {
            self.lemma_wf_parent(x);
        }
        while current.index() != top.index()
            invariant
                self.wf(),
                self.valid(current),
                self.in_subtree(x, top) == self.in_subtree(current, top),
            decreases self.depth@[current@ as int],
        {
            proof {
                self.lemma_wf_parent(current);
                broadcast use group_node_id;
                assert(current != top);
            }
            match self.nodes[current.index()].parent {
                Some(q) => {
                    current = q;
                    proof {
                        self.lemma_wf_parent(q);
                    }
                },
                None => {
                    return false;
                },
            }
        }
        proof {
            broadcast use group_node_id;
            assert(current == top);
        }
        true
    }

    /// The number of nodes in the subtrees of `s[i..]`.
    pub open spec fn forest_size(self, s: Seq<NodeId>, i: int) -> int
        decreases s.len() - i,
    {
        if i < 0 || i >= s.len() {
            0
        } else {
            self.subtree_nodes(s[i]).len() + self.forest_size(s, i + 1)
        }
    }

    proof fn lemma_forest_size(self, x: NodeId, i: int)
        requires
            self.wf(),
            self.valid(x),
            0 <= i <= self.children(x).len(),
        ensures
            self.forest_nodes(self.kids@[x@ as int], i, self.depth@[x@ as int] as int).len() == self.forest_size(self.children(x), i),
        decreases self.children(x).len() - i,
    {
        if i < self.children(x).len() {
            self.lemma_forest_step(x, i);
            self.lemma_forest_size(x, i + 1);
        }
    }

    /// A subtree holds its root and the subtrees of its children, and each of those holds a node
    /// at least; the children lie one level below, within the depth bound.
    pub proof fn lemma_subtree_size(self, x: NodeId)
        requires
            self.wf(),
            self.valid(x),
        ensures
            self.subtree_nodes(x).len() == 1 + self.forest_size(self.children(x), 0),
            forall|i: int| 0 <= i < self.children(x).len() ==> #[trigger] self.subtree_nodes(self.children(x)[i]).len() >= 1,
            forall|i: int| 0 <= i <= self.children(x).len() ==> #[trigger] self.forest_size(self.children(x), i) >= 0,
            forall|i: int| 0 <= i < self.children(x).len() ==> {
                &&& self.depth@[x@ as int] < #[trigger] self.depth@[self.children(x)[i]@ as int]
                &&& self.depth@[self.children(x)[i]@ as int] < self.bound@
            },
    {
        self.lemma_wf_basic();
        self.lemma_subtree_unfold(x);
        self.lemma_forest_size(x, 0);
        assert forall|i: int| 0 <= i < self.children(x).len() implies #[trigger] self.subtree_nodes(self.children(x)[i]).len() >= 1 by {
            self.lemma_forest_step(x, i);
        }
        assert forall|i: int| 0 <= i <= self.children(x).len() implies #[trigger] self.forest_size(self.children(x), i) >= 0 by {
            self.lemma_forest_size(x, i);
        }
        assert forall|i: int| 0 <= i < self.children(x).len() implies {
            &&& self.depth@[x@ as int] < #[trigger] self.depth@[self.children(x)[i]@ as int]
            &&& self.depth@[self.children(x)[i]@ as int] < self.bound@
        } by {
            self.lemma_wf_child(x, i);
            self.lemma_wf_parent(self.children(x)[i]);
        }
    }

    /// A node of an earlier state of the document, whose ancestors kept their parents, lies in
    /// no subtree of a node added since.
    pub proof fn lemma_old_not_below_new(self, prev: Document, x: NodeId, top: NodeId)
        requires
            self.wf(),
            prev.wf(),
            prev.valid(x),
            self.valid(x),
            top@ >= prev.len(),
            forall|z: NodeId| prev.valid(z) ==> #[trigger] self.parent_of(z) == prev.parent_of(z),
        ensures
            !self.in_subtree(x, top),
        decreases self.depth@[x@ as int],
    {
        broadcast use group_node_id;
        self.lemma_in_subtree_step(x, top);
        self.lemma_wf_parent(x);
        prev.lemma_wf_parent(x);
        assert(self.parent_of(x) == prev.parent_of(x));
        if let Some(q) = self.parent_of(x) {
            self.lemma_old_not_below_new(prev, q, top);
        }
    }

    /// A node without a parent lies in no subtree but its own.
    pub proof fn lemma_parentless_in_subtree(self, x: NodeId, top: NodeId)
        requires
            self.wf(),
            self.valid(x),
            self.parent_of(x) is None,
        ensures
            self.in_subtree(x, top) == (x == top),
    {
    }

    /// Each node of the subtree of `root` stands at its own position of the document order.
    pub proof fn lemma_order_positions(self, root: NodeId, k: int)
        requires
            self.wf(),
            self.valid(root),
            0 <= k < self.subtree_nodes(root).len(),
        ensures
            self.placed(root, self.subtree_nodes(root)[k]),
            self.order_pos(root, self.subtree_nodes(root)[k]) == k,
        decreases k,
    {
        self.lemma_traversal_start(root);
        if k > 0 {
            self.lemma_order_positions(root, k - 1);
            let c = self.subtree_nodes(root)[k - 1];
            self.lemma_next_in_order(root, c);
        }
    }

    /// No node occurs twice in the document order of a subtree.
    pub proof fn lemma_subtree_distinct(self, root: NodeId)
        requires
            self.wf(),
            self.valid(root),
        ensures
            self.subtree_nodes(root).no_duplicates(),
    {
        let p = self.subtree_nodes(root);
        assert forall|i: int, j: int| 0 <= i < p.len() && 0 <= j < p.len() && i != j implies p[i] != p[j] by {
            self.lemma_order_positions(root, i);
            self.lemma_order_positions(root, j);
        }
    }

    /// The node after `id` in the document order of the whole tree it belongs to, if any.
    pub fn next_element_node(&self, id: NodeId) -> (next: Option<NodeId>)
        requires
            self.wf(),
            self.valid(id),
        ensures
            next == self.next_in_order(self.tree_root(id), id),
            ({
                let root = self.tree_root(id);
                let p = self.subtree_nodes(root);
                let k = self.order_pos(root, id);
                &&& self.placed(root, id)
                &&& next == (if k + 1 < p.len() { Some(p[k + 1]) } else { None::<NodeId> })
                &&& (next matches Some(z) ==> self.placed(root, z) && self.order_pos(root, z) == k + 1 && self.tree_root(z) == root)
            }),
    {
        broadcast use group_node_id;
        let ghost root = self.tree_root(id);
        proof {
            self.lemma_tree_root(id);
            self.lemma_next_in_order(root, id);
            if let Some(z) = self.next_in_order(root, id) {
                self.lemma_tree_root_below(root, z);
            }
        }
        if let Some(child) = self.nodes[id.index()].first_child {
            return Some(child);
        }
        let mut current = id;
        loop
            invariant
                self.wf(),
                self.valid(current),
                self.tree_root(current) == root,
                self.parent_of(root) is None,
                self.valid(id),
                self.after_subtree(root, id) == self.after_subtree(root, current),
                self.nodes@[id@ as int].first_child is None,
                root == self.tree_root(id),
                self.next_in_order(root, id) == self.after_subtree(root, id),
                ({
                    let p = self.subtree_nodes(root);
                    let k = self.order_pos(root, id);
                    let next = self.next_in_order(root, id);
                    &&& self.placed(root, id)
                    &&& next == (if k + 1 < p.len() { Some(p[k + 1]) } else { None::<NodeId> })
                    &&& (next matches Some(z) ==> self.placed(root, z) && self.order_pos(root, z) == k + 1 && self.tree_root(z) == root)
                }),
            decreases self.depth@[current@ as int],
        {
            proof {
                self.lemma_wf_parent(current);
                assert(self.nodes@[current@ as int] == self.nodes@[current@ as int]);
            }
            if let Some(sibling) = self.nodes[current.index()].next_sibling {
                return Some(sibling);
            }
            match self.nodes[current.index()].parent {
                Some(parent) => {
                    current = parent;
                },
                None => {
                    return None;
                },
            }
        }
    }

    proof fn lemma_forest_last(self, x: NodeId, i: int)
        requires
            self.wf(),
            self.valid(x),
            0 <= i < self.children(x).len(),
        ensures
            ({
                let kx = self.kids@[x@ as int];
                let f = self.forest_nodes(kx, i, self.depth@[x@ as int] as int);
                &&& f.len() > 0
                &&& f.last() == self.subtree_nodes(kx.last()).last()
            }),
        decreases self.children(x).len() - i,
    {
        let kx = self.kids@[x@ as int];
        let d = self.depth@[x@ as int] as int;
        self.lemma_forest_step(x, i);
        if i + 1 < kx.len() {
            self.lemma_forest_last(x, i + 1);
        } else {
            assert(self.forest_nodes(kx, i + 1, d) == Seq::<NodeId>::empty());
            assert(self.forest_nodes(kx, i, d) =~= self.subtree_nodes(kx[i]));
        }
    }

    /// The last node of a subtree in document order is the one reached by following last children.
    pub proof fn lemma_subtree_last(self, x: NodeId)
        requires
            self.wf(),
            self.valid(x),
        ensures
            self.subtree_nodes(x).len() > 0,
            self.subtree_nodes(x).last() == self.deepest_last(x),
        decreases self.bound@ - self.depth@[x@ as int],
    {
        broadcast use group_node_id;
        self.lemma_subtree_unfold(x);
        self.lemma_wf_ends_at(x);
        let kx = self.kids@[x@ as int];
        let d = self.depth@[x@ as int] as int;
        if kx.len() == 0 {
            assert(self.forest_nodes(kx, 0, d) == Seq::<NodeId>::empty());
            assert(self.subtree_nodes(x) =~= seq![x]);
        } else {
            let c = kx.last();
            self.lemma_wf_child(x, kx.len() - 1);
            self.lemma_forest_last(x, 0);
            self.lemma_subtree_last(c);
            assert(self.nodes@[x@ as int].last_child == Some(c));
        }
    }

    /// Within the tree of `id`, the node `previous_of` gives is the one just before `id` in
    /// document order; where it gives none, `id` is the root of its tree or the first child of
    /// a document node.
    pub proof fn lemma_previous_in_order(self, id: NodeId)
        requires
            self.wf(),
            self.valid(id),
        ensures
            ({
                let root = self.tree_root(id);
                let p = self.subtree_nodes(root);
                let k = self.order_pos(root, id);
                &&& self.placed(root, id)
                &&& (self.previous_of(id) matches Some(y) ==> {
                    &&& 0 < k
                    &&& p[k - 1] == y
                    &&& self.placed(root, y)
                    &&& self.order_pos(root, y) == k - 1
                    &&& self.tree_root(y) == root
                })
                &&& (self.previous_of(id) is None ==> k == 0 || (self.parent_of(id) matches Some(q) && {
                    &&& self.type_of(q) is Document
                    &&& p[k - 1] == q
                    &&& self.order_pos(root, q) == k - 1
                }))
            }),
    {
        broadcast use group_node_id;
        let root = self.tree_root(id);
        let p = self.subtree_nodes(root);
        self.lemma_tree_root(id);
        self.lemma_placed(root, id);
        self.lemma_sibling_position(id);
        self.lemma_wf_parent(id);
        assert(self.nodes@[id@ as int] == self.nodes@[id@ as int]);
        match self.parent_of(id) {
            None => {
                assert(id == root);
            },
            Some(q) => {
                let c = self.children(q);
                let j = c.index_of(id);
                assert(id != root);
                self.lemma_in_subtree_step(id, root);
                self.lemma_placed(root, q);
                if j > 0 {
                    let s = c[j - 1];
                    self.lemma_wf_child(q, j - 1);
                    self.lemma_in_subtree_step(s, root);
                    assert(self.in_subtree(s, root));
                    self.lemma_in_subtree_depth(s, root);
                    assert(s != root);
                    assert(self.nodes@[s@ as int] == self.nodes@[s@ as int]);
                    self.lemma_sibling_position(s);
                    assert(c.index_of(s) == j - 1) by {
                        self.lemma_wf_ends_at(q);
                        Self::lemma_index_of_unique(c, j - 1);
                    }
                    assert(self.nodes@[s@ as int].next_sibling == Some(id));
                    self.lemma_order(root, s);
                    self.lemma_subtree_last(s);
                    let ks = self.order_pos(root, s);
                    let ls = self.subtree_nodes(s);
                    assert(p.subrange(ks, ks + ls.len())[ls.len() - 1] == ls.last());
                    let y = self.deepest_last(s);
                    assert(p[ks + ls.len() - 1] == y);
                    self.lemma_order_positions(root, ks + ls.len() - 1);
                    self.lemma_tree_root_below(root, y);
                } else {
                    let kq = self.kids@[q@ as int];
                    let d = self.depth@[q@ as int] as int;
                    assert(kq.index_of(id) == 0);
                    assert(self.order_pos(root, id) == self.order_pos(root, q) + 1 + (self.forest_nodes(kq, 0, d).len() - self.forest_nodes(kq, 0, d).len()));
                    self.lemma_tree_root_below(root, q);
                }
            },
        }
    }

    /// A node in the subtree of a tree root has that root as its own.
    pub proof fn lemma_tree_root_below(self, root: NodeId, z: NodeId)
        requires
            self.wf(),
            self.valid(z),
            self.in_subtree(z, root),
            self.parent_of(root) is None,
        ensures
            self.tree_root(z) == root,
        decreases self.depth@[z@ as int],
    {
        broadcast use group_node_id;
        self.lemma_wf_parent(z);
        self.lemma_in_subtree_depth(z, root);
        if z != root {
            self.lemma_in_subtree_step(z, root);
            let q = self.parent_of(z).unwrap();
            self.lemma_tree_root_below(root, q);
        } else {
            assert(self.nodes@[z@ as int] == self.nodes@[z@ as int]);
        }
    }

    /// The nodes after `id` in the document order of the whole tree it belongs to.
    #[verifier::rlimit(30)]
    pub fn next_element_nodes(&self, id: NodeId) -> (out: Vec<NodeId>)
        requires
            self.wf(),
            self.valid(id),
        ensures
            out@ == self.subtree_nodes(self.tree_root(id)).skip(self.order_pos(self.tree_root(id), id) + 1),
    {
        let ghost root = self.tree_root(id);
        let ghost p = self.subtree_nodes(root);
        let ghost start = self.order_pos(root, id) + 1;
        let mut out: Vec<NodeId> = Vec::new();
        let mut current = self.next_element_node(id);
        let ghost mut k: int = start;
        while current.is_some()
            invariant
                self.wf(),
                p == self.subtree_nodes(root),
                0 < start <= k <= p.len(),
                out@ == p.subrange(start, k),
                current == (if k < p.len() { Some(p[k]) } else { None::<NodeId> }),
                current matches Some(c) ==> self.placed(root, c) && self.order_pos(root, c) == k && self.tree_root(c) == root,
            decreases p.len() - k,
        {
            let node = current.unwrap();
            proof {
                assert(p.subrange(start, k + 1) =~= p.subrange(start, k).push(node));
            }
            out.push(node);
            current = self.next_element_node(node);
            proof {
                k = k + 1;
            }
        }
        proof {
            assert(out@ =~= p.skip(start));
        }
        out
    }

    /// The subtree of a valid node holds only valid nodes.
    pub proof fn lemma_subtree_valid(self, x: NodeId)
        requires
            self.valid(x),
        ensures
            forall|i: int| 0 <= i < self.subtree_nodes(x).len() ==> self.valid(#[trigger] self.subtree_nodes(x)[i]),
        decreases self.bound@ - self.depth@[x@ as int], 0int,
    {
        if self.depth@[x@ as int] < self.bound@ {
            self.lemma_forest_valid(self.kids@[x@ as int], 0, self.depth@[x@ as int] as int);
            let f = self.forest_nodes(self.kids@[x@ as int], 0, self.depth@[x@ as int] as int);
            assert forall|i: int| 0 <= i < self.subtree_nodes(x).len() implies self.valid(#[trigger] self.subtree_nodes(x)[i]) by {
                if i > 0 {
                    assert(self.subtree_nodes(x)[i] == f[i - 1]);
                }
            }
        }
    }

    proof fn lemma_forest_valid(self, s: Seq<NodeId>, i: int, d: int)
        ensures
            forall|j: int| 0 <= j < self.forest_nodes(s, i, d).len() ==> self.valid(#[trigger] self.forest_nodes(s, i, d)[j]),
        decreases self.bound@ - d - 1, s.len() - i + 1,
    {
        if 0 <= i < s.len() && self.valid(s[i]) && self.depth@[s[i]@ as int] == d + 1 && d + 1 < self.bound@ {
            self.lemma_subtree_valid(s[i]);
            self.lemma_forest_valid(s, i + 1, d);
            let a = self.subtree_nodes(s[i]);
            let b = self.forest_nodes(s, i + 1, d);
            assert forall|j: int| 0 <= j < self.forest_nodes(s, i, d).len() implies self.valid(#[trigger] self.forest_nodes(s, i, d)[j]) by {
                if j < a.len() {
                    assert(self.forest_nodes(s, i, d)[j] == a[j]);
                } else {
                    assert(self.forest_nodes(s, i, d)[j] == b[j - a.len()]);
                }
            }
        } else if 0 <= i < s.len() {
            self.lemma_forest_valid(s, i + 1, d);
        }
    }

    /// Where a traversal of the subtree of `root` starts: at `root`, followed by its first child.
    pub proof fn lemma_traversal_start(self, root: NodeId)
        requires
            self.wf(),
            self.valid(root),
        ensures
            self.placed(root, root),
            self.order_pos(root, root) == 0,
            self.subtree_nodes(root).len() >= 1,
            self.subtree_nodes(root)[0] == root,
            self.nodes@[root@ as int].first_child == (if self.subtree_nodes(root).len() > 1 { Some(self.subtree_nodes(root)[1]) } else { None::<NodeId> }),
            self.nodes@[root@ as int].first_child matches Some(c) ==> self.placed(root, c) && self.order_pos(root, c) == 1,
    {
        self.lemma_in_subtree_refl(root);
        self.lemma_placed(root, root);
        self.lemma_next_in_order(root, root);
        self.lemma_subtree_unfold(root);
        self.lemma_wf_basic();
        self.lemma_wf_ends_at(root);
        assert(self.order_pos(root, root) == 0);
        if self.kids@[root@ as int].len() > 0 {
            self.lemma_wf_child(root, 0);
            self.lemma_order_in_parent(root, 0);
        }
    }

    /// What follows the subtree of `id` in the document order of the subtree of `root`.
    fn next_after_subtree(&self, root: NodeId, id: NodeId) -> (next: Option<NodeId>)
        requires
            self.wf(),
            self.valid(id),
        ensures
            next == self.after_subtree(root, id),
    {
        broadcast use group_node_id;
        let mut current = id;
        while current != root
            invariant
                self.wf(),
                self.valid(current),
                self.after_subtree(root, id) == self.after_subtree(root, current),
            decreases self.depth@[current@ as int],
        {
            proof {
                self.lemma_wf_parent(current);
                assert(self.nodes@[current@ as int] == self.nodes@[current@ as int]);
            }
            if let Some(sibling) = self.nodes[current.index()].next_sibling {
                return Some(sibling);
            }
            match self.nodes[current.index()].parent {
                Some(parent) => {
                    current = parent;
                },
                None => {
                    return None;
                },
            }
        }
        None
    }

    /// The node after `id` in the document order of the subtree of `root`, if any.
    pub fn next_in_subtree(&self, root: NodeId, id: NodeId) -> (next: Option<NodeId>)
        requires
            self.wf(),
            self.valid(root),
            self.valid(id),
            self.in_subtree(id, root),
        ensures
            next == self.next_in_order(root, id),
            ({
                let p = self.subtree_nodes(root);
                let k = self.order_pos(root, id);
                &&& self.placed(root, id)
                &&& next == (if k + 1 < p.len() { Some(p[k + 1]) } else { None::<NodeId> })
                &&& (next matches Some(z) ==> self.placed(root, z) && self.order_pos(root, z) == k + 1)
            }),
    {
        proof {
            self.lemma_next_in_order(root, id);
        }
        if let Some(child) = self.nodes[id.index()].first_child {
            return Some(child);
        }
        self.next_after_subtree(root, id)
    }

    /// The nodes of the subtree of `root` in document order, with or without `root` itself.
    #[verifier::rlimit(30)]
    pub fn descendant_nodes(&self, root: NodeId, include_self: bool) -> (out: Vec<NodeId>)
        requires
            self.wf(),
            self.valid(root),
        ensures
            out@ == (if include_self { self.subtree_nodes(root) } else { self.subtree_nodes(root).drop_first() }),
    {
        let ghost p = self.subtree_nodes(root);
        let ghost start: int = if include_self { 0 } else { 1 };
        proof {
            self.lemma_placed(root, root);
            self.lemma_next_in_order(root, root);
            self.lemma_subtree_unfold(root);
            self.lemma_wf_basic();
            self.lemma_wf_ends_at(root);
            assert(self.order_pos(root, root) == 0);
        }
        let mut out = Vec::new();
        let mut current = if include_self { Some(root) } else { self.nodes[root.index()].first_child };
        let ghost mut k: int = start;
        proof {
            if !include_self {
                if self.kids@[root@ as int].len() > 0 {
                    self.lemma_wf_child(root, 0);
                    self.lemma_order_in_parent(root, 0);
                }
            }
        }
        while current.is_some()
            invariant
                self.wf(),
                self.valid(root),
                p == self.subtree_nodes(root),
                start == (if include_self { 0int } else { 1int }),
                start <= k <= p.len(),
                out@ == p.subrange(start, k),
                current == (if k < p.len() { Some(p[k]) } else { None::<NodeId> }),
                current matches Some(c) ==> self.placed(root, c) && self.order_pos(root, c) == k,
            decreases p.len() - k,
        {
            let id = current.unwrap();
            proof {
                assert(k < p.len());
                assert(p.subrange(start, k + 1) =~= p.subrange(start, k).push(id));
            }
            out.push(id);
            current = self.next_in_subtree(root, id);
            proof {
                k = k + 1;
            }
        }
        proof {
            if include_self {
                assert(out@ =~= p);
            } else {
                assert(out@ =~= p.drop_first());
            }
        }
        out
    }

    /// The first element, in document order, among the nodes below `root` (and `root` itself
    /// when `include_self`) for which `predicate` answers `true`. `predicate` is asked about
    /// elements only, in that order, and no more once it has answered `true`.
    pub fn find_descendant_element<F: Fn(NodeId) -> bool>(&self, root: NodeId, include_self: bool, predicate: F) -> (r: Option<NodeId>)
        requires
            self.wf(),
            self.valid(root),
            forall|x: NodeId| self.valid(x) ==> #[trigger] predicate.requires((x,)),
        ensures
            ({
                let v = crate::matcher::visited(*self, root, include_self);
                match r {
                    Some(x) => exists|k: int| {
                        &&& 0 <= k < v.len()
                        &&& #[trigger] v[k] == x
                        &&& self.is_element_at(x)
                        &&& predicate.ensures((x,), true)
                        &&& forall|j: int| 0 <= j < k && self.is_element_at(#[trigger] v[j]) ==> predicate.ensures((v[j],), false)
                    },
                    None => forall|j: int| 0 <= j < v.len() && self.is_element_at(#[trigger] v[j]) ==> predicate.ensures((v[j],), false),
                }
            }),
    {
        let ghost p = self.subtree_nodes(root);
        let ghost start: int = if include_self { 0 } else { 1 };
        let ghost v = crate::matcher::visited(*self, root, include_self);
        proof {
            self.lemma_placed(root, root);
            self.lemma_next_in_order(root, root);
            self.lemma_subtree_unfold(root);
            self.lemma_wf_basic();
            self.lemma_wf_ends_at(root);
            assert(self.order_pos(root, root) == 0);
            if !include_self {
                if self.kids@[root@ as int].len() > 0 {
                    self.lemma_wf_child(root, 0);
                    self.lemma_order_in_parent(root, 0);
                }
            }
        }
        let mut current = if include_self { Some(root) } else { self.nodes[root.index()].first_child };
        let ghost mut k: int = start;
        while current.is_some()
            invariant
                self.wf(),
                self.valid(root),
                forall|x: NodeId| self.valid(x) ==> #[trigger] predicate.requires((x,)),
                p == self.subtree_nodes(root),
                start == (if include_self { 0int } else { 1int }),
                v == crate::matcher::visited(*self, root, include_self),
                p.len() >= 1,
                start <= k <= p.len(),
                current == (if k < p.len() { Some(p[k]) } else { None::<NodeId> }),
                current matches Some(c) ==> self.placed(root, c) && self.order_pos(root, c) == k,
                forall|j: int| 0 <= j < k - start && self.is_element_at(#[trigger] v[j]) ==> predicate.ensures((v[j],), false),
            decreases p.len() - k,
        {
            let id = current.unwrap();
            proof {
                assert(v[k - start] == p[k]);
            }
            if self.is_element(id) {
                let found = predicate(id);
                if found {
                    proof {
                        assert(v[k - start] == id);
                    }
                    return Some(id);
                }
            }
            current = self.next_in_subtree(root, id);
            proof {
                k = k + 1;
            }
        }
        None
    }

    /// In a sequence without repeats, the index of an element found at `j` is `j`.
    pub proof fn lemma_index_of_unique(s: Seq<NodeId>, j: int)
        requires
            s.no_duplicates(),
            0 <= j < s.len(),
        ensures
            s.index_of(s[j]) == j,
            s.contains(s[j]),
    {
        assert(s.contains(s[j]));
    }

    /// Whether `x` is an element.
    pub open spec fn is_element_at(self, x: NodeId) -> bool {
        self.nodes@[x@ as int].node_type is Element
    }

    /// The children of a node have no repeats, and are valid nodes whose parent it is.
    pub proof fn lemma_children(self, x: NodeId)
        requires
            self.wf(),
            self.valid(x),
        ensures
            self.children(x).no_duplicates(),
            forall|i: int| 0 <= i < self.children(x).len() ==> self.valid(#[trigger] self.children(x)[i]) && self.parent_of(self.children(x)[i]) == Some(x),
            forall|y: NodeId| self.valid(y) ==> (self.children(x).contains(y) <==> #[trigger] self.parent_of(y) == Some(x)),
            !self.children(x).contains(x),
            self.node_at(x).first_child == first_of(self.children(x)),
            self.node_at(x).last_child == last_of(self.children(x)),
    {
        self.lemma_wf_ends_at(x);
        assert forall|i: int| 0 <= i < self.children(x).len() implies self.valid(#[trigger] self.children(x)[i]) && self.parent_of(self.children(x)[i]) == Some(x) by {
            self.lemma_wf_child(x, i);
        }
        assert forall|y: NodeId| self.valid(y) implies (self.children(x).contains(y) <==> #[trigger] self.parent_of(y) == Some(x)) by {
            if self.children(x).contains(y) {
                self.lemma_only_parent_holds(x, y);
            }
            if self.parent_of(y) == Some(x) {
                self.lemma_wf_parent(y);
            }
        }
        if self.children(x).contains(x) {
            self.lemma_only_parent_holds(x, x);
            self.lemma_wf_parent(x);
        }
    }

    /// A node and the nodes above it: `x` lies in the subtree of each of them.
    pub proof fn lemma_parent_not_below(self, x: NodeId, c: NodeId)
        requires
            self.wf(),
            self.valid(x),
            self.valid(c),
            self.parent_of(c) == Some(x) || (self.parent_of(c) matches Some(m) && self.parent_of(m) == Some(x)),
        ensures
            !self.in_subtree(x, c),
            x != c,
    {
        self.lemma_wf_parent(c);
        if let Some(m) = self.parent_of(c) {
            self.lemma_wf_parent(m);
        }
        if self.in_subtree(x, c) {
            self.lemma_in_subtree_depth(x, c);
        }
    }

    /// Takes every child of `parent` out of it.
    pub fn clear_children(&mut self, parent: NodeId)
        requires
            old(self).wf(),
            old(self).valid(parent),
        ensures
            final(self).wf(),
            final(self).len() == old(self).len(),
            final(self).root == old(self).root,
            final(self).root_decomposed == old(self).root_decomposed,
            forall|i: int| 0 <= i < old(self).len() ==> #[trigger] final(self).nodes@[i].node_type == old(self).nodes@[i].node_type,
            final(self).children(parent) == Seq::<NodeId>::empty(),
            forall|x: NodeId| old(self).valid(x) && x != parent ==> #[trigger] final(self).children(x) == old(self).children(x),
            forall|x: NodeId| old(self).valid(x) ==> #[trigger] final(self).parent_of(x) == (if old(self).parent_of(x) == Some(parent) { None } else { old(self).parent_of(x) }),
    {
        let children = self.child_nodes(parent);
        let ghost s = children@;
        let ghost old_doc = *self;
        proof {
            old_doc.lemma_children(parent);
        }
        let mut i: usize = 0;
        while i < children.len()
            invariant
                self.wf(),
                old_doc.wf(),
                old_doc.valid(parent),
                s == children@,
                s == old_doc.children(parent),
                s.no_duplicates(),
                forall|j: int| 0 <= j < s.len() ==> old_doc.valid(#[trigger] s[j]) && old_doc.parent_of(s[j]) == Some(parent),
                forall|y: NodeId| old_doc.valid(y) ==> (s.contains(y) <==> #[trigger] old_doc.parent_of(y) == Some(parent)),
                0 <= i <= s.len(),
                self.len() == old_doc.len(),
                self.root == old_doc.root,
                self.root_decomposed == old_doc.root_decomposed,
                forall|j: int| 0 <= j < old_doc.len() ==> #[trigger] self.nodes@[j].node_type == old_doc.nodes@[j].node_type,
                self.children(parent) == s.skip(i as int),
                forall|x: NodeId| old_doc.valid(x) && x != parent ==> #[trigger] self.children(x) == old_doc.children(x),
                forall|x: NodeId| old_doc.valid(x) ==> #[trigger] self.parent_of(x) == (if old_doc.parent_of(x) == Some(parent) && s.take(i as int).contains(x) { None } else { old_doc.parent_of(x) }),
            decreases s.len() - i,
        {
            let child = children[i];
            let ghost before = *self;
            self.detach(child);
            proof {
                assert(before.children(parent) == s.skip(i as int));
                assert(s.skip(i as int)[0] == child);
                assert(s.skip(i as int).index_of(child) == 0) by {
                    assert(s.skip(i as int).no_duplicates());
                    Self::lemma_index_of_unique(s.skip(i as int), 0);
                }
                assert(s.skip(i as int).remove(0) =~= s.skip(i as int + 1));
                assert forall|x: NodeId| old_doc.valid(x) && x != parent implies #[trigger] self.children(x) == old_doc.children(x) by {
                    assert(!old_doc.children(x).contains(child)) by {
                        if old_doc.children(x).contains(child) {
                            old_doc.lemma_only_parent_holds(x, child);
                        }
                    }
                }
                assert forall|x: NodeId| old_doc.valid(x) implies #[trigger] self.parent_of(x) == (if old_doc.parent_of(x) == Some(parent) && s.take(i as int + 1).contains(x) { None } else { old_doc.parent_of(x) }) by {
                    assert(s.take(i as int + 1) =~= s.take(i as int).push(child));
                    assert(s.take(i as int + 1).contains(x) <==> (s.take(i as int).contains(x) || x == child)) by {
                        if x == child {
                            assert(s.take(i as int + 1)[i as int] == x);
                        }
                    }
                }
            }
            i += 1;
        }
        proof {
            assert(s.skip(s.len() as int) =~= Seq::<NodeId>::empty());
            assert forall|x: NodeId| old_doc.valid(x) implies #[trigger] self.parent_of(x) == (if old_doc.parent_of(x) == Some(parent) { None } else { old_doc.parent_of(x) }) by {
                assert(s.take(s.len() as int) =~= s);
            }
        }
    }

    pub(crate) proof fn lemma_wf_same_links(a: Document, b: Document)
        requires
            a.wf(),
            a.nodes@.len() == b.nodes@.len(),
            a.root == b.root,
            a.kids == b.kids,
            a.depth == b.depth,
            a.bound == b.bound,
            forall|i: int| 0 <= i < a.nodes@.len() ==> {
                &&& (#[trigger] b.nodes@[i]).parent == a.nodes@[i].parent
                &&& b.nodes@[i].first_child == a.nodes@[i].first_child
                &&& b.nodes@[i].last_child == a.nodes@[i].last_child
                &&& b.nodes@[i].prev_sibling == a.nodes@[i].prev_sibling
                &&& b.nodes@[i].next_sibling == a.nodes@[i].next_sibling
            },
        ensures
            b.wf(),
    {
        reveal(Document::wf);
        assert(b.wf_ends()) by {
            assert forall|p: int| 0 <= p < b.nodes@.len() implies {
                &&& (#[trigger] b.nodes@[p]).first_child == first_of(b.kids@[p])
                &&& b.nodes@[p].last_child == last_of(b.kids@[p])
            } by {
                assert(a.nodes@[p] == a.nodes@[p]);
            }
        }
        assert(b.wf_child_links()) by {
            assert forall|p: int, i: int| 0 <= p < b.nodes@.len() && 0 <= i < b.kids@[p].len() implies {
                let c = (#[trigger] b.kids@[p][i])@ as int;
                &&& b.nodes@[c].parent == Some(nid(p))
                &&& b.nodes@[c].prev_sibling == prev_in(b.kids@[p], i)
                &&& b.nodes@[c].next_sibling == next_in(b.kids@[p], i)
            } by {
                assert(a.kids@[p][i] == b.kids@[p][i]);
                let c = b.kids@[p][i]@ as int;
                assert(b.nodes@[c] == b.nodes@[c]);
            }
        }
        assert(b.wf_parent_links()) by {
            assert forall|c: int| 0 <= c < b.nodes@.len() implies match (#[trigger] b.nodes@[c]).parent {
                Some(q) => {
                    &&& q@ < b.nodes@.len()
                    &&& b.kids@[q@ as int].contains(nid(c))
                    &&& b.depth@[c] == b.depth@[q@ as int] + 1
                },
                None => {
                    &&& b.nodes@[c].prev_sibling is None
                    &&& b.nodes@[c].next_sibling is None
                },
            } by {
                assert(a.nodes@[c] == a.nodes@[c]);
            }
        }
        assert(b.wf_depth()) by {
            assert forall|c: int| 0 <= c < b.nodes@.len() implies #[trigger] b.depth@[c] < b.bound@ by {
                assert(a.depth@[c] < a.bound@);
            }
        }
    }

    /// Replaces what node `id` is; its links stay.
    pub(crate) fn set_node_type(&mut self, id: NodeId, node_type: NodeType)
        requires
            old(self).wf(),
            old(self).valid(id),
        ensures
            final(self).wf(),
            final(self).nodes@ == old(self).nodes@.update(id@ as int, Node { node_type: node_type, ..old(self).nodes@[id@ as int] }),
            final(self).root == old(self).root,
            final(self).root_decomposed == old(self).root_decomposed,
            forall|x: NodeId| #[trigger] final(self).children(x) == old(self).children(x),
            forall|x: NodeId, top: NodeId| old(self).valid(x) ==> #[trigger] final(self).in_subtree(x, top) == old(self).in_subtree(x, top),
            forall|x: NodeId| #[trigger] final(self).subtree_nodes(x) == old(self).subtree_nodes(x),
    {
        let ghost old_doc = *self;
        self.nodes[id.index()].node_type = node_type;
        proof {
            Self::lemma_wf_same_links(old_doc, *self);
            assert forall|x: NodeId, top: NodeId| old_doc.valid(x) implies #[trigger] self.in_subtree(x, top) == old_doc.in_subtree(x, top) by {
                Self::lemma_in_subtree_same_links(old_doc, *self, x, top);
            }
            assert forall|x: NodeId| #[trigger] self.subtree_nodes(x) == old_doc.subtree_nodes(x) by {
                Self::lemma_subtree_same_links(old_doc, *self, x);
            }
        }
    }

    /// Element `id` to be changed in place, or `None` where `id` is no element. Whatever the
    /// caller leaves in the element becomes what node `id` is; its links and every other node
    /// stay as they were.
    pub fn element_mut(&mut self, id: NodeId) -> (r: Option<&mut ElementData>)
        requires
            old(self).valid(id),
        ensures
            final(self).root == old(self).root,
            final(self).root_decomposed == old(self).root_decomposed,
            final(self).kids == old(self).kids,
            final(self).depth == old(self).depth,
            final(self).bound == old(self).bound,
            match old(self).type_of(id) {
                NodeType::Element(e) => {
                    &&& r is Some
                    &&& *r.unwrap() == e
                    &&& final(self).nodes@ == old(self).nodes@.update(
                        id@ as int,
                        Node { node_type: NodeType::Element(*final(r.unwrap())), ..old(self).nodes@[id@ as int] },
                    )
                },
                _ => r is None && final(self).nodes@ == old(self).nodes@,
            },
    {
        match &mut self.nodes[id.index()].node_type {
            NodeType::Element(element) => Some(element),
            _ => None,
        }
    }

    /// Puts `node_type` in place of what node `id` is and hands back what it was; links stay.
    pub(crate) fn replace_node_type(&mut self, id: NodeId, node_type: NodeType) -> (previous: NodeType)
        requires
            old(self).wf(),
            old(self).valid(id),
        ensures
            previous == old(self).type_of(id),
            final(self).wf(),
            final(self).nodes@ == old(self).nodes@.update(id@ as int, Node { node_type: node_type, ..old(self).nodes@[id@ as int] }),
            final(self).kids == old(self).kids,
            final(self).depth == old(self).depth,
            final(self).bound == old(self).bound,
            final(self).root == old(self).root,
            final(self).root_decomposed == old(self).root_decomposed,
            forall|x: NodeId| #[trigger] final(self).children(x) == old(self).children(x),
            forall|x: NodeId, top: NodeId| old(self).valid(x) ==> #[trigger] final(self).in_subtree(x, top) == old(self).in_subtree(x, top),
            forall|x: NodeId| #[trigger] final(self).subtree_nodes(x) == old(self).subtree_nodes(x),
    {
        let mut previous = node_type;
        let ghost new_type = node_type;
        let ghost old_doc = *self;
        std::mem::swap(&mut previous, &mut self.nodes[id.index()].node_type);
        proof {
            assert(self.nodes@ =~= old_doc.nodes@.update(id@ as int, Node { node_type: new_type, ..old_doc.nodes@[id@ as int] }));
            Self::lemma_wf_same_links(old_doc, *self);
            assert forall|x: NodeId, top: NodeId| old_doc.valid(x) implies #[trigger] self.in_subtree(x, top) == old_doc.in_subtree(x, top) by {
                Self::lemma_in_subtree_same_links(old_doc, *self, x, top);
            }
            assert forall|x: NodeId| #[trigger] self.subtree_nodes(x) == old_doc.subtree_nodes(x) by {
                Self::lemma_subtree_same_links(old_doc, *self, x);
            }
        }
        previous
    }

    /// Takes every child out of the root and marks the document as decomposed.
    pub fn decompose_root(&mut self)
        requires
            old(self).wf(),
        ensures
            final(self).wf(),
            final(self).root_decomposed,
            final(self).len() == old(self).len(),
            final(self).root == old(self).root,
            forall|i: int| 0 <= i < old(self).len() ==> #[trigger] final(self).nodes@[i].node_type == old(self).nodes@[i].node_type,
            final(self).children(final(self).root) == Seq::<NodeId>::empty(),
            forall|x: NodeId| old(self).valid(x) && x != old(self).root ==> #[trigger] final(self).children(x) == old(self).children(x),
            forall|x: NodeId| old(self).valid(x) ==> #[trigger] final(self).parent_of(x) == (if old(self).parent_of(x) == Some(old(self).root) { None } else { old(self).parent_of(x) }),
    {
        proof {
            self.lemma_wf_basic();
        }
        let root = self.root;
        self.clear_children(root);
        let ghost before = *self;
        self.root_decomposed = true;
        proof {
            Self::lemma_wf_same_links(before, *self);
            assert(self.nodes@ == before.nodes@);
            assert forall|x: NodeId| #[trigger] self.children(x) == before.children(x) by {}
            assert forall|x: NodeId| #[trigger] self.parent_of(x) == before.parent_of(x) by {}
        }
    }

    pub(crate) proof fn lemma_in_subtree_same_links(a: Document, b: Document, x: NodeId, top: NodeId)
        requires
            a.wf(),
            a.valid(x),
            a.nodes@.len() == b.nodes@.len(),
            a.depth == b.depth,
            forall|i: int| 0 <= i < a.nodes@.len() ==> (#[trigger] b.nodes@[i]).parent == a.nodes@[i].parent,
        ensures
            b.in_subtree(x, top) == a.in_subtree(x, top),
        decreases a.depth@[x@ as int],
    {
        a.lemma_wf_parent(x);
        if x != top {
            assert(b.nodes@[x@ as int].parent == a.nodes@[x@ as int].parent);
            if let Some(q) = a.nodes@[x@ as int].parent {
                if a.depth@[q@ as int] < a.depth@[x@ as int] {
                    Self::lemma_in_subtree_same_links(a, b, q, top);
                }
            }
        }
    }

    pub(crate) proof fn lemma_subtree_same_links(a: Document, b: Document, x: NodeId)
        requires
            a.nodes@.len() == b.nodes@.len(),
            a.kids == b.kids,
            a.depth == b.depth,
            a.bound == b.bound,
        ensures
            b.subtree_nodes(x) == a.subtree_nodes(x),
        decreases a.bound@ - a.depth@[x@ as int], 0int,
    {
        if a.valid(x) && a.depth@[x@ as int] < a.bound@ {
            Self::lemma_forest_same_links(a, b, a.kids@[x@ as int], 0, a.depth@[x@ as int] as int);
        }
    }

    proof fn lemma_forest_same_links(a: Document, b: Document, s: Seq<NodeId>, i: int, d: int)
        requires
            a.nodes@.len() == b.nodes@.len(),
            a.kids == b.kids,
            a.depth == b.depth,
            a.bound == b.bound,
        ensures
            b.forest_nodes(s, i, d) == a.forest_nodes(s, i, d),
        decreases a.bound@ - d - 1, s.len() - i + 1,
    {
        if 0 <= i < s.len() && a.valid(s[i]) && a.depth@[s[i]@ as int] == d + 1 && d + 1 < a.bound@ {
            Self::lemma_subtree_same_links(a, b, s[i]);
            Self::lemma_forest_same_links(a, b, s, i + 1, d);
        }
    }

    /// A node lies strictly below `top` only when `top` has children.
    pub proof fn lemma_below_needs_child(self, x: NodeId, top: NodeId)
        requires
            self.wf(),
            self.valid(x),
            self.in_subtree(x, top),
            x != top,
        ensures
            self.valid(top),
            self.children(top).len() > 0,
        decreases self.depth@[x@ as int],
    {
        self.lemma_in_subtree_step(x, top);
        self.lemma_wf_parent(x);
        let q = self.parent_of(x).unwrap();
        if q == top {
            assert(self.children(top).contains(x));
        } else {
            self.lemma_below_needs_child(q, top);
        }
    }

    /// Adds a new text node holding `text` as the last child of `parent`.
    pub fn append_text(&mut self, parent: NodeId, text: String) -> (id: NodeId)
        requires
            old(self).wf(),
            old(self).valid(parent),
            old(self).len() < u32::MAX,
        ensures
            final(self).wf(),
            id@ == old(self).len(),
            final(self).len() == old(self).len() + 1,
            final(self).root == old(self).root,
            final(self).root_decomposed == old(self).root_decomposed,
            final(self).type_of(id) == NodeType::Text(text),
            forall|i: int| 0 <= i < old(self).len() ==> #[trigger] final(self).nodes@[i].node_type == old(self).nodes@[i].node_type,
            final(self).parent_of(id) == Some(parent),
            forall|x: NodeId| old(self).valid(x) ==> #[trigger] final(self).parent_of(x) == old(self).parent_of(x),
            final(self).children(parent) == old(self).children(parent).push(id),
            final(self).children(id) == Seq::<NodeId>::empty(),
            forall|x: NodeId| old(self).valid(x) && x != parent ==> #[trigger] final(self).children(x) == old(self).children(x),
    {
        let id = self.push_node(Node::new(NodeType::Text(text)));
        proof {
            self.lemma_fresh_leaf(id, parent);
            self.lemma_fresh_not_held(id);
        }
        self.append_existing(parent, id);
        id
    }

    /// Adds a new node of the given kind as the last child of `parent`.
    pub fn append_new(&mut self, parent: NodeId, node_type: NodeType) -> (id: NodeId)
        requires
            old(self).wf(),
            old(self).valid(parent),
            old(self).len() < u32::MAX,
        ensures
            final(self).wf(),
            id@ == old(self).len(),
            final(self).len() == old(self).len() + 1,
            final(self).root == old(self).root,
            final(self).root_decomposed == old(self).root_decomposed,
            final(self).type_of(id) == node_type,
            forall|i: int| 0 <= i < old(self).len() ==> #[trigger] final(self).nodes@[i].node_type == old(self).nodes@[i].node_type,
            final(self).parent_of(id) == Some(parent),
            forall|x: NodeId| old(self).valid(x) ==> #[trigger] final(self).parent_of(x) == old(self).parent_of(x),
            final(self).children(parent) == old(self).children(parent).push(id),
            final(self).children(id) == Seq::<NodeId>::empty(),
            forall|x: NodeId| old(self).valid(x) && x != parent ==> #[trigger] final(self).children(x) == old(self).children(x),
    {
        let id = self.push_node(Node::new(node_type));
        proof {
            self.lemma_fresh_leaf(id, parent);
            self.lemma_fresh_not_held(id);
        }
        self.append_existing(parent, id);
        id
    }

    /// A node without a parent occurs in no list of children.
    pub(crate) proof fn lemma_fresh_not_held(self, id: NodeId)
        requires
            self.wf(),
            self.valid(id),
            self.parent_of(id) is None,
        ensures
            forall|x: NodeId| self.valid(x) ==> !(#[trigger] self.children(x)).contains(id),
            forall|x: NodeId| self.valid(x) ==> #[trigger] remove_value(self.children(x), id) == self.children(x),
    {
        assert forall|x: NodeId| self.valid(x) implies !(#[trigger] self.children(x)).contains(id) by {
            self.lemma_children(x);
        }
    }

    /// A childless node that no node holds: nothing lies below it but itself.
    pub(crate) proof fn lemma_fresh_leaf(self, id: NodeId, other: NodeId)
        requires
            self.wf(),
            self.valid(id),
            self.valid(other),
            other != id,
            self.children(id) == Seq::<NodeId>::empty(),
        ensures
            !self.in_subtree(other, id),
    {
        if self.in_subtree(other, id) {
            self.lemma_below_needs_child(other, id);
        }
    }
}

} // verus!
