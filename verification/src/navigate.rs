use vstd::prelude::*;
use crate::dom::{Document, NodeId, NodeType};
use crate::element::str_view;
use crate::text::{is_raw_text_element, is_raw_text_name, str_eq};

verus! {

/// Whether a node of this kind carries text of some sort (everything but documents and elements).
pub open spec fn is_text_like_type(t: NodeType) -> bool {
    !(t is Document) && !(t is Element)
}

impl Document {
    /// The nodes above `x`, nearest first.
    pub open spec fn ancestors(self, x: NodeId) -> Seq<NodeId>
        decreases self.depth@[x@ as int],
    {
        match self.nodes@[x@ as int].parent {
            Some(q) => if self.depth@[q@ as int] < self.depth@[x@ as int] {
                seq![q] + self.ancestors(q)
            } else {
                Seq::empty()
            },
            None => Seq::empty(),
        }
    }

    /// The root of the tree that `x` belongs to: its topmost ancestor, or `x` itself.
    pub open spec fn tree_root(self, x: NodeId) -> NodeId
        decreases self.depth@[x@ as int],
    {
        match self.nodes@[x@ as int].parent {
            Some(q) => if self.depth@[q@ as int] < self.depth@[x@ as int] {
                self.tree_root(q)
            } else {
                x
            },
            None => x,
        }
    }

    /// The node reached from `x` by following last children down.
    pub open spec fn deepest_last(self, x: NodeId) -> NodeId
        decreases self.bound@ - self.depth@[x@ as int],
    {
        match self.nodes@[x@ as int].last_child {
            Some(c) => if self.depth@[x@ as int] < self.depth@[c@ as int] && self.depth@[c@ as int] < self.bound@ {
                self.deepest_last(c)
            } else {
                x
            },
            None => x,
        }
    }

    /// Whether node `x` carries text of some sort.
    pub open spec fn is_text_like_at(self, x: NodeId) -> bool {
        is_text_like_type(self.type_of(x))
    }

    /// A node lies in the subtree of the root of its tree.
    pub proof fn lemma_tree_root(self, x: NodeId)
        requires
            self.wf(),
            self.valid(x),
        ensures
            self.valid(self.tree_root(x)),
            self.in_subtree(x, self.tree_root(x)),
            self.parent_of(self.tree_root(x)) is None,
        decreases self.depth@[x@ as int],
    {
        self.lemma_wf_parent(x);
        self.lemma_in_subtree_refl(x);
        if let Some(q) = self.parent_of(x) {
            self.lemma_tree_root(q);
            let r = self.tree_root(q);
            self.lemma_in_subtree_step(x, r);
            if x == r {
                self.lemma_in_subtree_depth(q, r);
            }
        }
    }

    /// The parent of `id`, if any.
    pub fn parent_node(&self, id: NodeId) -> (r: Option<NodeId>)
        requires
            self.valid(id),
        ensures
            r == self.parent_of(id),
    {
        self.nodes[id.index()].parent
    }

    /// The parent of `id`, if it has one and it is an element.
    pub fn parent_element(&self, id: NodeId) -> (r: Option<NodeId>)
        requires
            self.wf(),
            self.valid(id),
        ensures
            r == (if self.parent_of(id) matches Some(p) && self.is_element_at(p) { self.parent_of(id) } else { None }),
    {
        proof {
            self.lemma_wf_parent(id);
        }
        match self.nodes[id.index()].parent {
            Some(p) => if self.is_element(p) {
                Some(p)
            } else {
                None
            },
            None => None,
        }
    }

    /// Whether node `id` carries text of some sort: text, CDATA, a declaration, a template
    /// string, a comment, a doctype or a processing instruction.
    pub fn is_text_like(&self, id: NodeId) -> (r: bool)
        requires
            self.valid(id),
        ensures
            r == self.is_text_like_at(id),
    {
        match &self.nodes[id.index()].node_type {
            NodeType::Document => false,
            NodeType::Element(_) => false,
            _ => true,
        }
    }

    /// The string that node `id` carries: the text of a text-like node, a doctype's name, or
    /// the target of a processing instruction without data.
    pub fn node_string(&self, id: NodeId) -> (r: Option<&str>)
        requires
            self.valid(id),
        ensures
            match self.type_of(id) {
                NodeType::Text(t) => str_view(r) == Some(t@),
                NodeType::CData(t) => str_view(r) == Some(t@),
                NodeType::Declaration(t) => str_view(r) == Some(t@),
                NodeType::TemplateString(t) => str_view(r) == Some(t@),
                NodeType::Comment(t) => str_view(r) == Some(t@),
                NodeType::Doctype(d) => str_view(r) == Some(d.name@),
                NodeType::ProcessingInstruction(d) => if d.data@.len() == 0 { str_view(r) == Some(d.target@) } else { r is None },
                _ => r is None,
            },
    {
        match &self.nodes[id.index()].node_type {
            NodeType::Text(text) => Some(text.as_str()),
            NodeType::CData(text) => Some(text.as_str()),
            NodeType::Declaration(text) => Some(text.as_str()),
            NodeType::TemplateString(text) => Some(text.as_str()),
            NodeType::Comment(text) => Some(text.as_str()),
            NodeType::Doctype(data) => Some(data.name.as_str()),
            NodeType::ProcessingInstruction(data) => if data.data.as_str().unicode_len() == 0 {
                Some(data.target.as_str())
            } else {
                None
            },
            _ => None,
        }
    }
}


impl Document {
    /// The first element among `s[i..]`.
    pub open spec fn first_element_from(self, s: Seq<NodeId>, i: int) -> Option<NodeId>
        decreases s.len() - i,
    {
        if i < 0 || i >= s.len() {
            None
        } else if self.is_element_at(s[i]) {
            Some(s[i])
        } else {
            self.first_element_from(s, i + 1)
        }
    }

    /// The last element among `s[..i]`.
    pub open spec fn last_element_before(self, s: Seq<NodeId>, i: int) -> Option<NodeId>
        decreases i,
    {
        if i <= 0 || i > s.len() {
            None
        } else if self.is_element_at(s[i - 1]) {
            Some(s[i - 1])
        } else {
            self.last_element_before(s, i - 1)
        }
    }

    /// The siblings of `id` after it, in order.
    pub open spec fn siblings_after(self, id: NodeId) -> Seq<NodeId> {
        match self.parent_of(id) {
            Some(p) => self.children(p).skip(self.children(p).index_of(id) + 1),
            None => Seq::empty(),
        }
    }

    /// The siblings of `id` before it, in order.
    pub open spec fn siblings_before(self, id: NodeId) -> Seq<NodeId> {
        match self.parent_of(id) {
            Some(p) => self.children(p).take(self.children(p).index_of(id)),
            None => Seq::empty(),
        }
    }

    /// Where `id` stands among its parent's children, with the link facts the walks use.
    pub(crate) proof fn lemma_sibling_position(self, id: NodeId)
        requires
            self.wf(),
            self.valid(id),
        ensures
            self.parent_of(id) is None ==> self.node_at(id).next_sibling is None && self.node_at(id).prev_sibling is None,
            self.parent_of(id) matches Some(p) ==> {
                let c = self.children(p);
                let k = c.index_of(id);
                &&& self.valid(p)
                &&& 0 <= k < c.len()
                &&& c[k] == id
                &&& c.no_duplicates()
                &&& self.node_at(id).next_sibling == (if k + 1 < c.len() { Some(c[k + 1]) } else { None::<NodeId> })
                &&& self.node_at(id).prev_sibling == (if k > 0 { Some(c[k - 1]) } else { None::<NodeId> })
                &&& c.len() < usize::MAX
            },
    {
        self.lemma_wf_parent(id);
        if let Some(p) = self.parent_of(id) {
            self.lemma_children(p);
            self.lemma_children_fit(p);
            let c = self.children(p);
            let k = c.index_of(id);
            self.lemma_wf_child(p, k);
        }
    }

    /// The first child of `id` that is an element.
    pub fn first_element_child(&self, id: NodeId) -> (r: Option<NodeId>)
        requires
            self.wf(),
            self.valid(id),
        ensures
            r == self.first_element_from(self.children(id), 0),
    {
        let ghost s = self.children(id);
        proof {
            self.lemma_wf_ends_at(id);
            self.lemma_children_fit(id);
        }
        let mut child = self.nodes[id.index()].first_child;
        let ghost mut j: int = 0;
        while child.is_some()
            invariant
                self.wf(),
                self.valid(id),
                s == self.children(id),
                0 <= j <= s.len(),
                child == (if j < s.len() { Some(s[j]) } else { None::<NodeId> }),
                self.first_element_from(s, 0) == self.first_element_from(s, j),
            decreases s.len() - j,
        {
            let current = child.unwrap();
            proof {
                self.lemma_wf_child(id, j);
            }
            if self.is_element(current) {
                return Some(current);
            }
            child = self.nodes[current.index()].next_sibling;
            proof {
                j = j + 1;
            }
        }
        None
    }

    /// The first sibling after `id` that is an element.
    pub fn next_sibling_element(&self, id: NodeId) -> (r: Option<NodeId>)
        requires
            self.wf(),
            self.valid(id),
        ensures
            r == self.first_element_from(self.siblings_after(id), 0),
    {
        proof {
            self.lemma_sibling_position(id);
        }
        let mut sibling = self.nodes[id.index()].next_sibling;
        match self.nodes[id.index()].parent {
            None => {
                proof {
                    assert(self.first_element_from(self.siblings_after(id), 0) == None::<NodeId>);
                }
                return None;
            },
            Some(p) => {
                let ghost c = self.children(p);
                let ghost k = c.index_of(id);
                let ghost s = self.siblings_after(id);
                let ghost mut j: int = 0;
                while sibling.is_some()
                    invariant
                        self.wf(),
                        self.valid(p),
                        c == self.children(p),
                        0 <= k < c.len(),
                        s == c.skip(k + 1),
                        s == self.siblings_after(id),
                        0 <= j <= s.len(),
                        sibling == (if j < s.len() { Some(s[j]) } else { None::<NodeId> }),
                        self.first_element_from(s, 0) == self.first_element_from(s, j),
                    decreases s.len() - j,
                {
                    let current = sibling.unwrap();
                    proof {
                        self.lemma_wf_child(p, k + 1 + j);
                    }
                    if self.is_element(current) {
                        return Some(current);
                    }
                    sibling = self.nodes[current.index()].next_sibling;
                    proof {
                        j = j + 1;
                    }
                }
                None
            },
        }
    }

    /// The last sibling before `id` that is an element.
    pub fn prev_sibling_element(&self, id: NodeId) -> (r: Option<NodeId>)
        requires
            self.wf(),
            self.valid(id),
        ensures
            r == self.last_element_before(self.siblings_before(id), self.siblings_before(id).len() as int),
    {
        proof {
            self.lemma_sibling_position(id);
        }
        let mut sibling = self.nodes[id.index()].prev_sibling;
        match self.nodes[id.index()].parent {
            None => {
                return None;
            },
            Some(p) => {
                let ghost c = self.children(p);
                let ghost k = c.index_of(id);
                let ghost s = self.siblings_before(id);
                let ghost mut j: int = k;
                while sibling.is_some()
                    invariant
                        self.wf(),
                        self.valid(p),
                        c == self.children(p),
                        0 <= k < c.len(),
                        s == c.take(k),
                        s == self.siblings_before(id),
                        0 <= j <= k,
                        sibling == (if j > 0 { Some(s[j - 1]) } else { None::<NodeId> }),
                        self.last_element_before(s, k) == self.last_element_before(s, j),
                    decreases j,
                {
                    let current = sibling.unwrap();
                    proof {
                        self.lemma_wf_child(p, j - 1);
                    }
                    if self.is_element(current) {
                        return Some(current);
                    }
                    sibling = self.nodes[current.index()].prev_sibling;
                    proof {
                        j = j - 1;
                    }
                }
                None
            },
        }
    }

    /// The siblings of `id` after it, in order.
    pub fn sibling_nodes_after(&self, id: NodeId) -> (out: Vec<NodeId>)
        requires
            self.wf(),
            self.valid(id),
        ensures
            out@ == self.siblings_after(id),
    {
        proof {
            self.lemma_sibling_position(id);
        }
        let mut out: Vec<NodeId> = Vec::new();
        let mut sibling = self.nodes[id.index()].next_sibling;
        match self.nodes[id.index()].parent {
            None => {
                proof {
                    assert(out@ =~= self.siblings_after(id));
                }
                out
            },
            Some(p) => {
                let ghost c = self.children(p);
                let ghost k = c.index_of(id);
                let ghost s = self.siblings_after(id);
                while sibling.is_some()
                    invariant
                        self.wf(),
                        self.valid(p),
                        c == self.children(p),
                        0 <= k < c.len(),
                        s == c.skip(k + 1),
                        out@.len() <= s.len(),
                        out@ == s.take(out@.len() as int),
                        sibling == (if out@.len() < s.len() { Some(s[out@.len() as int]) } else { None::<NodeId> }),
                    decreases s.len() - out@.len(),
                {
                    let current = sibling.unwrap();
                    proof {
                        self.lemma_wf_child(p, k + 1 + out@.len());
                    }
                    out.push(current);
                    sibling = self.nodes[current.index()].next_sibling;
                    proof {
                        assert(out@ =~= s.take(out@.len() as int));
                    }
                }
                proof {
                    assert(out@ =~= s);
                }
                out
            },
        }
    }

    /// The siblings of `id` before it, nearest first.
    pub fn sibling_nodes_before(&self, id: NodeId) -> (out: Vec<NodeId>)
        requires
            self.wf(),
            self.valid(id),
        ensures
            out@ == self.siblings_before(id).reverse(),
    {
        proof {
            self.lemma_sibling_position(id);
        }
        let mut out: Vec<NodeId> = Vec::new();
        let mut sibling = self.nodes[id.index()].prev_sibling;
        match self.nodes[id.index()].parent {
            None => {
                proof {
                    assert(out@ =~= self.siblings_before(id).reverse());
                }
                out
            },
            Some(p) => {
                let ghost c = self.children(p);
                let ghost k = c.index_of(id);
                let ghost s = self.siblings_before(id);
                let ghost mut j: int = k;
                while sibling.is_some()
                    invariant
                        self.wf(),
                        self.valid(p),
                        c == self.children(p),
                        0 <= k < c.len(),
                        s == c.take(k),
                        0 <= j <= k,
                        out@ == s.subrange(j, k).reverse(),
                        sibling == (if j > 0 { Some(s[j - 1]) } else { None::<NodeId> }),
                    decreases j,
                {
                    let current = sibling.unwrap();
                    proof {
                        self.lemma_wf_child(p, j - 1);
                    }
                    out.push(current);
                    sibling = self.nodes[current.index()].prev_sibling;
                    proof {
                        assert(out@ =~= s.subrange(j - 1, k).reverse());
                        j = j - 1;
                    }
                }
                proof {
                    assert(s.subrange(0, k) =~= s);
                }
                out
            },
        }
    }

    /// The nodes above `id`, nearest first.
    pub fn parent_nodes(&self, id: NodeId) -> (out: Vec<NodeId>)
        requires
            self.wf(),
            self.valid(id),
        ensures
            out@ == self.ancestors(id),
    {
        let mut out: Vec<NodeId> = Vec::new();
        let mut current = id;
        proof {
            self.lemma_wf_parent(id);
        }
        while self.nodes[current.index()].parent.is_some()
            invariant
                self.wf(),
                self.valid(current),
                out@ + self.ancestors(current) == self.ancestors(id),
            decreases self.depth@[current@ as int],
        {
            let parent = self.nodes[current.index()].parent.unwrap();
            proof {
                self.lemma_wf_parent(current);
                assert(out@.push(parent) + self.ancestors(parent) =~= out@ + self.ancestors(current));
            }
            out.push(parent);
            current = parent;
        }
        proof {
            assert(out@ + self.ancestors(current) =~= out@);
        }
        out
    }

    /// The node reached from `id` by following last children down.
    pub fn deepest_last_child(&self, id: NodeId) -> (r: NodeId)
        requires
            self.wf(),
            self.valid(id),
        ensures
            r == self.deepest_last(id),
            self.valid(r),
    {
        let mut current = id;
        proof {
            self.lemma_wf_basic();
        }
        while self.nodes[current.index()].last_child.is_some()
            invariant
                self.wf(),
                self.valid(current),
                self.deepest_last(id) == self.deepest_last(current),
            decreases self.bound@ - self.depth@[current@ as int],
        {
            let child = self.nodes[current.index()].last_child.unwrap();
            proof {
                self.lemma_wf_ends_at(current);
                self.lemma_wf_child(current, self.children(current).len() - 1);
            }
            current = child;
        }
        current
    }
}


impl Document {
    /// Whether `x` is an element whose tag names a raw text element.
    pub open spec fn is_raw_text_at(self, x: NodeId) -> bool {
        self.type_of(x) matches NodeType::Element(e) && is_raw_text_name(e.local_name@)
    }

    /// The tag name of `x` if it is a raw text element.
    pub open spec fn raw_text_name_of(self, x: NodeId) -> Option<Seq<char>> {
        match self.type_of(x) {
            NodeType::Element(e) => if is_raw_text_name(e.local_name@) {
                Some(e.local_name@)
            } else {
                None
            },
            _ => None,
        }
    }

    /// Whether some node strictly between `x` and `root` (walking up from `x`'s parent and
    /// stopping at `root`) is a raw text element.
    pub open spec fn raw_text_between(self, root: NodeId, x: NodeId) -> bool
        decreases self.depth@[x@ as int],
    {
        match self.nodes@[x@ as int].parent {
            Some(q) => if q == root {
                false
            } else if self.is_raw_text_at(q) {
                true
            } else if self.depth@[q@ as int] < self.depth@[x@ as int] {
                self.raw_text_between(root, q)
            } else {
                false
            },
            None => false,
        }
    }

    /// The tag name of `id` if it is a raw text element.
    pub fn raw_text_element_name(&self, id: NodeId) -> (r: Option<&str>)
        requires
            self.valid(id),
        ensures
            str_view(r) == self.raw_text_name_of(id),
    {
        match &self.nodes[id.index()].node_type {
            NodeType::Element(element) => {
                let name = element.tag_name();
                if is_raw_text_element(name) {
                    Some(name)
                } else {
                    None
                }
            },
            _ => None,
        }
    }

    /// Whether `id` is a raw text element.
    pub fn is_raw_text_element_node(&self, id: NodeId) -> (r: bool)
        requires
            self.valid(id),
        ensures
            r == self.is_raw_text_at(id),
    {
        self.raw_text_element_name(id).is_some()
    }

    /// The tag name of `id`'s parent if that is a raw text element.
    pub fn raw_text_parent_name(&self, id: NodeId) -> (r: Option<&str>)
        requires
            self.wf(),
            self.valid(id),
        ensures
            match self.parent_of(id) {
                Some(p) => str_view(r) == self.raw_text_name_of(p),
                None => r is None,
            },
    {
        proof {
            self.lemma_wf_parent(id);
        }
        match self.nodes[id.index()].parent {
            Some(p) => self.raw_text_element_name(p),
            None => None,
        }
    }

    /// Whether `id`'s parent is a raw text element, whose text is written as it is.
    pub fn text_has_raw_text_parent(&self, id: NodeId) -> (r: bool)
        requires
            self.wf(),
            self.valid(id),
        ensures
            r == (self.parent_of(id) matches Some(p) && self.is_raw_text_at(p)),
    {
        proof {
            self.lemma_wf_parent(id);
        }
        match self.nodes[id.index()].parent {
            Some(p) => self.is_raw_text_element_node(p),
            None => false,
        }
    }

    /// Whether an element named `template`.
    pub fn is_template_element(&self, id: NodeId) -> (r: bool)
        requires
            self.valid(id),
        ensures
            r == (self.type_of(id) matches NodeType::Element(e) && e.local_name@ == "template"@),
    {
        match &self.nodes[id.index()].node_type {
            NodeType::Element(element) => str_eq(element.tag_name(), "template"),
            _ => false,
        }
    }

    /// Whether a raw text element stands between `id` and `root` (neither counted), walking up
    /// from `id`'s parent.
    pub fn is_inside_skipped_raw_text_element(&self, root: NodeId, id: NodeId) -> (r: bool)
        requires
            self.wf(),
            self.valid(id),
        ensures
            r == self.raw_text_between(root, id),
    {
        let mut current = id;
        proof {
            self.lemma_wf_parent(id);
        }
        while self.nodes[current.index()].parent.is_some()
            invariant
                self.wf(),
                self.valid(current),
                self.raw_text_between(root, id) == self.raw_text_between(root, current),
            decreases self.depth@[current@ as int],
        {
            let parent = self.nodes[current.index()].parent.unwrap();
            proof {
                self.lemma_wf_parent(current);
            }
            if parent == root {
                return false;
            }
            if self.is_raw_text_element_node(parent) {
                return true;
            }
            current = parent;
        }
        false
    }
}


impl Document {
    /// The node before `id`: the deepest last descendant of its previous sibling, or else its
    /// parent unless that is the document node.
    pub open spec fn previous_of(self, id: NodeId) -> Option<NodeId> {
        match self.nodes@[id@ as int].prev_sibling {
            Some(s) => Some(self.deepest_last(s)),
            None => match self.parent_of(id) {
                Some(p) => if self.type_of(p) is Document {
                    None
                } else {
                    Some(p)
                },
                None => None,
            },
        }
    }

    /// The node before `id` in document order, stopping below the document node.
    pub fn previous_element_node(&self, id: NodeId) -> (r: Option<NodeId>)
        requires
            self.wf(),
            self.valid(id),
        ensures
            r == self.previous_of(id),
            r matches Some(x) ==> self.valid(x),
    {
        proof {
            self.lemma_sibling_position(id);
            self.lemma_wf_parent(id);
            if let Some(p) = self.parent_of(id) {
                let c = self.children(p);
                let k = c.index_of(id);
                if k > 0 {
                    self.lemma_wf_child(p, k - 1);
                }
            }
        }
        if let Some(previous) = self.nodes[id.index()].prev_sibling {
            return Some(self.deepest_last_child(previous));
        }
        match self.nodes[id.index()].parent {
            Some(p) => match &self.nodes[p.index()].node_type {
                NodeType::Document => None,
                _ => Some(p),
            },
            None => None,
        }
    }

    /// The nodes before `id` in the document order of its tree, nearest first: each step takes
    /// the node `previous_element_node` gives, until it gives none.
    pub fn previous_element_nodes(&self, id: NodeId) -> (out: Vec<NodeId>)
        requires
            self.wf(),
            self.valid(id),
        ensures
            ({
                let root = self.tree_root(id);
                let p = self.subtree_nodes(root);
                let k = self.order_pos(root, id);
                &&& out@.len() <= k
                &&& forall|i: int| 0 <= i < out@.len() ==> #[trigger] out@[i] == p[k - 1 - i]
                &&& self.previous_of(if out@.len() == 0 { id } else { out@.last() }) is None
            }),
    {
        let ghost root = self.tree_root(id);
        let ghost p = self.subtree_nodes(root);
        let ghost k = self.order_pos(root, id);
        proof {
            self.lemma_previous_in_order(id);
        }
        let mut out: Vec<NodeId> = Vec::new();
        let mut current = self.previous_element_node(id);
        let ghost mut last = id;
        while current.is_some()
            invariant
                self.wf(),
                root == self.tree_root(id),
                p == self.subtree_nodes(root),
                k == self.order_pos(root, id),
                out@.len() <= k,
                forall|i: int| 0 <= i < out@.len() ==> #[trigger] out@[i] == p[k - 1 - i],
                last == (if out@.len() == 0 { id } else { out@.last() }),
                self.valid(last),
                self.tree_root(last) == root,
                self.order_pos(root, last) == k - out@.len(),
                current == self.previous_of(last),
            decreases k - out@.len(),
        {
            let node = current.unwrap();
            proof {
                self.lemma_previous_in_order(last);
            }
            out.push(node);
            current = self.previous_element_node(node);
            proof {
                last = node;
            }
        }
        out
    }

    /// Following only children down from `x`: the text-like node reached through elements that
    /// each have exactly one child, if the walk ends at one (in a well-formed document depth grows
    /// along the walk, which is what bounds it).
    pub open spec fn tag_string_from(self, x: NodeId) -> Option<NodeId>
        decreases self.bound@ - self.depth@[x@ as int],
    {
        if self.children(x).len() != 1 {
            None
        } else {
            let f = self.children(x)[0];
            if self.is_text_like_at(f) {
                Some(f)
            } else if self.is_element_at(f) && self.depth@[x@ as int] < self.depth@[f@ as int] < self.bound@ {
                self.tag_string_from(f)
            } else {
                None
            }
        }
    }

    /// The single text-like node that `id` holds, through elements with one child each.
    pub fn tag_string_node(&self, id: NodeId) -> (r: Option<NodeId>)
        requires
            self.wf(),
            self.valid(id),
        ensures
            r == self.tag_string_from(id),
    {
        let mut current = id;
        loop
            invariant
                self.wf(),
                self.valid(current),
                self.tag_string_from(id) == self.tag_string_from(current),
            decreases self.bound@ - self.depth@[current@ as int],
        {
            proof {
                self.lemma_wf_ends_at(current);
                self.lemma_wf_basic();
                if self.children(current).len() > 0 {
                    self.lemma_wf_child(current, 0);
                }
            }
            let first = match self.nodes[current.index()].first_child {
                Some(f) => f,
                None => {
                    return None;
                },
            };
            if self.nodes[first.index()].next_sibling.is_some() {
                return None;
            }
            if self.is_text_like(first) {
                return Some(first);
            }
            if !self.is_element(first) {
                return None;
            }
            current = first;
        }
    }

    /// The elements of `s`, in order.
    pub open spec fn elements_in(self, s: Seq<NodeId>) -> Seq<NodeId>
        decreases s.len(),
    {
        if s.len() == 0 {
            Seq::empty()
        } else if self.is_element_at(s.last()) {
            self.elements_in(s.drop_last()).push(s.last())
        } else {
            self.elements_in(s.drop_last())
        }
    }

    /// The elements of the subtree of `root` in document order, with or without `root` itself.
    #[verifier::rlimit(30)]
    pub fn descendant_elements(&self, root: NodeId, include_self: bool) -> (out: Vec<NodeId>)
        requires
            self.wf(),
            self.valid(root),
        ensures
            out@ == self.elements_in(if include_self { self.subtree_nodes(root) } else { self.subtree_nodes(root).drop_first() }),
    {
        let nodes = self.descendant_nodes(root, include_self);
        let mut out: Vec<NodeId> = Vec::new();
        let mut i: usize = 0;
        proof {
            self.lemma_wf_basic();
            self.lemma_subtree_valid(root);
            let sn = self.subtree_nodes(root);
            self.lemma_subtree_unfold(root);
            assert(sn.len() >= 1);
            assert forall|j: int| 0 <= j < nodes@.len() implies self.valid(#[trigger] nodes@[j]) by {
                if include_self {
                    assert(nodes@[j] == sn[j]);
                } else {
                    assert(nodes@ == sn.drop_first());
                    assert(nodes@[j] == sn[j + 1]);
                }
            }
        }
        while i < nodes.len()
            invariant
                self.wf(),
                i <= nodes@.len(),
                forall|j: int| 0 <= j < nodes@.len() ==> self.valid(#[trigger] nodes@[j]),
                out@ == self.elements_in(nodes@.take(i as int)),
            decreases nodes@.len() - i,
        {
            let id = nodes[i];
            if self.is_element(id) {
                out.push(id);
            }
            proof {
                assert(nodes@.take(i as int + 1).drop_last() =~= nodes@.take(i as int));
            }
            i += 1;
        }
        proof {
            assert(nodes@.take(nodes@.len() as int) =~= nodes@);
        }
        out
    }
}


impl Document {
    /// The nodes above `x` are valid, and the `i`-th of them is `i + 1` levels up.
    pub proof fn lemma_ancestors(self, x: NodeId)
        requires
            self.wf(),
            self.valid(x),
        ensures
            forall|i: int| 0 <= i < self.ancestors(x).len() ==> self.valid(#[trigger] self.ancestors(x)[i]) && self.depth@[self.ancestors(x)[i]@ as int] == self.depth@[x@ as int] - 1 - i,
            self.ancestors(x).len() == self.depth@[x@ as int] - self.depth@[self.tree_root(x)@ as int],
        decreases self.depth@[x@ as int],
    {
        self.lemma_wf_parent(x);
        self.lemma_wf_basic();
        if let Some(q) = self.parent_of(x) {
            self.lemma_ancestors(q);
            let a = self.ancestors(x);
            assert(a == seq![q] + self.ancestors(q));
            assert forall|i: int| 0 <= i < a.len() implies self.valid(#[trigger] a[i]) && self.depth@[a[i]@ as int] == self.depth@[x@ as int] - 1 - i by {
                if i > 0 {
                    assert(a[i] == self.ancestors(q)[i - 1]);
                }
            }
        }
    }

    /// A node has fewer nodes above it than the arena holds.
    pub proof fn lemma_ancestors_fit(self, x: NodeId)
        requires
            self.wf(),
            self.valid(x),
        ensures
            self.ancestors(x).len() < self.len(),
            self.depth@[x@ as int] - self.depth@[self.tree_root(x)@ as int] < self.len(),
    {
        broadcast use crate::dom::group_node_id;
        self.lemma_ancestors(x);
        let a = self.ancestors(x);
        let ids = a.map_values(|y: NodeId| y@ as int);
        assert forall|i: int, j: int| 0 <= i < ids.len() && 0 <= j < ids.len() && i != j implies ids[i] != ids[j] by {
            assert(self.depth@[a[i]@ as int] != self.depth@[a[j]@ as int]);
        }
        let set_ids = ids.to_set();
        let range = vstd::set_lib::set_int_range(0, self.len() as int).remove(x@ as int);
        assert forall|v: int| set_ids.contains(v) implies range.contains(v) by {
            let i = choose|i: int| 0 <= i < ids.len() && ids[i] == v;
            assert(self.valid(a[i]));
            assert(self.depth@[a[i]@ as int] != self.depth@[x@ as int]);
        }
        ids.unique_seq_to_set();
        vstd::set_lib::lemma_int_range(0, self.len() as int);
        vstd::set_lib::lemma_len_subset(set_ids, range);
    }
}

} // verus!
