use vstd::prelude::*;
use crate::dom::{Document, Node, NodeId, NodeType, DoctypeData, ElementData, ProcessingInstructionData, remove_value};

verus! {

impl Document {
    /// Adds a parentless, childless node of the given kind.
    pub(crate) fn add_fresh(&mut self, node_type: NodeType) -> (id: NodeId)
        requires
            old(self).wf(),
            old(self).len() < u32::MAX,
        ensures
            final(self).wf(),
            id@ == old(self).len(),
            final(self).len() == old(self).len() + 1,
            final(self).nodes@ == old(self).nodes@.push(Node::fresh(node_type)),
            final(self).root == old(self).root,
            final(self).root_decomposed == old(self).root_decomposed,
            final(self).parent_of(id) is None,
            final(self).children(id) == Seq::<NodeId>::empty(),
            forall|x: NodeId| old(self).valid(x) ==> #[trigger] final(self).children(x) == old(self).children(x),
            forall|x: NodeId| old(self).valid(x) ==> !#[trigger] final(self).children(x).contains(id),
            forall|x: NodeId| old(self).valid(x) ==> !#[trigger] final(self).in_subtree(x, id),
    {
        let id = self.push_node(Node::new(node_type));
        proof {
            self.lemma_fresh_not_held(id);
            assert forall|x: NodeId| old(self).valid(x) implies !#[trigger] self.in_subtree(x, id) by {
                self.lemma_fresh_leaf(id, x);
            }
        }
        id
    }

    /// A document holding one node of the given kind beside its root, outside the root.
    fn detached_with(node_type: NodeType) -> (r: (Document, NodeId))
        ensures
            r.0.wf(),
            r.0.len() == 2,
            r.0.root@ == 0,
            r.1@ == 1,
            !r.0.root_decomposed,
            r.0.type_of(r.0.root) == NodeType::Document,
            r.0.type_of(r.1) == node_type,
            r.0.parent_of(r.0.root) is None,
            r.0.parent_of(r.1) is None,
            r.0.children(r.0.root) == Seq::<NodeId>::empty(),
            r.0.children(r.1) == Seq::<NodeId>::empty(),
    {
        let mut document = Document::empty();
        let id = document.add_fresh(node_type);
        (document, id)
    }

    /// A document with a lone text node outside its root.
    pub fn detached_text(text: String) -> (r: (Document, NodeId))
        ensures
            r.0.wf(),
            r.0.len() == 2,
            r.0.root@ == 0,
            r.1@ == 1,
            r.0.type_of(r.1) == NodeType::Text(text),
            r.0.parent_of(r.1) is None,
            r.0.children(r.0.root) == Seq::<NodeId>::empty(),
            r.0.children(r.1) == Seq::<NodeId>::empty(),
    {
        Self::detached_with(NodeType::Text(text))
    }

    /// A document with a lone comment outside its root.
    pub fn detached_comment(text: String) -> (r: (Document, NodeId))
        ensures
            r.0.wf(),
            r.0.len() == 2,
            r.0.root@ == 0,
            r.1@ == 1,
            r.0.type_of(r.1) == NodeType::Comment(text),
            r.0.parent_of(r.1) is None,
            r.0.children(r.0.root) == Seq::<NodeId>::empty(),
            r.0.children(r.1) == Seq::<NodeId>::empty(),
    {
        Self::detached_with(NodeType::Comment(text))
    }

    /// A document with a lone CDATA section outside its root.
    pub fn detached_cdata(text: String) -> (r: (Document, NodeId))
        ensures
            r.0.wf(),
            r.0.len() == 2,
            r.0.root@ == 0,
            r.1@ == 1,
            r.0.type_of(r.1) == NodeType::CData(text),
            r.0.parent_of(r.1) is None,
            r.0.children(r.0.root) == Seq::<NodeId>::empty(),
            r.0.children(r.1) == Seq::<NodeId>::empty(),
    {
        Self::detached_with(NodeType::CData(text))
    }

    /// A document with a lone declaration outside its root.
    pub fn detached_declaration(text: String) -> (r: (Document, NodeId))
        ensures
            r.0.wf(),
            r.0.len() == 2,
            r.0.root@ == 0,
            r.1@ == 1,
            r.0.type_of(r.1) == NodeType::Declaration(text),
            r.0.parent_of(r.1) is None,
            r.0.children(r.0.root) == Seq::<NodeId>::empty(),
            r.0.children(r.1) == Seq::<NodeId>::empty(),
    {
        Self::detached_with(NodeType::Declaration(text))
    }

    /// A document with a lone template string outside its root.
    pub fn detached_template_string(text: String) -> (r: (Document, NodeId))
        ensures
            r.0.wf(),
            r.0.len() == 2,
            r.0.root@ == 0,
            r.1@ == 1,
            r.0.type_of(r.1) == NodeType::TemplateString(text),
            r.0.parent_of(r.1) is None,
            r.0.children(r.0.root) == Seq::<NodeId>::empty(),
            r.0.children(r.1) == Seq::<NodeId>::empty(),
    {
        Self::detached_with(NodeType::TemplateString(text))
    }

    /// A document with a lone doctype named `text` outside its root.
    pub fn detached_doctype(text: String) -> (r: (Document, NodeId))
        ensures
            r.0.wf(),
            r.0.len() == 2,
            r.0.root@ == 0,
            r.1@ == 1,
            r.0.type_of(r.1) matches NodeType::Doctype(d) && d.name@ == text@ && d.public_id@.len() == 0 && d.system_id@.len() == 0,
            r.0.parent_of(r.1) is None,
            r.0.children(r.0.root) == Seq::<NodeId>::empty(),
            r.0.children(r.1) == Seq::<NodeId>::empty(),
    {
        let data = DoctypeData { name: text, public_id: String::new(), system_id: String::new() };
        Self::detached_with(NodeType::Doctype(Box::new(data)))
    }

    /// A document with a lone processing instruction with target `text` outside its root.
    pub fn detached_processing_instruction(text: String) -> (r: (Document, NodeId))
        ensures
            r.0.wf(),
            r.0.len() == 2,
            r.0.root@ == 0,
            r.1@ == 1,
            r.0.type_of(r.1) matches NodeType::ProcessingInstruction(d) && d.target@ == text@ && d.data@.len() == 0,
            r.0.parent_of(r.1) is None,
            r.0.children(r.0.root) == Seq::<NodeId>::empty(),
            r.0.children(r.1) == Seq::<NodeId>::empty(),
    {
        let data = ProcessingInstructionData { target: text, data: String::new() };
        Self::detached_with(NodeType::ProcessingInstruction(Box::new(data)))
    }
}


impl Document {
    /// Moves `child` to position `index` among `parent`'s children, or to their end when
    /// `index` is past it; `parent` must not lie in `child`'s subtree. A child that already
    /// stands at `index` stays where it is.
    pub fn insert_existing(&mut self, parent: NodeId, index: usize, child: NodeId)
        requires
            old(self).wf(),
            old(self).valid(parent),
            old(self).valid(child),
            !old(self).in_subtree(parent, child),
        ensures
            final(self).wf(),
            final(self).len() == old(self).len(),
            final(self).root == old(self).root,
            final(self).root_decomposed == old(self).root_decomposed,
            forall|i: int| 0 <= i < old(self).len() ==> #[trigger] final(self).nodes@[i].node_type == old(self).nodes@[i].node_type,
            final(self).parent_of(child) == Some(parent),
            forall|x: NodeId| old(self).valid(x) && x != child ==> #[trigger] final(self).parent_of(x) == old(self).parent_of(x),
            index < old(self).children(parent).len() && old(self).children(parent)[index as int] == child
                ==> *final(self) == *old(self),
            ({
                let c = old(self).children(parent);
                let s = remove_value(c, child);
                !(index < c.len() && c[index as int] == child) ==>
                    final(self).children(parent) == if index < c.len() { s.insert(s.index_of(c[index as int]), child) } else { s.push(child) }
            }),
            forall|x: NodeId| old(self).valid(x) && x != parent ==> #[trigger] final(self).children(x) == remove_value(old(self).children(x), child),
    {
        let children = self.child_nodes(parent);
        proof {
            self.lemma_children(parent);
        }
        if index < children.len() {
            let sibling = children[index];
            if sibling.index() == child.index() {
                proof {
                    broadcast use crate::dom::group_node_id;
                    assert(sibling == child);
                    assert forall|x: NodeId| self.valid(x) && x != parent implies #[trigger] self.children(x) == remove_value(self.children(x), child) by {
                        self.lemma_children(x);
                        if self.children(x).contains(child) {
                            assert(self.parent_of(child) == Some(x));
                        }
                    }
                }
                return;
            }
            self.insert_before_existing(sibling, child);
        } else {
            self.append_existing(parent, child);
        }
    }

    /// Adds a text node holding `text` at position `index` among `parent`'s children (at their
    /// end when `index` is past it).
    pub fn insert_text(&mut self, parent: NodeId, index: usize, text: String) -> (id: NodeId)
        requires
            old(self).wf(),
            old(self).valid(parent),
            old(self).len() < u32::MAX,
        ensures
            final(self).wf(),
            id@ == old(self).len(),
            final(self).len() == old(self).len() + 1,
            final(self).root == old(self).root,
            final(self).root_decomposed == old(self).root_decomposed,
            final(self).type_of(id) == NodeType::Text(text),
            forall|i: int| 0 <= i < old(self).len() ==> #[trigger] final(self).nodes@[i].node_type == old(self).nodes@[i].node_type,
            final(self).parent_of(id) == Some(parent),
            forall|x: NodeId| old(self).valid(x) ==> #[trigger] final(self).parent_of(x) == old(self).parent_of(x),
            ({
                let c = old(self).children(parent);
                final(self).children(parent) == if index < c.len() { c.insert(index as int, id) } else { c.push(id) }
            }),
            final(self).children(id) == Seq::<NodeId>::empty(),
            forall|x: NodeId| old(self).valid(x) && x != parent ==> #[trigger] final(self).children(x) == old(self).children(x),
    {
        let ghost c = self.children(parent);
        proof {
            self.lemma_children(parent);
        }
        let id = self.add_fresh(NodeType::Text(text));
        proof {
            self.lemma_children(id);
            if index < c.len() {
                Document::lemma_index_of_unique(c, index as int);
                assert(!c.contains(id));
            }
        }
        self.insert_existing(parent, index, id);
        id
    }

    /// Adds a text node holding `text` just before `sibling`, which has a parent.
    pub fn insert_text_before(&mut self, sibling: NodeId, text: String) -> (id: NodeId)
        requires
            old(self).wf(),
            old(self).valid(sibling),
            old(self).parent_of(sibling) is Some,
            old(self).len() < u32::MAX,
        ensures
            final(self).wf(),
            id@ == old(self).len(),
            final(self).len() == old(self).len() + 1,
            final(self).root == old(self).root,
            final(self).root_decomposed == old(self).root_decomposed,
            final(self).type_of(id) == NodeType::Text(text),
            forall|i: int| 0 <= i < old(self).len() ==> #[trigger] final(self).nodes@[i].node_type == old(self).nodes@[i].node_type,
            final(self).parent_of(id) == old(self).parent_of(sibling),
            forall|x: NodeId| old(self).valid(x) ==> #[trigger] final(self).parent_of(x) == old(self).parent_of(x),
            ({
                let c = old(self).children(old(self).parent_of(sibling).unwrap());
                final(self).children(old(self).parent_of(sibling).unwrap()) == c.insert(c.index_of(sibling), id)
            }),
            final(self).children(id) == Seq::<NodeId>::empty(),
            forall|x: NodeId| old(self).valid(x) && Some(x) != old(self).parent_of(sibling) ==> #[trigger] final(self).children(x) == old(self).children(x),
    {
        proof {
            self.lemma_wf_parent(sibling);
        }
        let id = self.add_fresh(NodeType::Text(text));
        self.insert_before_existing(sibling, id);
        id
    }

    /// Adds a text node holding `text` just after `sibling`, which has a parent.
    pub fn insert_text_after(&mut self, sibling: NodeId, text: String) -> (id: NodeId)
        requires
            old(self).wf(),
            old(self).valid(sibling),
            old(self).parent_of(sibling) is Some,
            old(self).len() < u32::MAX,
        ensures
            final(self).wf(),
            id@ == old(self).len(),
            final(self).len() == old(self).len() + 1,
            final(self).root == old(self).root,
            final(self).root_decomposed == old(self).root_decomposed,
            final(self).type_of(id) == NodeType::Text(text),
            forall|i: int| 0 <= i < old(self).len() ==> #[trigger] final(self).nodes@[i].node_type == old(self).nodes@[i].node_type,
            final(self).parent_of(id) == old(self).parent_of(sibling),
            forall|x: NodeId| old(self).valid(x) ==> #[trigger] final(self).parent_of(x) == old(self).parent_of(x),
            ({
                let c = old(self).children(old(self).parent_of(sibling).unwrap());
                final(self).children(old(self).parent_of(sibling).unwrap()) == c.insert(c.index_of(sibling) + 1, id)
            }),
            final(self).children(id) == Seq::<NodeId>::empty(),
            forall|x: NodeId| old(self).valid(x) && Some(x) != old(self).parent_of(sibling) ==> #[trigger] final(self).children(x) == old(self).children(x),
    {
        proof {
            self.lemma_wf_parent(sibling);
        }
        let id = self.add_fresh(NodeType::Text(text));
        self.insert_after_existing(sibling, id);
        id
    }
}


impl Document {
    /// One step of `unwrap_node`: `target`'s first remaining child moves to just before it.
    proof fn lemma_unwrap_step(
        before: Document,
        after: Document,
        p: NodeId,
        target: NodeId,
        pre: Seq<NodeId>,
        s: Seq<NodeId>,
        post: Seq<NodeId>,
        i: int,
    )
        requires
            before.wf(),
            before.valid(p),
            before.valid(target),
            0 <= i < s.len(),
            before.children(p) == pre + s.take(i) + seq![target] + post,
            before.children(target) == s.skip(i),
            ({
                let s2 = remove_value(before.children(p), s[i]);
                after.children(p) == s2.insert(s2.index_of(target), s[i])
            }),
            after.children(target) == remove_value(before.children(target), s[i]),
        ensures
            after.children(p) == pre + s.take(i + 1) + seq![target] + post,
            after.children(target) == s.skip(i + 1),
            !before.children(p).contains(s[i]),
    {
        let c = before.children(p);
        let child = s[i];
        before.lemma_children(p);
        before.lemma_children(target);
        assert(s.skip(i)[0] == child);
        Document::lemma_index_of_unique(s.skip(i), 0);
        assert(s.skip(i).remove(0) =~= s.skip(i + 1));
        assert(before.parent_of(child) == Some(target));
        let j = pre.len() + i;
        assert(c[j] == target);
        assert(!c.contains(child)) by {
            if c.contains(child) {
                assert(before.parent_of(child) == Some(p));
                assert(target != p) by {
                    if target == p {
                        assert(c.contains(target));
                    }
                }
            }
        }
        assert(remove_value(c, child) == c);
        Document::lemma_index_of_unique(c, j);
        assert(c.insert(j, child) =~= pre + s.take(i + 1) + seq![target] + post);
    }

    /// Puts `target`'s children in its place among its parent's children, in order, and takes
    /// `target` out of the tree; `target` must have a parent.
    #[verifier::rlimit(50)]
    pub fn unwrap_node(&mut self, target: NodeId)
        requires
            old(self).wf(),
            old(self).valid(target),
            old(self).parent_of(target) is Some,
        ensures
            final(self).wf(),
            final(self).len() == old(self).len(),
            final(self).root == old(self).root,
            final(self).root_decomposed == old(self).root_decomposed,
            forall|i: int| 0 <= i < old(self).len() ==> #[trigger] final(self).nodes@[i].node_type == old(self).nodes@[i].node_type,
            ({
                let p = old(self).parent_of(target).unwrap();
                let c = old(self).children(p);
                let k = c.index_of(target);
                final(self).children(p) == c.take(k) + old(self).children(target) + c.skip(k + 1)
            }),
            final(self).children(target) == Seq::<NodeId>::empty(),
            final(self).parent_of(target) is None,
            forall|x: NodeId| old(self).valid(x) && Some(x) != old(self).parent_of(target) && x != target ==> #[trigger] final(self).children(x) == old(self).children(x),
            forall|x: NodeId| old(self).valid(x) && x != target ==> #[trigger] final(self).parent_of(x) == (if old(self).parent_of(x) == Some(target) { old(self).parent_of(target) } else { old(self).parent_of(x) }),
    {
        let ghost old_doc = *self;
        let p = self.nodes[target.index()].parent.unwrap();
        let children = self.child_nodes(target);
        let ghost s = children@;
        let ghost c = old_doc.children(p);
        proof {
            old_doc.lemma_wf_parent(target);
            old_doc.lemma_children(p);
            old_doc.lemma_children(target);
        }
        let ghost k = c.index_of(target);
        let ghost pre = c.take(k);
        let ghost post = c.skip(k + 1);
        proof {
            assert(c[k] == target);
            assert(c =~= pre + s.take(0) + seq![target] + post);
            assert(s.skip(0) =~= s);
        }
        let mut i: usize = 0;
        while i < children.len()
            invariant
                self.wf(),
                old_doc.wf(),
                old_doc.valid(target),
                old_doc.valid(p),
                old_doc.parent_of(target) == Some(p),
                s == children@,
                s == old_doc.children(target),
                forall|y: NodeId| old_doc.valid(y) ==> (s.contains(y) <==> #[trigger] old_doc.parent_of(y) == Some(target)),
                0 <= i <= s.len(),
                self.len() == old_doc.len(),
                self.root == old_doc.root,
                self.root_decomposed == old_doc.root_decomposed,
                forall|j: int| 0 <= j < old_doc.len() ==> #[trigger] self.nodes@[j].node_type == old_doc.nodes@[j].node_type,
                self.parent_of(target) == Some(p),
                self.children(p) == pre + s.take(i as int) + seq![target] + post,
                self.children(target) == s.skip(i as int),
                forall|x: NodeId| old_doc.valid(x) && x != p && x != target ==> #[trigger] self.children(x) == old_doc.children(x),
                forall|x: NodeId| old_doc.valid(x) && x != target ==> #[trigger] self.parent_of(x) == (if old_doc.parent_of(x) == Some(target) && s.take(i as int).contains(x) { Some(p) } else { old_doc.parent_of(x) }),
            decreases s.len() - i,
        {
            let child = children[i];
            let ghost before = *self;
            proof {
                before.lemma_children(target);
                assert(s.skip(i as int)[0] == child);
                assert(before.children(target).contains(child));
                before.lemma_wf_parent(target);
                before.lemma_parent_not_below(p, child);
                assert(child != target);
            }
            self.insert_before_existing(target, child);
            proof {
                Document::lemma_unwrap_step(before, *self, p, target, pre, s, post, i as int);
                assert forall|x: NodeId| old_doc.valid(x) && x != p && x != target implies #[trigger] self.children(x) == old_doc.children(x) by {
                    assert(!before.children(x).contains(child)) by {
                        if before.children(x).contains(child) {
                            before.lemma_only_parent_holds(x, child);
                        }
                    }
                }
                assert forall|x: NodeId| old_doc.valid(x) && x != target implies #[trigger] self.parent_of(x) == (if old_doc.parent_of(x) == Some(target) && s.take(i as int + 1).contains(x) { Some(p) } else { old_doc.parent_of(x) }) by {
                    assert(s.take(i as int + 1) =~= s.take(i as int).push(child));
                    assert(s.take(i as int + 1).contains(x) <==> (s.take(i as int).contains(x) || x == child)) by {
                        if x == child {
                            assert(s.take(i as int + 1)[i as int] == x);
                        }
                    }
                }
            }
            i += 1;
        }
        let ghost before = *self;
        proof {
            assert(s.take(s.len() as int) =~= s);
            before.lemma_children(p);
            let cc = before.children(p);
            let j = (pre.len() + s.len()) as int;
            assert(cc[j] == target);
            Document::lemma_index_of_unique(cc, j);
            assert(cc.remove(j) =~= pre + s + post);
        }
        self.detach(target);
        proof {
            assert(s.skip(s.len() as int) =~= Seq::<NodeId>::empty());
            assert forall|x: NodeId| old_doc.valid(x) && x != p && x != target implies #[trigger] self.children(x) == old_doc.children(x) by {
                assert(!before.children(x).contains(target)) by {
                    if before.children(x).contains(target) {
                        before.lemma_only_parent_holds(x, target);
                    }
                }
            }
            assert forall|x: NodeId| old_doc.valid(x) && x != target implies #[trigger] self.parent_of(x) == (if old_doc.parent_of(x) == Some(target) { old_doc.parent_of(target) } else { old_doc.parent_of(x) }) by {
                if old_doc.parent_of(x) == Some(target) {
                    assert(s.contains(x));
                }
            }
        }
    }
}


impl Document {
    /// Whether node `id` is an element.
    pub fn is_element(&self, id: NodeId) -> (r: bool)
        requires
            self.valid(id),
        ensures
            r == self.is_element_at(id),
    {
        match &self.nodes[id.index()].node_type {
            NodeType::Element(_) => true,
            _ => false,
        }
    }

    /// Empties `target`, takes it out of the tree and, if it is an element, clears its name,
    /// attributes and namespace.
    pub fn decompose_node(&mut self, target: NodeId)
        requires
            old(self).wf(),
            old(self).valid(target),
        ensures
            final(self).wf(),
            final(self).len() == old(self).len(),
            final(self).root == old(self).root,
            final(self).root_decomposed == old(self).root_decomposed,
            forall|i: int| 0 <= i < old(self).len() && i != target@ ==> #[trigger] final(self).nodes@[i].node_type == old(self).nodes@[i].node_type,
            old(self).is_element_at(target) ==> (final(self).type_of(target) matches NodeType::Element(e) && e.local_name@.len() == 0 && e.attrs@.len() == 0 && e.namespace is None),
            !old(self).is_element_at(target) ==> final(self).type_of(target) == old(self).type_of(target),
            final(self).children(target) == Seq::<NodeId>::empty(),
            final(self).parent_of(target) is None,
            forall|x: NodeId| old(self).valid(x) && x != target ==> #[trigger] final(self).children(x) == remove_value(old(self).children(x), target),
            forall|x: NodeId| old(self).valid(x) && x != target ==> #[trigger] final(self).parent_of(x) == (if old(self).parent_of(x) == Some(target) { None } else { old(self).parent_of(x) }),
    {
        self.clear_children(target);
        self.detach(target);
        let ghost mid = *self;
        if self.is_element(target) {
            let data = ElementData { local_name: String::new(), attrs: Vec::new(), namespace: None };
            self.replace_node_type(target, NodeType::Element(data));
            proof {
                assert forall|x: NodeId| mid.valid(x) implies #[trigger] self.parent_of(x) == mid.parent_of(x) by {
                    assert(self.nodes@[x@ as int].parent == mid.nodes@[x@ as int].parent);
                }
            }
        }
    }
}

} // verus!
