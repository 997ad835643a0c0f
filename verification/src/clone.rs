use vstd::prelude::*;
use crate::attrs::copy_attr;
use crate::dom::{
    group_node_id, remove_value, Attr, DoctypeData, Document, ElementData, NodeId, NodeType,
    ProcessingInstructionData,
};

verus! {

/// Whether `a` and `b` are the same kind of node with the same data (an element's attributes
/// compared as sequences).
pub open spec fn same_node_type(a: NodeType, b: NodeType) -> bool {
    match a {
        NodeType::Element(x) => b matches NodeType::Element(y) && x.local_name == y.local_name
            && x.attrs@ == y.attrs@ && x.namespace == y.namespace,
        _ => a == b,
    }
}

/// Whether `c` is a child of `x` one level below it in `a` (always so in a well-formed
/// document).
pub open spec fn below(a: Document, x: NodeId, c: NodeId) -> bool {
    a.depth@[x@ as int] < a.depth@[c@ as int] < a.bound@
}

/// Whether the subtree of `y` in `b` is a copy of the subtree of `x` in `a`: the same kinds of
/// nodes with the same data, the same number of children, and each child's subtree a copy.
pub open spec fn mirrors(a: Document, x: NodeId, b: Document, y: NodeId) -> bool
    decreases a.bound@ - a.depth@[x@ as int], 1int, 0int,
{
    &&& same_node_type(b.type_of(y), a.type_of(x))
    &&& b.children(y).len() == a.children(x).len()
    &&& mirrors_from(a, x, b, y, 0)
}

/// Whether the subtrees of the children of `y` from the `i`-th on copy those of `x`.
pub open spec fn mirrors_from(a: Document, x: NodeId, b: Document, y: NodeId, i: int) -> bool
    decreases a.bound@ - a.depth@[x@ as int], 0int, a.children(x).len() - i,
{
    if i < 0 || i >= a.children(x).len() {
        true
    } else {
        &&& (below(a, x, a.children(x)[i]) ==> mirrors(a, a.children(x)[i], b, b.children(y)[i]))
        &&& mirrors_from(a, x, b, y, i + 1)
    }
}

/// Whether every node of the copy `y` of `x` (see `mirrors`) has its index in `[lo, hi)`.
pub open spec fn image_within(a: Document, x: NodeId, b: Document, y: NodeId, lo: int, hi: int) -> bool
    decreases a.bound@ - a.depth@[x@ as int], 1int, 0int,
{
    &&& lo <= y@ < hi
    &&& image_from(a, x, b, y, lo, hi, 0)
}

/// Whether the copies of the children of `x` from the `i`-th on have their nodes in `[lo, hi)`.
pub open spec fn image_from(a: Document, x: NodeId, b: Document, y: NodeId, lo: int, hi: int, i: int) -> bool
    decreases a.bound@ - a.depth@[x@ as int], 0int, a.children(x).len() - i,
{
    if i < 0 || i >= a.children(x).len() {
        true
    } else {
        &&& (below(a, x, a.children(x)[i]) ==> image_within(a, a.children(x)[i], b, b.children(y)[i], lo, hi))
        &&& image_from(a, x, b, y, lo, hi, i + 1)
    }
}

proof fn lemma_mirrors_from(a: Document, x: NodeId, b: Document, y: NodeId, i: int)
    requires
        0 <= i <= a.children(x).len(),
    ensures
        mirrors_from(a, x, b, y, i) == forall|k: int| i <= k < a.children(x).len() && below(a, x, a.children(x)[k])
            ==> #[trigger] mirrors(a, a.children(x)[k], b, b.children(y)[k]),
    decreases a.children(x).len() - i,
{
    if i < a.children(x).len() {
        lemma_mirrors_from(a, x, b, y, i + 1);
        let c = a.children(x)[i];
        let d = b.children(y)[i];
        assert(mirrors_from(a, x, b, y, i) == ((below(a, x, c) ==> mirrors(a, c, b, d)) && mirrors_from(a, x, b, y, i + 1)));
        if forall|k: int| i <= k < a.children(x).len() && below(a, x, a.children(x)[k])
            ==> #[trigger] mirrors(a, a.children(x)[k], b, b.children(y)[k]) {
            assert(below(a, x, c) ==> mirrors(a, c, b, d));
        }
        if mirrors_from(a, x, b, y, i) {
            assert forall|k: int| i <= k < a.children(x).len() && below(a, x, a.children(x)[k])
                implies #[trigger] mirrors(a, a.children(x)[k], b, b.children(y)[k]) by {
                if k > i {
                }
            }
        }
    }
}

proof fn lemma_image_from(a: Document, x: NodeId, b: Document, y: NodeId, lo: int, hi: int, i: int)
    requires
        0 <= i <= a.children(x).len(),
    ensures
        image_from(a, x, b, y, lo, hi, i) == forall|k: int| i <= k < a.children(x).len() && below(a, x, a.children(x)[k])
            ==> #[trigger] image_within(a, a.children(x)[k], b, b.children(y)[k], lo, hi),
    decreases a.children(x).len() - i,
{
    if i < a.children(x).len() {
        lemma_image_from(a, x, b, y, lo, hi, i + 1);
        let c = a.children(x)[i];
        let d = b.children(y)[i];
        assert(image_from(a, x, b, y, lo, hi, i) == ((below(a, x, c) ==> image_within(a, c, b, d, lo, hi)) && image_from(a, x, b, y, lo, hi, i + 1)));
        if forall|k: int| i <= k < a.children(x).len() && below(a, x, a.children(x)[k])
            ==> #[trigger] image_within(a, a.children(x)[k], b, b.children(y)[k], lo, hi) {
            assert(below(a, x, c) ==> image_within(a, c, b, d, lo, hi));
        }
        if image_from(a, x, b, y, lo, hi, i) {
            assert forall|k: int| i <= k < a.children(x).len() && below(a, x, a.children(x)[k])
                implies #[trigger] image_within(a, a.children(x)[k], b, b.children(y)[k], lo, hi) by {
                if k > i {
                }
            }
        }
    }
}

/// `mirrors`, with its children spelled out.
pub proof fn lemma_mirrors_unfold(a: Document, x: NodeId, b: Document, y: NodeId)
    ensures
        mirrors(a, x, b, y) == {
            &&& same_node_type(b.type_of(y), a.type_of(x))
            &&& b.children(y).len() == a.children(x).len()
            &&& forall|k: int| 0 <= k < a.children(x).len() && below(a, x, a.children(x)[k])
                ==> #[trigger] mirrors(a, a.children(x)[k], b, b.children(y)[k])
        },
{
    lemma_mirrors_from(a, x, b, y, 0);
}

/// `image_within`, with its children spelled out.
pub proof fn lemma_image_unfold(a: Document, x: NodeId, b: Document, y: NodeId, lo: int, hi: int)
    ensures
        image_within(a, x, b, y, lo, hi) == {
            &&& lo <= y@ < hi
            &&& forall|k: int| 0 <= k < a.children(x).len() && below(a, x, a.children(x)[k])
                ==> #[trigger] image_within(a, a.children(x)[k], b, b.children(y)[k], lo, hi)
        },
{
    lemma_image_from(a, x, b, y, lo, hi, 0);
}

/// A copy stays a copy when nothing changes the kinds and children of the nodes it is made of.
proof fn lemma_mirror_frame(a: Document, x: NodeId, b: Document, b2: Document, y: NodeId, lo: int, hi: int)
    requires
        mirrors(a, x, b, y),
        image_within(a, x, b, y, lo, hi),
        forall|z: NodeId| lo <= z@ < hi ==> #[trigger] b2.type_of(z) == b.type_of(z) && b2.children(z) == b.children(z),
    ensures
        mirrors(a, x, b2, y),
        image_within(a, x, b2, y, lo, hi),
    decreases a.bound@ - a.depth@[x@ as int],
{
    lemma_mirrors_unfold(a, x, b, y);
    lemma_mirrors_unfold(a, x, b2, y);
    lemma_image_unfold(a, x, b, y, lo, hi);
    lemma_image_unfold(a, x, b2, y, lo, hi);
    assert(b2.type_of(y) == b.type_of(y));
    assert(b2.children(y) == b.children(y));
    assert(lo <= y@ < hi);
    assert forall|k: int| 0 <= k < a.children(x).len() && below(a, x, a.children(x)[k]) implies
        #[trigger] mirrors(a, a.children(x)[k], b2, b2.children(y)[k]) by {
        assert(mirrors(a, a.children(x)[k], b, b.children(y)[k]));
        assert(image_within(a, a.children(x)[k], b, b.children(y)[k], lo, hi));
        lemma_mirror_frame(a, a.children(x)[k], b, b2, b.children(y)[k], lo, hi);
    }
    assert forall|k: int| 0 <= k < a.children(x).len() && below(a, x, a.children(x)[k]) implies
        #[trigger] image_within(a, a.children(x)[k], b2, b2.children(y)[k], lo, hi) by {
        assert(mirrors(a, a.children(x)[k], b, b.children(y)[k]));
        assert(image_within(a, a.children(x)[k], b, b.children(y)[k], lo, hi));
        lemma_mirror_frame(a, a.children(x)[k], b, b2, b.children(y)[k], lo, hi);
    }
}

fn copy_string(s: &String) -> (r: String)
    ensures
        r == *s,
{
    s.clone()
}

fn copy_optional_string(s: &Option<String>) -> (r: Option<String>)
    ensures
        r == *s,
{
    match s {
        Some(v) => Some(v.clone()),
        None => None,
    }
}

/// A copy of what a node is.
pub fn copy_node_type(t: &NodeType) -> (r: NodeType)
    ensures
        same_node_type(r, *t),
{
    match t {
        NodeType::Document => NodeType::Document,
        NodeType::Element(e) => {
            let mut attrs: Vec<Attr> = Vec::new();
            let mut i: usize = 0;
            while i < e.attrs.len()
                invariant
                    i <= e.attrs@.len(),
                    attrs@ == e.attrs@.take(i as int),
                decreases e.attrs@.len() - i,
            {
                attrs.push(copy_attr(&e.attrs[i]));
                proof {
                    assert(attrs@ =~= e.attrs@.take(i + 1));
                }
                i += 1;
            }
            proof {
                assert(attrs@ =~= e.attrs@);
            }
            NodeType::Element(ElementData {
                local_name: copy_string(&e.local_name),
                attrs,
                namespace: copy_optional_string(&e.namespace),
            })
        },
        NodeType::Text(s) => NodeType::Text(copy_string(s)),
        NodeType::CData(s) => NodeType::CData(copy_string(s)),
        NodeType::Declaration(s) => NodeType::Declaration(copy_string(s)),
        NodeType::TemplateString(s) => NodeType::TemplateString(copy_string(s)),
        NodeType::Comment(s) => NodeType::Comment(copy_string(s)),
        NodeType::Doctype(d) => NodeType::Doctype(Box::new(DoctypeData {
            name: copy_string(&d.name),
            public_id: copy_string(&d.public_id),
            system_id: copy_string(&d.system_id),
        })),
        NodeType::ProcessingInstruction(p) => NodeType::ProcessingInstruction(Box::new(ProcessingInstructionData {
            target: copy_string(&p.target),
            data: copy_string(&p.data),
        })),
    }
}

impl Document {
    /// Copies the subtree of `source_id` in `source` into this document, outside its tree;
    /// hands back the copy of `source_id`.
    pub fn clone_detached_from(&mut self, source: &Document, source_id: NodeId) -> (id: NodeId)
        requires
            old(self).wf(),
            source.wf(),
            source.valid(source_id),
            old(self).len() + source.subtree_nodes(source_id).len() < u32::MAX,
        ensures
            final(self).wf(),
            id@ == old(self).len(),
            final(self).len() == old(self).len() + source.subtree_nodes(source_id).len(),
            final(self).root == old(self).root,
            final(self).root_decomposed == old(self).root_decomposed,
            final(self).parent_of(id) is None,
            mirrors(*source, source_id, *final(self), id),
            image_within(*source, source_id, *final(self), id, old(self).len() as int, final(self).len() as int),
            forall|z: NodeId| old(self).valid(z) ==> #[trigger] final(self).children(z) == old(self).children(z),
            forall|z: NodeId| old(self).valid(z) ==> #[trigger] final(self).type_of(z) == old(self).type_of(z),
            forall|z: NodeId| old(self).valid(z) ==> #[trigger] final(self).parent_of(z) == old(self).parent_of(z),
        decreases source.bound@ - source.depth@[source_id@ as int],
    {
        broadcast use group_node_id;
        let ghost start = *self;
        proof {
            source.lemma_subtree_size(source_id);
            source.lemma_children(source_id);
        }
        let id = self.add_fresh(copy_node_type(&source.nodes[source_id.index()].node_type));
        let kids = source.child_nodes(source_id);
        let ghost lo: int = start.len() as int;
        let ghost mut cloned: Seq<NodeId> = Seq::empty();
        let mut i: usize = 0;
        while i < kids.len()
            invariant
                source.wf(),
                source.valid(source_id),
                kids@ == source.children(source_id),
                forall|j: int| 0 <= j < kids@.len() ==> source.valid(#[trigger] kids@[j]),
                forall|j: int| 0 <= j < kids@.len() ==> {
                    &&& source.depth@[source_id@ as int] < #[trigger] source.depth@[kids@[j]@ as int]
                    &&& source.depth@[kids@[j]@ as int] < source.bound@
                },
                forall|j: int| 0 <= j <= kids@.len() ==> #[trigger] source.forest_size(kids@, j) >= 0,
                source.subtree_nodes(source_id).len() == 1 + source.forest_size(kids@, 0),
                forall|j: int| 0 <= j < kids@.len() ==> #[trigger] source.subtree_nodes(kids@[j]).len() >= 1,
                source.forest_size(kids@, i as int) <= source.forest_size(kids@, 0),
                start.len() + source.subtree_nodes(source_id).len() < u32::MAX,
                lo == start.len(),
                id@ == lo,
                i <= kids@.len(),
                self.wf(),
                self.len() == lo + 1 + source.forest_size(kids@, 0) - source.forest_size(kids@, i as int),
                self.root == start.root,
                self.root_decomposed == start.root_decomposed,
                self.parent_of(id) is None,
                same_node_type(self.type_of(id), source.type_of(source_id)),
                self.children(id) == cloned,
                cloned.len() == i,
                forall|j: int| 0 <= j < i ==> #[trigger] mirrors(*source, kids@[j], *self, cloned[j]),
                forall|j: int| 0 <= j < i ==> #[trigger] image_within(*source, kids@[j], *self, cloned[j], lo + 1, self.len() as int),
                forall|z: NodeId| start.valid(z) ==> #[trigger] self.children(z) == start.children(z),
                forall|z: NodeId| start.valid(z) ==> #[trigger] self.type_of(z) == start.type_of(z),
                forall|z: NodeId| start.valid(z) ==> #[trigger] self.parent_of(z) == start.parent_of(z),
            decreases kids@.len() - i,
        {
            let ghost before = *self;
            proof {
                source.lemma_subtree_size(kids@[i as int]);
                assert(source.forest_size(kids@, i as int) == source.subtree_nodes(kids@[i as int]).len() + source.forest_size(kids@, i + 1));
                assert(source.subtree_nodes(kids@[i as int]).len() >= 1);
            }
            let c = self.clone_detached_from(source, kids[i]);
            let ghost after_clone = *self;
            proof {
                assert(before.valid(id));
                assert(self.children(id) == before.children(id));
                self.lemma_parentless_in_subtree(id, c);
                self.lemma_fresh_not_held(c);
                assert forall|z: NodeId| lo + 1 <= z@ < before.len() implies #[trigger] after_clone.type_of(z) == before.type_of(z)
                    && after_clone.children(z) == before.children(z) by {
                    assert(before.valid(z));
                    assert(after_clone.children(z) == before.children(z));
                }
            }
            self.append_existing(id, c);
            proof {
                let mid_hi = after_clone.len() as int;
                let old_cloned = cloned;
                cloned = cloned.push(c);
                assert forall|z: NodeId| lo + 1 <= z@ < mid_hi implies #[trigger] self.type_of(z) == after_clone.type_of(z)
                    && self.children(z) == after_clone.children(z) by {
                    assert(z != id);
                    assert(after_clone.valid(z));
                }
                assert forall|j: int|
                    #![trigger mirrors(*source, kids@[j], *self, cloned[j])]
                    #![trigger image_within(*source, kids@[j], *self, cloned[j], lo + 1, self.len() as int)]
                    0 <= j < i + 1 implies mirrors(*source, kids@[j], *self, cloned[j])
                    && image_within(*source, kids@[j], *self, cloned[j], lo + 1, self.len() as int) by {
                    if j < i {
                        assert(cloned[j] == old_cloned[j]);
                        assert(mirrors(*source, kids@[j], before, old_cloned[j]));
                        assert(image_within(*source, kids@[j], before, old_cloned[j], lo + 1, before.len() as int));
                        lemma_mirror_frame(*source, kids@[j], before, after_clone, cloned[j], lo + 1, before.len() as int);
                        lemma_image_widen(*source, kids@[j], after_clone, cloned[j], lo + 1, before.len() as int, mid_hi);
                        lemma_mirror_frame(*source, kids@[j], after_clone, *self, cloned[j], lo + 1, mid_hi);
                        lemma_image_widen(*source, kids@[j], *self, cloned[j], lo + 1, mid_hi, self.len() as int);
                    } else {
                        assert(cloned[j] == c);
                        lemma_image_lower(*source, kids@[i as int], after_clone, c, lo + 1, before.len() as int, mid_hi);
                        lemma_mirror_frame(*source, kids@[i as int], after_clone, *self, c, lo + 1, mid_hi);
                        lemma_image_widen(*source, kids@[i as int], *self, c, lo + 1, mid_hi, self.len() as int);
                    }
                }
                assert(remove_value(before.children(id), c) == before.children(id));
                assert forall|z: NodeId| start.valid(z) implies #[trigger] self.children(z) == start.children(z) by {
                    assert(z != id);
                    assert(z != c);
                    assert(before.valid(z));
                    assert(after_clone.children(z) == before.children(z));
                }
                assert forall|z: NodeId| start.valid(z) implies #[trigger] self.type_of(z) == start.type_of(z) by {
                    assert(before.valid(z));
                    assert(after_clone.type_of(z) == before.type_of(z));
                }
                assert forall|z: NodeId| start.valid(z) implies #[trigger] self.parent_of(z) == start.parent_of(z) by {
                    assert(z != c);
                    assert(before.valid(z));
                    assert(after_clone.parent_of(z) == before.parent_of(z));
                }
            }
            i += 1;
        }
        proof {
            lemma_mirrors_unfold(*source, source_id, *self, id);
            lemma_image_unfold(*source, source_id, *self, id, lo, self.len() as int);
            assert forall|k: int|
                #![trigger mirrors(*source, source.children(source_id)[k], *self, self.children(id)[k])]
                #![trigger image_within(*source, source.children(source_id)[k], *self, self.children(id)[k], lo, self.len() as int)]
                0 <= k < source.children(source_id).len() && below(*source, source_id, source.children(source_id)[k]) implies
                mirrors(*source, source.children(source_id)[k], *self, self.children(id)[k])
                && image_within(*source, source.children(source_id)[k], *self, self.children(id)[k], lo, self.len() as int) by {
                assert(mirrors(*source, kids@[k], *self, cloned[k]));
                assert(image_within(*source, kids@[k], *self, cloned[k], lo + 1, self.len() as int));
                lemma_image_lower(*source, kids@[k], *self, cloned[k], lo, lo + 1, self.len() as int);
            }
        }
        id
    }

    /// Adds a copy of the subtree of `source_id` in `source` as the last child of `parent`.
    pub fn append_clone_from(&mut self, parent: NodeId, source: &Document, source_id: NodeId) -> (id: NodeId)
        requires
            old(self).wf(),
            old(self).valid(parent),
            source.wf(),
            source.valid(source_id),
            old(self).len() + source.subtree_nodes(source_id).len() < u32::MAX,
        ensures
            final(self).wf(),
            id@ == old(self).len(),
            final(self).len() == old(self).len() + source.subtree_nodes(source_id).len(),
            final(self).parent_of(id) == Some(parent),
            final(self).children(parent) == old(self).children(parent).push(id),
            mirrors(*source, source_id, *final(self), id),
    {
        let ghost start = *self;
        let id = self.clone_detached_from(source, source_id);
        let ghost mid = *self;
        proof {
            broadcast use group_node_id;
            assert(mid.children(parent) == start.children(parent));
            self.lemma_old_not_below_new(start, parent, id);
            assert(parent != id);
            self.lemma_fresh_not_held(id);
        }
        self.append_existing(parent, id);
        proof {
            lemma_frame_after_link(*source, source_id, mid, *self, id, start.len() as int, mid.len() as int);
        }
        id
    }

    /// Puts a copy of the subtree of `source_id` in `source` among the children of `parent` at
    /// `index` (at the end when `index` is past them).
    pub fn insert_clone_from(&mut self, parent: NodeId, index: usize, source: &Document, source_id: NodeId) -> (id: NodeId)
        requires
            old(self).wf(),
            old(self).valid(parent),
            source.wf(),
            source.valid(source_id),
            old(self).len() + source.subtree_nodes(source_id).len() < u32::MAX,
        ensures
            final(self).wf(),
            id@ == old(self).len(),
            final(self).parent_of(id) == Some(parent),
            ({
                let c = old(self).children(parent);
                final(self).children(parent) == if index < c.len() { c.insert(index as int, id) } else { c.push(id) }
            }),
            mirrors(*source, source_id, *final(self), id),
    {
        let ghost start = *self;
        let id = self.clone_detached_from(source, source_id);
        let ghost mid = *self;
        proof {
            broadcast use group_node_id;
            assert(mid.children(parent) == start.children(parent));
            self.lemma_old_not_below_new(start, parent, id);
            assert(parent != id);
            self.lemma_fresh_not_held(id);
            self.lemma_children(parent);
            let c = self.children(parent);
            if index < c.len() {
                assert(c.contains(c[index as int]));
            }
        }
        self.insert_existing(parent, index, id);
        proof {
            let c = mid.children(parent);
            assert(remove_value(c, id) == c);
            if index < c.len() {
                mid.lemma_children(parent);
                assert(c.index_of(c[index as int]) == index) by {
                    Document::lemma_index_of_unique(c, index as int);
                }
            }
            lemma_frame_after_link(*source, source_id, mid, *self, id, start.len() as int, mid.len() as int);
        }
        id
    }

    /// Puts a copy of the subtree of `source_id` in `source` just before `sibling`.
    pub fn insert_clone_before_from(&mut self, sibling: NodeId, source: &Document, source_id: NodeId) -> (id: NodeId)
        requires
            old(self).wf(),
            old(self).valid(sibling),
            old(self).parent_of(sibling) is Some,
            source.wf(),
            source.valid(source_id),
            old(self).len() + source.subtree_nodes(source_id).len() < u32::MAX,
        ensures
            final(self).wf(),
            id@ == old(self).len(),
            final(self).parent_of(id) == old(self).parent_of(sibling),
            ({
                let p = old(self).parent_of(sibling).unwrap();
                let c = old(self).children(p);
                final(self).children(p) == c.insert(c.index_of(sibling), id)
            }),
            mirrors(*source, source_id, *final(self), id),
    {
        let ghost start = *self;
        proof {
            self.lemma_wf_parent(sibling);
        }
        let id = self.clone_detached_from(source, source_id);
        let ghost mid = *self;
        proof {
            let p = mid.parent_of(sibling).unwrap();
            broadcast use group_node_id;
            assert(mid.children(sibling) == start.children(sibling));
            start.lemma_wf_parent(sibling);
            assert(mid.children(p) == start.children(p));
            self.lemma_old_not_below_new(start, p, id);
            assert(p != id);
            assert(sibling != id);
            self.lemma_fresh_not_held(id);
        }
        self.insert_before_existing(sibling, id);
        proof {
            let p = mid.parent_of(sibling).unwrap();
            assert(remove_value(mid.children(p), id) == mid.children(p));
            lemma_frame_after_link(*source, source_id, mid, *self, id, start.len() as int, mid.len() as int);
        }
        id
    }

    /// Puts a copy of the subtree of `source_id` in `source` just after `sibling`.
    pub fn insert_clone_after_from(&mut self, sibling: NodeId, source: &Document, source_id: NodeId) -> (id: NodeId)
        requires
            old(self).wf(),
            old(self).valid(sibling),
            old(self).parent_of(sibling) is Some,
            source.wf(),
            source.valid(source_id),
            old(self).len() + source.subtree_nodes(source_id).len() < u32::MAX,
        ensures
            final(self).wf(),
            id@ == old(self).len(),
            final(self).parent_of(id) == old(self).parent_of(sibling),
            ({
                let p = old(self).parent_of(sibling).unwrap();
                let c = old(self).children(p);
                final(self).children(p) == c.insert(c.index_of(sibling) + 1, id)
            }),
            mirrors(*source, source_id, *final(self), id),
    {
        let ghost start = *self;
        proof {
            self.lemma_wf_parent(sibling);
        }
        let id = self.clone_detached_from(source, source_id);
        let ghost mid = *self;
        proof {
            let p = mid.parent_of(sibling).unwrap();
            broadcast use group_node_id;
            assert(mid.children(sibling) == start.children(sibling));
            start.lemma_wf_parent(sibling);
            assert(mid.children(p) == start.children(p));
            self.lemma_old_not_below_new(start, p, id);
            assert(p != id);
            assert(sibling != id);
            self.lemma_fresh_not_held(id);
        }
        self.insert_after_existing(sibling, id);
        proof {
            let p = mid.parent_of(sibling).unwrap();
            assert(remove_value(mid.children(p), id) == mid.children(p));
            lemma_frame_after_link(*source, source_id, mid, *self, id, start.len() as int, mid.len() as int);
        }
        id
    }

    /// Wraps `target` in a copy of the subtree of `wrapper_id` in `source`: the copy takes
    /// `target`'s place, and `target` becomes its last child.
    pub fn wrap_with_clone_from(&mut self, target: NodeId, source: &Document, wrapper_id: NodeId) -> (id: NodeId)
        requires
            old(self).wf(),
            old(self).valid(target),
            old(self).parent_of(target) is Some,
            source.wf(),
            source.valid(wrapper_id),
            old(self).len() + source.subtree_nodes(wrapper_id).len() < u32::MAX,
        ensures
            final(self).wf(),
            id@ == old(self).len(),
            final(self).parent_of(id) == old(self).parent_of(target),
            final(self).parent_of(target) == Some(id),
            final(self).children(id).last() == target,
            final(self).children(id).len() == source.children(wrapper_id).len() + 1,
            same_node_type(final(self).type_of(id), source.type_of(wrapper_id)),
            ({
                let p = old(self).parent_of(target).unwrap();
                let c = old(self).children(p);
                final(self).children(p) == c.update(c.index_of(target), id)
            }),
    {
        let ghost start = *self;
        proof {
            self.lemma_wf_parent(target);
        }
        let id = self.clone_detached_from(source, wrapper_id);
        let ghost mid = *self;
        let ghost p = mid.parent_of(target).unwrap();
        proof {
            broadcast use group_node_id;
            assert(mid.children(target) == start.children(target));
            start.lemma_wf_parent(target);
            assert(mid.children(p) == start.children(p));
            self.lemma_old_not_below_new(start, p, id);
            assert(p != id);
            assert(target != id);
            self.lemma_fresh_not_held(id);
        }
        self.insert_before_existing(target, id);
        let ghost mid2 = *self;
        proof {
            broadcast use group_node_id;
            assert(remove_value(mid.children(p), id) == mid.children(p));
            mid.lemma_children(p);
            mid2.lemma_children(p);
            let c = mid.children(p);
            let k = c.index_of(target);
            assert(mid2.children(p) == c.insert(k, id));
            assert(mid2.children(id) == mid.children(id));
            assert(!mid2.in_subtree(id, target)) by {
                if mid2.in_subtree(id, target) {
                    mid2.lemma_wf_parent(id);
                    mid2.lemma_wf_parent(target);
                    assert(mid2.parent_of(id) == Some(p));
                    assert(mid2.in_subtree(p, target)) by {
                        mid2.lemma_in_subtree_step(id, target);
                    }
                    mid2.lemma_parent_not_below(p, target);
                    assert(false);
                }
            }
        }
        self.append_existing(id, target);
        proof {
            broadcast use group_node_id;
            let c = mid.children(p);
            let k = c.index_of(target);
            mid.lemma_children(p);
            assert(c.insert(k, id).index_of(target) == k + 1) by {
                let d = c.insert(k, id);
                assert(d[k + 1] == target);
                assert(d.no_duplicates()) by {
                    mid2.lemma_children(p);
                }
                Document::lemma_index_of_unique(d, k + 1);
            }
            assert(remove_value(c.insert(k, id), target) =~= c.update(k, id)) by {
                let d = c.insert(k, id);
                assert(d.contains(target));
                assert(d.remove(k + 1) =~= c.update(k, id));
            }
            assert(remove_value(mid2.children(id), target) == mid2.children(id)) by {
                mid2.lemma_children(id);
                if mid2.children(id).contains(target) {
                    assert(mid2.parent_of(target) == Some(id));
                }
            }
        }
        id
    }
}

/// A copy that only gained a parent is still a copy.
proof fn lemma_frame_after_link(a: Document, x: NodeId, mid: Document, fin: Document, y: NodeId, lo: int, hi: int)
    requires
        mirrors(a, x, mid, y),
        image_within(a, x, mid, y, lo, hi),
        mid.wf(),
        hi == mid.len(),
        forall|z: NodeId| lo <= z@ < hi && mid.valid(z) ==> #[trigger] fin.type_of(z) == mid.type_of(z),
        forall|z: NodeId| lo <= z@ < hi && mid.valid(z) && z != y ==> #[trigger] fin.children(z) == mid.children(z),
        fin.children(y) == mid.children(y),
        fin.len() == mid.len(),
    ensures
        mirrors(a, x, fin, y),
{
    broadcast use group_node_id;
    assert forall|z: NodeId| lo <= z@ < hi implies #[trigger] fin.type_of(z) == mid.type_of(z) && fin.children(z) == mid.children(z) by {
        assert(mid.valid(z));
    }
    lemma_mirror_frame(a, x, mid, fin, y, lo, hi);
}

/// What lies in `[lo, mid)` lies in `[lo, hi)` for `mid <= hi`.
proof fn lemma_image_widen(a: Document, x: NodeId, b: Document, y: NodeId, lo: int, mid: int, hi: int)
    requires
        image_within(a, x, b, y, lo, mid),
        mid <= hi,
    ensures
        image_within(a, x, b, y, lo, hi),
    decreases a.bound@ - a.depth@[x@ as int],
{
    lemma_image_unfold(a, x, b, y, lo, mid);
    lemma_image_unfold(a, x, b, y, lo, hi);
    assert forall|k: int| 0 <= k < a.children(x).len() && below(a, x, a.children(x)[k]) implies
        #[trigger] image_within(a, a.children(x)[k], b, b.children(y)[k], lo, hi) by {
        assert(image_within(a, a.children(x)[k], b, b.children(y)[k], lo, mid));
        lemma_image_widen(a, a.children(x)[k], b, b.children(y)[k], lo, mid, hi);
    }
}

/// What lies in `[mid, hi)` lies in `[lo, hi)` for `lo <= mid`.
proof fn lemma_image_lower(a: Document, x: NodeId, b: Document, y: NodeId, lo: int, mid: int, hi: int)
    requires
        image_within(a, x, b, y, mid, hi),
        lo <= mid,
    ensures
        image_within(a, x, b, y, lo, hi),
    decreases a.bound@ - a.depth@[x@ as int],
{
    lemma_image_unfold(a, x, b, y, mid, hi);
    lemma_image_unfold(a, x, b, y, lo, hi);
    assert forall|k: int| 0 <= k < a.children(x).len() && below(a, x, a.children(x)[k]) implies
        #[trigger] image_within(a, a.children(x)[k], b, b.children(y)[k], lo, hi) by {
        assert(image_within(a, a.children(x)[k], b, b.children(y)[k], mid, hi));
        lemma_image_lower(a, a.children(x)[k], b, b.children(y)[k], lo, mid, hi);
    }
}


/// Whether text at `x` would be written raw: its parent is a raw text element.
pub open spec fn raw_parent(a: Document, x: NodeId) -> bool {
    a.parent_of(x) matches Some(p) && a.is_raw_text_at(p)
}

proof fn lemma_mirror_forest_chunks(a: Document, x: NodeId, b: Document, y: NodeId, i: int, encoding: Seq<char>, doctype_newline: bool)
    requires
        a.wf(),
        b.wf(),
        a.valid(x),
        b.valid(y),
        same_node_type(b.type_of(y), a.type_of(x)),
        b.children(y).len() == a.children(x).len(),
        mirrors_from(a, x, b, y, i),
        0 <= i,
    ensures
        b.forest_chunks(b.children(y), i, b.depth@[y@ as int] as int, encoding, doctype_newline)
            == a.forest_chunks(a.children(x), i, a.depth@[x@ as int] as int, encoding, doctype_newline),
    decreases a.bound@ - a.depth@[x@ as int], 0int, a.children(x).len() - i,
{
    if i < a.children(x).len() {
        a.lemma_wf_child(x, i);
        b.lemma_wf_child(y, i);
        let c = a.children(x)[i];
        let e = b.children(y)[i];
        assert(mirrors(a, c, b, e));
        assert(raw_parent(a, c) == raw_parent(b, e));
        lemma_copy_writes_out_as_source(a, c, b, e, encoding);
        lemma_mirror_forest_chunks(a, x, b, y, i + 1, encoding, doctype_newline);
    }
}

/// A copy writes out as its source: where the subtree of `y` in `b` copies that of `x` in `a`
/// (what `clone_detached_from` gives), the two have the same chunks, so the same markup by
/// `outer_html`, unless `x` is text whose parent is a raw text element (`script`, `style`, ...)
/// and `y` is not, since such text is written unescaped.
pub proof fn lemma_copy_writes_out_as_source(a: Document, x: NodeId, b: Document, y: NodeId, encoding: Seq<char>)
    requires
        a.wf(),
        b.wf(),
        a.valid(x),
        b.valid(y),
        mirrors(a, x, b, y),
        a.type_of(x) is Text ==> raw_parent(a, x) == raw_parent(b, y),
    ensures
        b.node_chunks(y, encoding) == a.node_chunks(x, encoding),
    decreases a.bound@ - a.depth@[x@ as int], 1int,
{
    a.lemma_wf_basic();
    b.lemma_wf_basic();
    lemma_mirror_forest_chunks(a, x, b, y, 0, encoding, true);
    lemma_mirror_forest_chunks(a, x, b, y, 0, encoding, false);
}


} // verus!
