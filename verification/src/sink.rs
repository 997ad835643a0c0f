use vstd::prelude::*;
use crate::dom::{group_node_id, last_of, remove_value, Attr, Document, NodeId, NodeType};
use crate::parse::{
    append_normalized_text, appended_text, is_preserve_whitespace_name, is_preserve_whitespace_tag,
    normalize_text_value, normalized_text,
};
use crate::attrs::copy_attr;
use crate::text::str_eq;

verus! {

/// Whether `x` is an element whose text keeps its white space.
pub open spec fn keeps_white_space_at(d: Document, x: NodeId) -> bool {
    d.type_of(x) matches NodeType::Element(e) && is_preserve_whitespace_name(e.local_name@)
}

/// Whether text put in `x` keeps its white space: `x` or one of its ancestors is such an
/// element.
pub open spec fn preserves_white_space(d: Document, x: NodeId) -> bool {
    keeps_white_space_at(d, x) || exists|k: int| 0 <= k < d.ancestors(x).len() && keeps_white_space_at(d, #[trigger] d.ancestors(x)[k])
}

/// The text of node `x`, if it is a text node.
pub open spec fn text_of(d: Document, x: NodeId) -> Option<Seq<char>> {
    match d.type_of(x) {
        NodeType::Text(s) => Some(s@),
        _ => None,
    }
}

/// The attributes of `extra` whose names no attribute of `existing` has, in order.
pub open spec fn missing_attrs(existing: Seq<Attr>, extra: Seq<Attr>) -> Seq<Attr>
    decreases extra.len(),
{
    if extra.len() == 0 {
        Seq::empty()
    } else {
        let rest = missing_attrs(existing, extra.drop_last());
        if exists|i: int| 0 <= i < existing.len() && (#[trigger] existing[i]).name@ == extra.last().name@ {
            rest
        } else {
            rest.push(extra.last())
        }
    }
}

/// Walking the ancestors `a` of a node from `k` on, whether `top` comes before any raw text
/// element (`top` itself must not be one).
pub open spec fn raw_free_walk(d: Document, a: Seq<NodeId>, k: int, top: NodeId) -> bool
    decreases a.len() - k,
{
    if k < 0 || k >= a.len() {
        false
    } else if d.is_raw_text_at(a[k]) {
        false
    } else if a[k] == top {
        true
    } else {
        raw_free_walk(d, a, k + 1, top)
    }
}

/// Whether node `y` is text that marking from `top` turns into a template string: no raw text
/// element stands on the way from `top` down to it.
pub open spec fn marked_below(d: Document, top: NodeId, y: NodeId) -> bool {
    d.type_of(y) is Text && (y == top || raw_free_walk(d, d.ancestors(y), 0, top))
}

/// What node `x` becomes when the text below `top` is marked as template strings.
pub open spec fn marked_from(d: Document, top: NodeId, x: NodeId) -> NodeType {
    match d.type_of(x) {
        NodeType::Text(t) => if d.subtree_nodes(top).contains(x) && marked_below(d, top, x) {
            NodeType::TemplateString(t)
        } else {
            NodeType::Text(t)
        },
        other => other,
    }
}

/// What node `x` becomes when the text of the subtree of each of `tops` is marked as template
/// strings from that top.
pub open spec fn marked_in(d: Document, tops: Seq<NodeId>, x: NodeId) -> NodeType {
    match d.type_of(x) {
        NodeType::Text(t) => if exists|j: int| 0 <= j < tops.len() && #[trigger] d.subtree_nodes(tops[j]).contains(x) && marked_below(d, tops[j], x) {
            NodeType::TemplateString(t)
        } else {
            NodeType::Text(t)
        },
        other => other,
    }
}

/// `b` has the nodes, children, parents and depths of `a`; only what the nodes are may differ.
pub open spec fn same_shape(a: Document, b: Document) -> bool {
    &&& a.nodes@.len() == b.nodes@.len()
    &&& a.kids == b.kids
    &&& a.depth == b.depth
    &&& a.bound == b.bound
    &&& forall|i: int| 0 <= i < a.nodes@.len() ==> (#[trigger] b.nodes@[i]).parent == a.nodes@[i].parent
}

/// The nodes above `x` depend only on the parents and depths.
proof fn lemma_ancestors_same(a: Document, b: Document, x: NodeId)
    requires
        a.wf(),
        a.valid(x),
        same_shape(a, b),
    ensures
        b.ancestors(x) == a.ancestors(x),
    decreases a.depth@[x@ as int],
{
    a.lemma_wf_parent(x);
    assert(b.nodes@[x@ as int].parent == a.nodes@[x@ as int].parent);
    if let Some(q) = a.nodes@[x@ as int].parent {
        if a.depth@[q@ as int] < a.depth@[x@ as int] {
            lemma_ancestors_same(a, b, q);
        }
    }
}

/// A walk up the ancestors depends only on which of them are raw text elements.
proof fn lemma_raw_free_walk_same(a: Document, b: Document, s: Seq<NodeId>, k: int, top: NodeId)
    requires
        forall|i: int| 0 <= i < s.len() ==> a.is_raw_text_at(#[trigger] s[i]) == b.is_raw_text_at(s[i]),
    ensures
        raw_free_walk(b, s, k, top) == raw_free_walk(a, s, k, top),
    decreases s.len() - k,
{
    if 0 <= k < s.len() {
        lemma_raw_free_walk_same(a, b, s, k + 1, top);
    }
}

/// No node lies below two different children of one node.
proof fn lemma_sibling_subtrees_apart(d: Document, x: NodeId, a: NodeId, b: NodeId)
    requires
        d.wf(),
        d.valid(x),
        d.valid(a),
        d.valid(b),
        a != b,
        d.parent_of(a) is Some,
        d.parent_of(a) == d.parent_of(b),
    ensures
        !(d.in_subtree(x, a) && d.in_subtree(x, b)),
    decreases d.depth@[x@ as int],
{
    if d.in_subtree(x, a) && d.in_subtree(x, b) {
        d.lemma_wf_parent(a);
        d.lemma_wf_parent(b);
        let p = d.parent_of(a).unwrap();
        if x == a {
            d.lemma_in_subtree_step(a, b);
            d.lemma_in_subtree_depth(p, b);
        } else if x == b {
            d.lemma_in_subtree_step(b, a);
            d.lemma_in_subtree_depth(p, a);
        } else {
            d.lemma_in_subtree_step(x, a);
            d.lemma_in_subtree_step(x, b);
            d.lemma_wf_parent(x);
            let q = d.parent_of(x).unwrap();
            lemma_sibling_subtrees_apart(d, q, a, b);
        }
    }
}

/// A node occurs in the document order of the subtree of `top` just when it lies below `top`.
proof fn lemma_subtree_contains(d: Document, x: NodeId, top: NodeId)
    requires
        d.wf(),
        d.valid(x),
        d.valid(top),
    ensures
        d.subtree_nodes(top).contains(x) == d.in_subtree(x, top),
{
    if d.subtree_nodes(top).contains(x) {
        let k = choose|k: int| 0 <= k < d.subtree_nodes(top).len() && d.subtree_nodes(top)[k] == x;
        d.lemma_order_positions(top, k);
    }
    if d.in_subtree(x, top) {
        d.lemma_placed(top, x);
    }
}

impl Document {
    /// Adds a node of the given kind outside the tree: no parent, no children.
    pub fn create_node(&mut self, node_type: NodeType) -> (id: NodeId)
        requires
            old(self).wf(),
            old(self).len() < u32::MAX,
        ensures
            final(self).wf(),
            id@ == old(self).len(),
            final(self).len() == old(self).len() + 1,
            final(self).type_of(id) == node_type,
            final(self).root == old(self).root,
            final(self).root_decomposed == old(self).root_decomposed,
            final(self).parent_of(id) is None,
            final(self).children(id) == Seq::<NodeId>::empty(),
            forall|i: int| 0 <= i < old(self).len() ==> #[trigger] final(self).nodes@[i].node_type == old(self).nodes@[i].node_type,
            forall|x: NodeId| old(self).valid(x) ==> #[trigger] final(self).children(x) == old(self).children(x),
    {
        let id = self.add_fresh(node_type);
        proof {
            assert(self.nodes@[id@ as int] == crate::dom::Node::fresh(node_type));
        }
        id
    }

    fn keeps_white_space_node(&self, x: NodeId) -> (r: bool)
        requires
            self.valid(x),
        ensures
            r == keeps_white_space_at(*self, x),
    {
        match &self.nodes[x.index()].node_type {
            NodeType::Element(e) => is_preserve_whitespace_tag(e.local_name.as_str()),
            _ => false,
        }
    }

    /// Whether text put in `id` keeps its white space.
    pub fn preserves_whitespace_context(&self, id: NodeId) -> (r: bool)
        requires
            self.wf(),
            self.valid(id),
        ensures
            r == preserves_white_space(*self, id),
    {
        if self.keeps_white_space_node(id) {
            return true;
        }
        let anc = self.parent_nodes(id);
        proof {
            self.lemma_ancestors(id);
        }
        let mut k: usize = 0;
        while k < anc.len()
            invariant
                self.wf(),
                anc@ == self.ancestors(id),
                forall|j: int| 0 <= j < anc@.len() ==> self.valid(#[trigger] anc@[j]),
                k <= anc@.len(),
                !keeps_white_space_at(*self, id),
                forall|j: int| 0 <= j < k ==> !keeps_white_space_at(*self, #[trigger] anc@[j]),
            decreases anc@.len() - k,
        {
            if self.keeps_white_space_node(anc[k]) {
                return true;
            }
            k += 1;
        }
        false
    }

    /// Adds text that the full parser found at the end of `parent`, its white space made one
    /// space or newline unless the text keeps it, merged into the last child when that is text.
    pub fn append_parsed_text(&mut self, parent: NodeId, text: &str)
        requires
            old(self).wf(),
            old(self).valid(parent),
            old(self).len() < u32::MAX,
        ensures
            final(self).wf(),
            final(self).root == old(self).root,
            final(self).root_decomposed == old(self).root_decomposed,
            ({
                let p = preserves_white_space(*old(self), parent);
                let t = normalized_text(text@, p);
                let l = last_of(old(self).children(parent));
                if l matches Some(x) && text_of(*old(self), x) is Some {
                    &&& final(self).len() == old(self).len()
                    &&& text_of(*final(self), l.unwrap()) == Some(appended_text(text_of(*old(self), l.unwrap()).unwrap(), t, p))
                    &&& forall|x: NodeId| #[trigger] final(self).children(x) == old(self).children(x)
                    &&& forall|i: int| 0 <= i < old(self).len() && i != l.unwrap()@ ==> #[trigger] final(self).nodes@[i].node_type == old(self).nodes@[i].node_type
                } else {
                    let n = final(self).children(parent).last();
                    &&& final(self).len() == old(self).len() + 1
                    &&& n@ == old(self).len()
                    &&& final(self).children(parent) == old(self).children(parent).push(n)
                    &&& text_of(*final(self), n) == Some(t)
                    &&& forall|x: NodeId| old(self).valid(x) && x != parent ==> #[trigger] final(self).children(x) == old(self).children(x)
                    &&& forall|i: int| 0 <= i < old(self).len() ==> #[trigger] final(self).nodes@[i].node_type == old(self).nodes@[i].node_type
                }
            }),
    {
        let preserve = self.preserves_whitespace_context(parent);
        let t = normalize_text_value(text, preserve);
        proof {
            self.lemma_children(parent);
        }
        match self.nodes[parent.index()].last_child {
            Some(l) => {
                proof {
                    let c = self.children(parent);
                    assert(c[c.len() - 1] == l);
                }
                let existing = match &self.nodes[l.index()].node_type {
                    NodeType::Text(e) => Some(e.clone()),
                    _ => None,
                };
                match existing {
                    Some(e) => {
                        let mut merged = e;
                        append_normalized_text(&mut merged, t.as_str(), preserve);
                        let _ = self.replace_node_type(l, NodeType::Text(merged));
                        return;
                    },
                    None => {},
                }
            },
            None => {},
        }
        let id = self.append_new(parent, NodeType::Text(t));
        proof {
            assert(self.children(parent).last() == id);
        }
    }

    /// Adds text that the full parser found just before `sibling`, its white space made one
    /// space or newline unless the text keeps it, merged into the previous sibling when that is
    /// text. With no parent to hold it, the text becomes a node of its own outside the tree.
    pub fn insert_parsed_text_before(&mut self, sibling: NodeId, text: &str)
        requires
            old(self).wf(),
            old(self).valid(sibling),
            old(self).len() < u32::MAX,
        ensures
            final(self).wf(),
            final(self).root == old(self).root,
            final(self).root_decomposed == old(self).root_decomposed,
            ({
                let par = old(self).parent_of(sibling);
                let p = par matches Some(q) && preserves_white_space(*old(self), q);
                let t = normalized_text(text@, p);
                let prev = old(self).node_at(sibling).prev_sibling;
                if prev matches Some(x) && text_of(*old(self), x) is Some {
                    &&& final(self).len() == old(self).len()
                    &&& text_of(*final(self), prev.unwrap()) == Some(appended_text(text_of(*old(self), prev.unwrap()).unwrap(), t, p))
                    &&& forall|x: NodeId| #[trigger] final(self).children(x) == old(self).children(x)
                } else {
                    &&& final(self).len() == old(self).len() + 1
                    &&& text_of(*final(self), crate::dom::nid(old(self).len() as int)) == Some(t)
                    &&& forall|i: int| 0 <= i < old(self).len() ==> #[trigger] final(self).nodes@[i].node_type == old(self).nodes@[i].node_type
                    &&& (par matches Some(q) ==> {
                        let c = old(self).children(q);
                        final(self).children(q) == c.insert(c.index_of(sibling), crate::dom::nid(old(self).len() as int))
                    })
                    &&& (par is None ==> forall|x: NodeId| old(self).valid(x) ==> #[trigger] final(self).children(x) == old(self).children(x))
                }
            }),
    {
        proof {
            self.lemma_sibling_position(sibling);
            self.lemma_wf_parent(sibling);
            self.lemma_wf_basic();
        }
        let parent = self.nodes[sibling.index()].parent;
        let preserve = match parent {
            Some(q) => self.preserves_whitespace_context(q),
            None => false,
        };
        let t = normalize_text_value(text, preserve);
        match self.nodes[sibling.index()].prev_sibling {
            Some(prev) => {
                proof {
                    let q = self.parent_of(sibling).unwrap();
                    self.lemma_children(q);
                    let c = self.children(q);
                    let k = c.index_of(sibling);
                    assert(prev == c[k - 1]);
                }
                let existing = match &self.nodes[prev.index()].node_type {
                    NodeType::Text(e) => Some(e.clone()),
                    _ => None,
                };
                match existing {
                    Some(e) => {
                        let mut merged = e;
                        append_normalized_text(&mut merged, t.as_str(), preserve);
                        let _ = self.replace_node_type(prev, NodeType::Text(merged));
                        return;
                    },
                    None => {},
                }
            },
            None => {},
        }
        match parent {
            Some(_) => {
                let id = self.insert_text_before(sibling, t);
                proof {
                    broadcast use group_node_id;
                    assert(id == crate::dom::nid(id@ as int));
                }
            },
            None => {
                let id = self.add_fresh(NodeType::Text(t));
                proof {
                    broadcast use group_node_id;
                    assert(id == crate::dom::nid(id@ as int));
                    assert(self.nodes@[id@ as int].node_type == NodeType::Text(t));
                }
            },
        }
    }

    /// Moves `child` just before `sibling`: into `sibling`'s parent when it has one and does
    /// not lie in `child`'s subtree; out of the tree when `sibling` has no parent.
    pub fn insert_node_before(&mut self, sibling: NodeId, child: NodeId)
        requires
            old(self).wf(),
            old(self).valid(sibling),
            old(self).valid(child),
        ensures
            final(self).wf(),
            final(self).len() == old(self).len(),
            final(self).root == old(self).root,
            final(self).root_decomposed == old(self).root_decomposed,
            forall|i: int| 0 <= i < old(self).len() ==> #[trigger] final(self).nodes@[i].node_type == old(self).nodes@[i].node_type,
            match old(self).parent_of(sibling) {
                Some(p) => if child != sibling && !old(self).in_subtree(p, child) {
                    let s = remove_value(old(self).children(p), child);
                    &&& final(self).children(p) == s.insert(s.index_of(sibling), child)
                    &&& final(self).parent_of(child) == Some(p)
                } else {
                    *final(self) == *old(self)
                },
                None => final(self).parent_of(child) is None
                    && forall|x: NodeId| old(self).valid(x) ==> #[trigger] final(self).children(x) == remove_value(old(self).children(x), child),
            },
    {
        proof {
            self.lemma_wf_parent(sibling);
        }
        match self.nodes[sibling.index()].parent {
            Some(p) => {
                if child.index() != sibling.index() && !self.is_in_subtree(p, child) {
                    proof {
                        broadcast use group_node_id;
                    }
                    self.insert_before_existing(sibling, child);
                } else {
                    proof {
                        broadcast use group_node_id;
                    }
                }
            },
            None => {
                self.detach(child);
            },
        }
    }

    /// Moves `child` to the end of `parent`'s children, unless `parent` lies in `child`'s
    /// subtree.
    pub fn append_node_to(&mut self, parent: NodeId, child: NodeId)
        requires
            old(self).wf(),
            old(self).valid(parent),
            old(self).valid(child),
        ensures
            final(self).wf(),
            final(self).len() == old(self).len(),
            final(self).root == old(self).root,
            final(self).root_decomposed == old(self).root_decomposed,
            forall|i: int| 0 <= i < old(self).len() ==> #[trigger] final(self).nodes@[i].node_type == old(self).nodes@[i].node_type,
            if !old(self).in_subtree(parent, child) {
                &&& final(self).parent_of(child) == Some(parent)
                &&& final(self).children(parent) == remove_value(old(self).children(parent), child).push(child)
            } else {
                *final(self) == *old(self)
            },
    {
        if !self.is_in_subtree(parent, child) {
            self.append_existing(parent, child);
        }
    }

    /// Adds to element `target` the attributes of `attrs` whose names it does not have yet.
    pub fn add_attrs_if_missing(&mut self, target: NodeId, attrs: Vec<Attr>)
        requires
            old(self).wf(),
            old(self).valid(target),
        ensures
            final(self).wf(),
            match old(self).type_of(target) {
                NodeType::Element(e) => {
                    &&& final(self).type_of(target) matches NodeType::Element(f)
                    &&& f.local_name == e.local_name
                    &&& f.namespace == e.namespace
                    &&& f.attrs@ == e.attrs@ + missing_attrs(e.attrs@, attrs@)
                    &&& Document::only_type_changed(*old(self), *final(self), target)
                },
                _ => *final(self) == *old(self),
            },
    {
        if !self.is_element(target) {
            return;
        }
        let ghost start = *self;
        let mut e = self.take_element(target);
        let ghost mid = *self;
        let ghost e0 = e;
        let ghost before = e.attrs@;
        let n0 = e.attrs.len();
        let mut i: usize = 0;
        while i < attrs.len()
            invariant
                i <= attrs@.len(),
                n0 == before.len(),
                before == e0.attrs@,
                e.local_name == e0.local_name,
                e.namespace == e0.namespace,
                e.attrs@ == before + missing_attrs(before, attrs@.take(i as int)),
            decreases attrs@.len() - i,
        {
            let mut present = false;
            let mut k: usize = 0;
            while k < n0
                invariant
                    k <= n0,
                    i < attrs@.len(),
                    n0 == before.len(),
                    n0 <= e.attrs@.len(),
                    forall|j: int| 0 <= j < n0 ==> #[trigger] e.attrs@[j] == before[j],
                    present == exists|j: int| 0 <= j < k && (#[trigger] before[j]).name@ == attrs@[i as int].name@,
                decreases n0 - k,
            {
                if str_eq(e.attrs[k].name.as_str(), attrs[i].name.as_str()) {
                    present = true;
                }
                k += 1;
            }
            proof {
                assert(attrs@.take(i + 1).drop_last() =~= attrs@.take(i as int));
                assert(attrs@.take(i + 1).last() == attrs@[i as int]);
            }
            if !present {
                e.attrs.push(copy_attr(&attrs[i]));
                proof {
                    assert(e.attrs@ =~= before + missing_attrs(before, attrs@.take(i + 1)));
                }
            }
            i += 1;
        }
        proof {
            assert(attrs@.take(attrs@.len() as int) =~= attrs@);
        }
        self.put_element(target, e);
        proof {
            assert(Document::only_type_changed(start, *self, target));
        }
    }

    /// Moves the children of `node` to the end of `new_parent`'s children, in order; a child
    /// in whose subtree `new_parent` lies stays where it is. Where `new_parent` lies outside
    /// the subtree of `node`, all of them move and no other node's children change.
    #[verifier::rlimit(40)]
    pub fn reparent_children(&mut self, node: NodeId, new_parent: NodeId)
        requires
            old(self).wf(),
            old(self).valid(node),
            old(self).valid(new_parent),
        ensures
            final(self).wf(),
            final(self).len() == old(self).len(),
            final(self).root == old(self).root,
            final(self).root_decomposed == old(self).root_decomposed,
            forall|i: int| 0 <= i < old(self).len() ==> #[trigger] final(self).nodes@[i].node_type == old(self).nodes@[i].node_type,
            !old(self).in_subtree(new_parent, node) ==> {
                &&& final(self).children(new_parent) == old(self).children(new_parent) + old(self).children(node)
                &&& final(self).children(node) == Seq::<NodeId>::empty()
                &&& forall|j: int| 0 <= j < old(self).children(node).len()
                    ==> final(self).parent_of(#[trigger] old(self).children(node)[j]) == Some(new_parent)
                &&& forall|x: NodeId| old(self).valid(x) && x != node && x != new_parent
                    ==> #[trigger] final(self).children(x) == old(self).children(x)
            },
    {
        let children = self.child_nodes(node);
        proof {
            self.lemma_children(node);
            self.lemma_in_subtree_refl(node);
        }
        let ghost start = *self;
        let ghost outside = !start.in_subtree(new_parent, node);
        let mut i: usize = 0;
        while i < children.len()
            invariant
                self.wf(),
                self.len() == start.len(),
                self.root == start.root,
                self.root_decomposed == start.root_decomposed,
                forall|j: int| 0 <= j < start.len() ==> #[trigger] self.nodes@[j].node_type == start.nodes@[j].node_type,
                self.valid(new_parent),
                start.wf(),
                start.valid(node),
                start.valid(new_parent),
                children@ == start.children(node),
                children@.no_duplicates(),
                forall|j: int| 0 <= j < children@.len() ==> start.valid(#[trigger] children@[j]) && start.parent_of(children@[j]) == Some(node),
                i <= children@.len(),
                outside == !start.in_subtree(new_parent, node),
                outside ==> {
                    &&& self.children(new_parent) == start.children(new_parent) + children@.take(i as int)
                    &&& self.children(node) == children@.skip(i as int)
                    &&& forall|j: int| 0 <= j < i ==> self.parent_of(#[trigger] children@[j]) == Some(new_parent)
                    &&& forall|j: int| i <= j < children@.len() ==> self.parent_of(#[trigger] children@[j]) == Some(node)
                    &&& forall|x: NodeId| start.valid(x) && x != node && x != new_parent
                        ==> #[trigger] self.children(x) == start.children(x)
                    &&& forall|z: NodeId| start.valid(z) && #[trigger] start.in_subtree(new_parent, z)
                        ==> self.parent_of(z) == start.parent_of(z)
                },
            decreases children@.len() - i,
        {
            let c = children[i];
            let ghost pre = *self;
            if !self.is_in_subtree(new_parent, c) {
                proof {
                    if outside {
                        assert(self.parent_of(c) == Some(node));
                        pre.lemma_children(new_parent);
                        pre.lemma_children(node);
                        start.lemma_in_subtree_refl(node);
                        assert(node != new_parent);
                        assert(!pre.children(new_parent).contains(c));
                    }
                }
                self.append_existing(new_parent, c);
                proof {
                    if outside {
                        let s0 = children@.skip(i as int);
                        Document::lemma_index_of_unique(s0, 0);
                        assert(s0[0] == c);
                        assert(s0.remove(0) =~= children@.skip(i + 1));
                        assert(self.children(node) == remove_value(pre.children(node), c));
                        assert(self.children(new_parent) =~= start.children(new_parent) + children@.take(i + 1));
                        assert forall|x: NodeId| start.valid(x) && x != node && x != new_parent
                            implies #[trigger] self.children(x) == start.children(x) by {
                            pre.lemma_children(x);
                            assert(!pre.children(x).contains(c));
                        }
                        assert forall|z: NodeId| start.valid(z) && #[trigger] start.in_subtree(new_parent, z)
                            implies self.parent_of(z) == start.parent_of(z) by {
                            if z == c {
                                start.lemma_in_subtree_refl(node);
                                start.lemma_in_subtree_step(c, node);
                                start.lemma_in_subtree_trans(new_parent, c, node);
                            }
                        }
                        assert forall|j: int| i < j < children@.len() implies self.parent_of(#[trigger] children@[j]) == Some(node) by {
                            assert(children@[j] != c);
                        }
                    }
                }
            } else {
                proof {
                    if outside {
                        Document::lemma_in_subtree_same_parents(start, *self, new_parent, c);
                        start.lemma_in_subtree_refl(node);
                        start.lemma_in_subtree_step(c, node);
                        start.lemma_in_subtree_trans(new_parent, c, node);
                        assert(false);
                    }
                }
            }
            i += 1;
        }
        proof {
            if outside {
                assert(children@.take(children@.len() as int) =~= children@);
                assert(children@.skip(children@.len() as int) =~= Seq::<NodeId>::empty());
            }
        }
    }
    /// Whether the ancestors `anc` of a node meet `top` before any raw text element.
    fn reaches_without_raw_text(&self, anc: &Vec<NodeId>, top: NodeId) -> (r: bool)
        requires
            forall|k: int| 0 <= k < anc@.len() ==> self.valid(#[trigger] anc@[k]),
        ensures
            r == raw_free_walk(*self, anc@, 0, top),
    {
        let mut k: usize = 0;
        while k < anc.len()
            invariant
                k <= anc@.len(),
                forall|j: int| 0 <= j < anc@.len() ==> self.valid(#[trigger] anc@[j]),
                raw_free_walk(*self, anc@, 0, top) == raw_free_walk(*self, anc@, k as int, top),
            decreases anc@.len() - k,
        {
            if self.is_raw_text_element_node(anc[k]) {
                return false;
            }
            if anc[k].index() == top.index() {
                proof {
                    broadcast use group_node_id;
                }
                return true;
            }
            proof {
                broadcast use group_node_id;
            }
            k += 1;
        }
        false
    }

    /// Marks as template strings the text in the subtree of `top` that no raw text element
    /// stands above, up to and including `top`.
    #[verifier::rlimit(60)]
    pub fn mark_template_strings(&mut self, top: NodeId)
        requires
            old(self).wf(),
            old(self).valid(top),
        ensures
            final(self).wf(),
            final(self).len() == old(self).len(),
            final(self).root == old(self).root,
            final(self).root_decomposed == old(self).root_decomposed,
            forall|x: NodeId| #[trigger] final(self).children(x) == old(self).children(x),
            forall|x: NodeId| old(self).valid(x) ==> #[trigger] final(self).type_of(x) == marked_from(*old(self), top, x),
            same_shape(*old(self), *final(self)),
    {
        broadcast use group_node_id;
        let ghost orig = *self;
        let nodes = self.descendant_nodes(top, true);
        let ghost s = nodes@;
        proof {
            orig.lemma_subtree_valid(top);
            orig.lemma_subtree_distinct(top);
        }
        let mut marks: Vec<(NodeId, String)> = Vec::new();
        let mut i: usize = 0;
        while i < nodes.len()
            invariant
                *self == orig,
                orig.wf(),
                s == nodes@,
                s == orig.subtree_nodes(top),
                s.no_duplicates(),
                forall|k: int| 0 <= k < s.len() ==> orig.valid(#[trigger] s[k]),
                i <= s.len(),
                forall|k: int| 0 <= k < marks@.len() ==> {
                    &&& exists|a: int| 0 <= a < i && s[a] == (#[trigger] marks@[k]).0
                    &&& orig.valid(marks@[k].0)
                    &&& marked_below(orig, top, marks@[k].0)
                    &&& orig.type_of(marks@[k].0) == NodeType::Text(marks@[k].1)
                },
                forall|a: int| 0 <= a < i && #[trigger] marked_below(orig, top, s[a]) ==> exists|k: int| 0 <= k < marks@.len() && (#[trigger] marks@[k]).0 == s[a],
            decreases s.len() - i,
        {
            let y = nodes[i];
            let ghost old_marks = marks@;
            let text = match &self.nodes[y.index()].node_type {
                NodeType::Text(t) => Some(t.clone()),
                _ => None,
            };
            match text {
                Some(t) => {
                    let hit = if y.index() == top.index() {
                        true
                    } else {
                        let anc = self.parent_nodes(y);
                        proof {
                            self.lemma_ancestors(y);
                        }
                        self.reaches_without_raw_text(&anc, top)
                    };
                    if hit {
                        marks.push((y, t));
                        proof {
                            broadcast use group_node_id;
                            assert(marks@[marks@.len() - 1].0 == y);
                            assert(marked_below(orig, top, y));
                        }
                    }
                },
                None => {},
            }
            proof {
                assert forall|k: int| 0 <= k < marks@.len() implies {
                    &&& exists|a: int| 0 <= a < i + 1 && s[a] == (#[trigger] marks@[k]).0
                    &&& orig.valid(marks@[k].0)
                    &&& marked_below(orig, top, marks@[k].0)
                    &&& orig.type_of(marks@[k].0) == NodeType::Text(marks@[k].1)
                } by {
                    if k < old_marks.len() {
                        assert(marks@[k] == old_marks[k]);
                        let a = choose|a: int| 0 <= a < i && s[a] == old_marks[k].0;
                    } else {
                        assert(s[i as int] == marks@[k].0);
                    }
                }
                assert forall|a: int| 0 <= a < i + 1 && #[trigger] marked_below(orig, top, s[a]) implies exists|k: int| 0 <= k < marks@.len() && (#[trigger] marks@[k]).0 == s[a] by {
                    if a < i {
                        let k = choose|k: int| 0 <= k < old_marks.len() && (#[trigger] old_marks[k]).0 == s[a];
                        assert(marks@[k] == old_marks[k]);
                    } else {
                        assert(marks@[marks@.len() - 1].0 == y);
                    }
                }
            }
            i += 1;
        }
        let mut j: usize = 0;
        while j < marks.len()
            invariant
                j <= marks@.len(),
                orig.wf(),
                self.wf(),
                self.len() == orig.len(),
                self.root == orig.root,
                self.root_decomposed == orig.root_decomposed,
                forall|x: NodeId| #[trigger] self.children(x) == orig.children(x),
                same_shape(orig, *self),
                forall|k: int| 0 <= k < marks@.len() ==> {
                    &&& orig.valid(#[trigger] marks@[k].0)
                    &&& orig.type_of(marks@[k].0) == NodeType::Text(marks@[k].1)
                },
                forall|y: NodeId| orig.valid(y) ==> #[trigger] self.type_of(y) == (
                    if exists|k: int| 0 <= k < j && (#[trigger] marks@[k]).0 == y {
                        match orig.type_of(y) { NodeType::Text(t) => NodeType::TemplateString(t), other => other }
                    } else { orig.type_of(y) }),
            decreases marks@.len() - j,
        {
            let x = marks[j].0;
            let t = marks[j].1.clone();
            let ghost before = *self;
            let _ = self.replace_node_type(x, NodeType::TemplateString(t));
            proof {
                assert forall|y: NodeId| orig.valid(y) implies #[trigger] self.type_of(y) == (
                    if exists|k: int| 0 <= k < j + 1 && (#[trigger] marks@[k]).0 == y {
                        match orig.type_of(y) { NodeType::Text(t) => NodeType::TemplateString(t), other => other }
                    } else { orig.type_of(y) }) by {
                    broadcast use group_node_id;
                    if y == x {
                        assert(marks@[j as int].0 == y);
                    } else {
                        assert(x@ != y@);
                        assert(self.type_of(y) == before.type_of(y));
                        if exists|k: int| 0 <= k < j + 1 && (#[trigger] marks@[k]).0 == y {
                            let k = choose|k: int| 0 <= k < j + 1 && (#[trigger] marks@[k]).0 == y;
                            assert(k < j);
                        }
                    }
                }
            }
            j += 1;
        }
        proof {
            assert forall|y: NodeId| orig.valid(y) implies #[trigger] self.type_of(y) == marked_from(orig, top, y) by {
                if exists|k: int| 0 <= k < marks@.len() && (#[trigger] marks@[k]).0 == y {
                    let k = choose|k: int| 0 <= k < marks@.len() && (#[trigger] marks@[k]).0 == y;
                    let a = choose|a: int| 0 <= a < s.len() && s[a] == marks@[k].0;
                    assert(s.contains(y));
                } else {
                    if s.contains(y) && marked_below(orig, top, y) {
                        let a = choose|a: int| 0 <= a < s.len() && s[a] == y;
                        assert(marked_below(orig, top, s[a]));
                    }
                }
            }
        }
    }

    /// Puts the contents that the full parser kept for the template element `template` (the
    /// children of `contents`) into the template, marking their text as template strings: the
    /// text below each of them that no raw text element stands above. Where `template` lies
    /// outside the subtree of `contents`, all of them move.
    pub fn splice_template_contents(&mut self, template: NodeId, contents: NodeId)
        requires
            old(self).wf(),
            old(self).valid(template),
            old(self).valid(contents),
        ensures
            final(self).wf(),
            final(self).len() == old(self).len(),
            final(self).root == old(self).root,
            final(self).root_decomposed == old(self).root_decomposed,
            !old(self).in_subtree(template, contents) ==> {
                &&& final(self).children(template) == old(self).children(template) + old(self).children(contents)
                &&& final(self).children(contents) == Seq::<NodeId>::empty()
                &&& forall|j: int| 0 <= j < old(self).children(contents).len()
                    ==> final(self).parent_of(#[trigger] old(self).children(contents)[j]) == Some(template)
                &&& forall|x: NodeId| old(self).valid(x) && x != contents && x != template
                    ==> #[trigger] final(self).children(x) == old(self).children(x)
            },
            forall|x: NodeId| old(self).valid(x)
                ==> #[trigger] final(self).type_of(x) == marked_in(*old(self), old(self).children(contents), x),
    {
        let ghost start = *self;
        let children = self.child_nodes(contents);
        proof {
            self.lemma_children(contents);
            assert forall|x: NodeId| start.valid(x) implies #[trigger] self.type_of(x) == marked_in(start, children@.take(0), x) by {}
        }
        let mut i: usize = 0;
        while i < children.len()
            invariant
                start.wf(),
                self.wf(),
                start.valid(contents),
                self.len() == start.len(),
                self.root == start.root,
                self.root_decomposed == start.root_decomposed,
                same_shape(start, *self),
                forall|x: NodeId| #[trigger] self.children(x) == start.children(x),
                children@ == start.children(contents),
                children@.no_duplicates(),
                forall|j: int| 0 <= j < children@.len() ==> start.valid(#[trigger] children@[j]) && start.parent_of(children@[j]) == Some(contents),
                forall|x: NodeId| start.valid(x) ==> #[trigger] self.type_of(x) == marked_in(start, children@.take(i as int), x),
                i <= children@.len(),
            decreases children@.len() - i,
        {
            let c = children[i];
            let ghost pre = *self;
            let ghost tk = children@.take(i as int);
            let ghost tk1 = children@.take(i as int + 1);
            self.mark_template_strings(c);
            proof {
                assert(tk1 == tk.push(c));
                Document::lemma_subtree_same_links(start, pre, c);
                assert forall|x: NodeId| start.valid(x) implies #[trigger] self.type_of(x) == marked_in(start, tk1, x) by {
                    assert(self.type_of(x) == marked_from(pre, c, x));
                    assert(pre.type_of(x) == marked_in(start, tk, x));
                    lemma_subtree_contains(start, x, c);
                    if start.subtree_nodes(c).contains(x) {
                        assert forall|j: int| 0 <= j < tk.len() implies !(#[trigger] start.subtree_nodes(tk[j]).contains(x)) by {
                            assert(tk[j] == children@[j]);
                            assert(children@[j] != c);
                            lemma_subtree_contains(start, x, tk[j]);
                            lemma_sibling_subtrees_apart(start, x, c, tk[j]);
                        }
                        assert(pre.type_of(x) == start.type_of(x));
                        if start.type_of(x) is Text {
                            lemma_ancestors_same(start, pre, x);
                            start.lemma_ancestors(x);
                            assert forall|k: int| 0 <= k < start.ancestors(x).len() implies start.is_raw_text_at(#[trigger] start.ancestors(x)[k]) == pre.is_raw_text_at(start.ancestors(x)[k]) by {
                                let z = start.ancestors(x)[k];
                                assert(pre.type_of(z) == marked_in(start, tk, z));
                            }
                            lemma_raw_free_walk_same(start, pre, start.ancestors(x), 0, c);
                            assert(marked_below(pre, c, x) == marked_below(start, c, x));
                            if marked_below(start, c, x) {
                                assert(tk1[i as int] == c);
                                assert(start.subtree_nodes(tk1[i as int]).contains(x));
                            } else {
                                assert forall|j: int| 0 <= j < tk1.len() implies !(#[trigger] start.subtree_nodes(tk1[j]).contains(x) && marked_below(start, tk1[j], x)) by {
                                    if j < tk.len() {
                                        assert(tk1[j] == tk[j]);
                                    }
                                }
                            }
                        }
                    } else {
                        if start.type_of(x) is Text {
                            assert((exists|j: int| 0 <= j < tk1.len() && #[trigger] start.subtree_nodes(tk1[j]).contains(x) && marked_below(start, tk1[j], x))
                                == (exists|j: int| 0 <= j < tk.len() && #[trigger] start.subtree_nodes(tk[j]).contains(x) && marked_below(start, tk[j], x))) by {
                                if exists|j: int| 0 <= j < tk1.len() && #[trigger] start.subtree_nodes(tk1[j]).contains(x) && marked_below(start, tk1[j], x) {
                                    let j = choose|j: int| 0 <= j < tk1.len() && #[trigger] start.subtree_nodes(tk1[j]).contains(x) && marked_below(start, tk1[j], x);
                                    assert(j != i);
                                    assert(tk1[j] == tk[j]);
                                }
                                if exists|j: int| 0 <= j < tk.len() && #[trigger] start.subtree_nodes(tk[j]).contains(x) && marked_below(start, tk[j], x) {
                                    let j = choose|j: int| 0 <= j < tk.len() && #[trigger] start.subtree_nodes(tk[j]).contains(x) && marked_below(start, tk[j], x);
                                    assert(tk1[j] == tk[j]);
                                }
                            }
                        }
                    }
                }
            }
            i += 1;
        }
        proof {
            assert(children@.take(children@.len() as int) == children@);
            Document::lemma_in_subtree_same_links(start, *self, template, contents);
        }
        let ghost marked = *self;
        self.reparent_children(contents, template);
        proof {
            assert forall|x: NodeId| start.valid(x) implies #[trigger] self.type_of(x) == marked_in(start, start.children(contents), x) by {
                assert(self.nodes@[x@ as int].node_type == marked.nodes@[x@ as int].node_type);
                assert(marked.type_of(x) == marked_in(start, children@.take(children@.len() as int), x));
                assert(children@.take(children@.len() as int) == start.children(contents));
            }
        }
    }
}


} // verus!
