use vstd::prelude::*;
use crate::dom::{Attr, Document, ElementData, NodeId, NodeType};
use crate::attrs::{attr_entry, attrs_to_map, entries_view, last_wins_upto};
use crate::text::str_eq;

verus! {

/// The URL of the HTML namespace.
pub const HTML_NAMESPACE_URL: &'static str = "http://www.w3.org/1999/xhtml";

/// The HTML namespace.
pub fn html_namespace() -> (r: &'static str)
    ensures
        r@ == HTML_NAMESPACE_URL@,
{
    HTML_NAMESPACE_URL
}

/// Whether `namespace` is the HTML namespace.
pub fn is_html_namespace(namespace: &str) -> (r: bool)
    ensures
        r == (namespace@ == HTML_NAMESPACE_URL@),
{
    str_eq(namespace, HTML_NAMESPACE_URL)
}

/// What an element records of the namespace `namespace`: nothing for the HTML namespace, which
/// is the default, else the namespace itself.
pub fn namespace_field(namespace: &str) -> (r: Option<String>)
    ensures
        match r {
            Some(n) => n@ == namespace@ && namespace@ != HTML_NAMESPACE_URL@,
            None => namespace@ == HTML_NAMESPACE_URL@,
        },
{
    if is_html_namespace(namespace) {
        None
    } else {
        Some(namespace.to_string())
    }
}

/// The view of an optional string.
pub open spec fn value_view(v: Option<String>) -> Option<Seq<char>> {
    match v {
        Some(s) => Some(s@),
        None => None,
    }
}

/// The view of an optional string slice.
pub open spec fn str_view(v: Option<&str>) -> Option<Seq<char>> {
    match v {
        Some(s) => Some(s@),
        None => None,
    }
}

/// The index of the last attribute among `attrs[..end]` named `name`, or -1.
pub open spec fn last_named(attrs: Seq<Attr>, name: Seq<char>, end: int) -> int
    decreases end,
{
    if end <= 0 || end > attrs.len() {
        -1
    } else if attrs[end - 1].name@ == name {
        end - 1
    } else {
        last_named(attrs, name, end - 1)
    }
}

/// The index of the first attribute among `attrs[start..]` named `name`, or -1.
pub open spec fn first_named(attrs: Seq<Attr>, name: Seq<char>, start: int) -> int
    decreases attrs.len() - start,
{
    if start < 0 || start >= attrs.len() {
        -1
    } else if attrs[start].name@ == name {
        start
    } else {
        first_named(attrs, name, start + 1)
    }
}

/// `attrs` without those named `name`.
pub open spec fn without_name(attrs: Seq<Attr>, name: Seq<char>) -> Seq<Attr>
    decreases attrs.len(),
{
    if attrs.len() == 0 {
        Seq::empty()
    } else if attrs.last().name@ == name {
        without_name(attrs.drop_last(), name)
    } else {
        without_name(attrs.drop_last(), name).push(attrs.last())
    }
}

pub proof fn lemma_last_named_bounds(attrs: Seq<Attr>, name: Seq<char>, end: int)
    requires
        0 <= end <= attrs.len(),
    ensures
        -1 <= last_named(attrs, name, end) < end,
        last_named(attrs, name, end) >= 0 ==> attrs[last_named(attrs, name, end)].name@ == name,
        last_named(attrs, name, end) < 0 ==> forall|i: int| 0 <= i < end ==> attrs[i].name@ != name,
    decreases end,
{
    if end > 0 && attrs[end - 1].name@ != name {
        lemma_last_named_bounds(attrs, name, end - 1);
    }
}

pub proof fn lemma_first_named_bounds(attrs: Seq<Attr>, name: Seq<char>, start: int)
    requires
        0 <= start <= attrs.len(),
    ensures
        first_named(attrs, name, start) == -1 || start <= first_named(attrs, name, start) < attrs.len(),
        first_named(attrs, name, start) >= 0 ==> attrs[first_named(attrs, name, start)].name@ == name,
        first_named(attrs, name, start) < 0 ==> forall|i: int| start <= i < attrs.len() ==> attrs[i].name@ != name,
    decreases attrs.len() - start,
{
    if start < attrs.len() && attrs[start].name@ != name {
        lemma_first_named_bounds(attrs, name, start + 1);
    }
}

impl Document {
    /// The attributes of node `id`: an element's, or none.
    pub open spec fn attrs_of(self, id: NodeId) -> Seq<Attr> {
        match self.type_of(id) {
            NodeType::Element(e) => e.attrs@,
            _ => Seq::empty(),
        }
    }

    /// `after` is `before` with only what node `id` is changed.
    pub open spec fn only_type_changed(before: Document, after: Document, id: NodeId) -> bool {
        &&& after.wf()
        &&& after.len() == before.len()
        &&& after.root == before.root
        &&& after.root_decomposed == before.root_decomposed
        &&& forall|j: int| 0 <= j < before.len() && j != id@ ==> #[trigger] after.nodes@[j] == before.nodes@[j]
        &&& after.nodes@[id@ as int].parent == before.nodes@[id@ as int].parent
        &&& after.nodes@[id@ as int].first_child == before.nodes@[id@ as int].first_child
        &&& after.nodes@[id@ as int].last_child == before.nodes@[id@ as int].last_child
        &&& after.nodes@[id@ as int].prev_sibling == before.nodes@[id@ as int].prev_sibling
        &&& after.nodes@[id@ as int].next_sibling == before.nodes@[id@ as int].next_sibling
        &&& forall|x: NodeId| #[trigger] after.children(x) == before.children(x)
    }

    /// The namespace of node `id`: an element's own, else the HTML namespace.
    pub open spec fn namespace_of(self, id: NodeId) -> Seq<char> {
        match self.type_of(id) {
            NodeType::Element(e) => match e.namespace {
                Some(n) => n@,
                None => HTML_NAMESPACE_URL@,
            },
            _ => HTML_NAMESPACE_URL@,
        }
    }

    /// The namespace of node `id`: an element's own, else the HTML namespace.
    pub fn element_namespace(&self, id: NodeId) -> (r: &str)
        requires
            self.valid(id),
        ensures
            r@ == self.namespace_of(id),
    {
        match &self.nodes[id.index()].node_type {
            NodeType::Element(element) => match &element.namespace {
                Some(namespace) => namespace.as_str(),
                None => html_namespace(),
            },
            _ => html_namespace(),
        }
    }

    /// The attributes of node `id` as a map from name to value: see `attrs_to_map`; empty for
    /// a node that is not an element.
    pub fn attrs_map(&self, id: NodeId) -> (out: Vec<(String, Option<String>)>)
        requires
            self.valid(id),
        ensures
            entries_view(out@) == last_wins_upto(self.attrs_of(id), self.attrs_of(id).len() as int).map_values(|a: Attr| attr_entry(a)),
    {
        match &self.nodes[id.index()].node_type {
            NodeType::Element(element) => attrs_to_map(element.attrs.as_slice()),
            _ => {
                proof {
                    assert(last_wins_upto(self.attrs_of(id), 0) =~= Seq::<Attr>::empty());
                }
                let out: Vec<(String, Option<String>)> = Vec::new();
                proof {
                    assert(entries_view(out@) =~= Seq::empty());
                    assert(Seq::<Attr>::empty().map_values(|a: Attr| attr_entry(a)) =~= Seq::empty());
                }
                out
            },
        }
    }

    /// The element data of node `id`, if it is an element.
    pub fn element(&self, id: NodeId) -> (r: Option<&ElementData>)
        requires
            self.valid(id),
        ensures
            match self.type_of(id) {
                NodeType::Element(e) => r == Some(&e),
                _ => r is None,
            },
    {
        match &self.nodes[id.index()].node_type {
            NodeType::Element(element) => Some(element),
            _ => None,
        }
    }

    /// The attributes of node `id`: an element's, or none.
    pub fn element_attrs(&self, id: NodeId) -> (r: &[Attr])
        requires
            self.valid(id),
        ensures
            r@ == self.attrs_of(id),
    {
        match &self.nodes[id.index()].node_type {
            NodeType::Element(element) => element.attrs.as_slice(),
            _ => &[],
        }
    }

    /// The value of the last attribute of `id` named `name`, if there is one and it has a value.
    pub fn attr(&self, id: NodeId, name: &str) -> (r: Option<&str>)
        requires
            self.valid(id),
        ensures
            ({
                let attrs = self.attrs_of(id);
                let k = last_named(attrs, name@, attrs.len() as int);
                str_view(r) == (if k >= 0 { value_view(attrs[k].value) } else { None })
            }),
    {
        match self.attr_value(id, name) {
            Some(value) => value,
            None => None,
        }
    }

    /// Whether `id` has an attribute named `name`.
    pub fn attr_present(&self, id: NodeId, name: &str) -> (r: bool)
        requires
            self.valid(id),
        ensures
            r == (last_named(self.attrs_of(id), name@, self.attrs_of(id).len() as int) >= 0),
            r == exists|i: int| 0 <= i < self.attrs_of(id).len() && (#[trigger] self.attrs_of(id)[i]).name@ == name@,
    {
        let r = self.attr_value(id, name).is_some();
        proof {
            let attrs = self.attrs_of(id);
            lemma_last_named_bounds(attrs, name@, attrs.len() as int);
            let k = last_named(attrs, name@, attrs.len() as int);
            if k >= 0 {
                assert(attrs[k].name@ == name@);
            }
        }
        r
    }

    /// The last attribute of `id` named `name`, if any: `Some` of its value.
    pub fn attr_value(&self, id: NodeId, name: &str) -> (r: Option<Option<&str>>)
        requires
            self.valid(id),
        ensures
            ({
                let attrs = self.attrs_of(id);
                let k = last_named(attrs, name@, attrs.len() as int);
                match r {
                    Some(v) => k >= 0 && str_view(v) == value_view(attrs[k].value),
                    None => k < 0,
                }
            }),
    {
        let attrs = self.element_attrs(id);
        let mut end = attrs.len();
        while end > 0
            invariant
                attrs@ == self.attrs_of(id),
                end <= attrs@.len(),
                last_named(attrs@, name@, attrs@.len() as int) == last_named(attrs@, name@, end as int),
            decreases end,
        {
            let attr = &attrs[end - 1];
            if str_eq(attr.name.as_str(), name) {
                proof {
                    assert(last_named(attrs@, name@, end as int) == end - 1);
                }
                let value = match &attr.value {
                    Some(v) => Some(v.as_str()),
                    None => None,
                };
                proof {
                    assert(str_view(value) == value_view(attrs@[end - 1].value));
                }
                return Some(value);
            }
            end -= 1;
        }
        None
    }
}


impl Document {
    /// Takes element `id`'s data out, leaving a placeholder kind until it is put back.
    pub(crate) fn take_element(&mut self, id: NodeId) -> (e: ElementData)
        requires
            old(self).wf(),
            old(self).valid(id),
            old(self).is_element_at(id),
        ensures
            old(self).type_of(id) == NodeType::Element(e),
            Document::only_type_changed(*old(self), *final(self), id),
    {
        let ghost before = *self;
        match self.replace_node_type(id, NodeType::Document) {
            NodeType::Element(e) => {
                proof {
                    assert forall|j: int| 0 <= j < before.len() && j != id@ implies #[trigger] self.nodes@[j] == before.nodes@[j] by {}
                }
                e
            },
            _ => {
                proof {
                    assert(false);
                }
                ElementData { local_name: String::new(), attrs: Vec::new(), namespace: None }
            },
        }
    }

    /// Puts element data back as what node `id` is.
    pub(crate) fn put_element(&mut self, id: NodeId, e: ElementData)
        requires
            old(self).wf(),
            old(self).valid(id),
        ensures
            final(self).type_of(id) == NodeType::Element(e),
            Document::only_type_changed(*old(self), *final(self), id),
    {
        let ghost before = *self;
        self.replace_node_type(id, NodeType::Element(e));
        proof {
            assert forall|j: int| 0 <= j < before.len() && j != id@ implies #[trigger] self.nodes@[j] == before.nodes@[j] by {}
        }
    }

    /// Renames element `id`; other nodes are left as they are.
    pub fn set_tag_name(&mut self, id: NodeId, name: String)
        requires
            old(self).wf(),
            old(self).valid(id),
        ensures
            Document::only_type_changed(*old(self), *final(self), id),
            match old(self).type_of(id) {
                NodeType::Element(e) => final(self).type_of(id) matches NodeType::Element(f) && f.local_name == name && f.attrs == e.attrs && f.namespace == e.namespace,
                _ => final(self).type_of(id) == old(self).type_of(id),
            },
    {
        if self.is_element(id) {
            let mut e = self.take_element(id);
            e.local_name = name;
            self.put_element(id, e);
        } else {
            proof {
                assert forall|j: int| 0 <= j < self.len() && j != id@ implies #[trigger] self.nodes@[j] == self.nodes@[j] by {}
            }
        }
    }

    /// Removes every attribute of element `id`.
    pub fn clear_attrs(&mut self, id: NodeId)
        requires
            old(self).wf(),
            old(self).valid(id),
        ensures
            Document::only_type_changed(*old(self), *final(self), id),
            match old(self).type_of(id) {
                NodeType::Element(e) => final(self).type_of(id) matches NodeType::Element(f) && f.local_name == e.local_name && f.attrs@.len() == 0 && f.namespace == e.namespace,
                _ => final(self).type_of(id) == old(self).type_of(id),
            },
    {
        if self.is_element(id) {
            let mut e = self.take_element(id);
            e.attrs = Vec::new();
            self.put_element(id, e);
        } else {
            proof {
                assert forall|j: int| 0 <= j < self.len() && j != id@ implies #[trigger] self.nodes@[j] == self.nodes@[j] by {}
            }
        }
    }

    /// Removes and returns the last attribute of element `id`, if it has one.
    pub fn pop_attr(&mut self, id: NodeId) -> (r: Option<Attr>)
        requires
            old(self).wf(),
            old(self).valid(id),
        ensures
            Document::only_type_changed(*old(self), *final(self), id),
            match old(self).type_of(id) {
                NodeType::Element(e) => if e.attrs@.len() > 0 {
                    &&& r == Some(e.attrs@.last())
                    &&& final(self).type_of(id) matches NodeType::Element(f) && f.local_name == e.local_name && f.attrs@ == e.attrs@.drop_last() && f.namespace == e.namespace
                } else {
                    &&& r is None
                    &&& final(self).type_of(id) matches NodeType::Element(f) && f.local_name == e.local_name && f.attrs@ == e.attrs@ && f.namespace == e.namespace
                },
                _ => r is None && final(self).type_of(id) == old(self).type_of(id),
            },
    {
        if self.is_element(id) {
            let mut e = self.take_element(id);
            let popped = e.attrs.pop();
            self.put_element(id, e);
            popped
        } else {
            proof {
                assert forall|j: int| 0 <= j < self.len() && j != id@ implies #[trigger] self.nodes@[j] == self.nodes@[j] by {}
            }
            None
        }
    }

    /// Gives the first attribute of element `id` named `name` the value `value`, or adds such
    /// an attribute at the end when there is none.
    pub fn set_attr_value(&mut self, id: NodeId, name: String, value: Option<String>)
        requires
            old(self).wf(),
            old(self).valid(id),
        ensures
            Document::only_type_changed(*old(self), *final(self), id),
            match old(self).type_of(id) {
                NodeType::Element(e) => final(self).type_of(id) matches NodeType::Element(f) && f.local_name == e.local_name && f.namespace == e.namespace && ({
                    let k = first_named(e.attrs@, name@, 0);
                    if k >= 0 {
                        f.attrs@ == e.attrs@.update(k, Attr { name: e.attrs@[k].name, value: value })
                    } else {
                        f.attrs@ == e.attrs@.push(Attr { name: name, value: value })
                    }
                }),
                _ => final(self).type_of(id) == old(self).type_of(id),
            },
    {
        if self.is_element(id) {
            let mut e = self.take_element(id);
            let mut i: usize = 0;
            while i < e.attrs.len() && e.attrs[i].name != name
                invariant
                    i <= e.attrs@.len(),
                    first_named(e.attrs@, name@, 0) == first_named(e.attrs@, name@, i as int),
                decreases e.attrs@.len() - i,
            {
                i += 1;
            }
            proof {
                lemma_first_named_bounds(e.attrs@, name@, i as int);
            }
            let ghost e0 = e;
            if i < e.attrs.len() {
                let old_name = e.attrs[i].name.clone();
                proof {
                    assert(first_named(e0.attrs@, name@, i as int) == i);
                }
                e.attrs.set(i, Attr { name: old_name, value: value });
                proof {
                    assert(e.attrs@ == e0.attrs@.update(i as int, Attr { name: e0.attrs@[i as int].name, value: value }));
                }
            } else {
                e.attrs.push(Attr { name: name, value: value });
            }
            proof {
                assert(e.local_name == e0.local_name);
            }
            self.put_element(id, e);
        } else {
            proof {
                assert forall|j: int| 0 <= j < self.len() && j != id@ implies #[trigger] self.nodes@[j] == self.nodes@[j] by {}
            }
        }
    }

    /// Removes every attribute of element `id` named `name`.
    pub fn delete_attr(&mut self, id: NodeId, name: &str)
        requires
            old(self).wf(),
            old(self).valid(id),
        ensures
            Document::only_type_changed(*old(self), *final(self), id),
            match old(self).type_of(id) {
                NodeType::Element(e) => final(self).type_of(id) matches NodeType::Element(f) && f.local_name == e.local_name && f.namespace == e.namespace && f.attrs@ == without_name(e.attrs@, name@),
                _ => final(self).type_of(id) == old(self).type_of(id),
            },
    {
        if self.is_element(id) {
            let mut e = self.take_element(id);
            let ghost all = e.attrs@;
            let ghost e0 = e;
            let mut rest: Vec<Attr> = Vec::new();
            while e.attrs.len() > 0
                invariant
                    e.local_name == e0.local_name,
                    e.namespace == e0.namespace,
                    e.attrs@.len() <= all.len(),
                    e.attrs@ == all.take(e.attrs@.len() as int),
                    without_name(all, name@) == without_name(e.attrs@, name@) + rest@.reverse(),
                decreases e.attrs@.len(),
            {
                let ghost before = e.attrs@;
                let attr = e.attrs.pop().unwrap();
                proof {
                    assert(before.drop_last() =~= e.attrs@);
                    assert(e.attrs@ =~= all.take(e.attrs@.len() as int));
                }
                if !str_eq(attr.name.as_str(), name) {
                    let ghost r0 = rest@;
                    rest.push(attr);
                    proof {
                        assert(rest@.reverse() =~= seq![attr] + r0.reverse());
                        assert(without_name(before, name@) == without_name(e.attrs@, name@).push(attr));
                        assert(without_name(e.attrs@, name@).push(attr) + r0.reverse() =~= without_name(e.attrs@, name@) + rest@.reverse());
                    }
                }
            }
            let mut kept: Vec<Attr> = Vec::new();
            while rest.len() > 0
                invariant
                    without_name(all, name@) == kept@ + rest@.reverse(),
                decreases rest@.len(),
            {
                let ghost r0 = rest@;
                let attr = rest.pop().unwrap();
                let ghost k0 = kept@;
                kept.push(attr);
                proof {
                    assert(r0.reverse() =~= seq![attr] + rest@.reverse());
                    assert(k0 + r0.reverse() =~= kept@ + rest@.reverse());
                }
            }
            proof {
                assert(kept@ + rest@.reverse() =~= kept@);
            }
            e.attrs = kept;
            self.put_element(id, e);
        } else {
            proof {
                assert forall|j: int| 0 <= j < self.len() && j != id@ implies #[trigger] self.nodes@[j] == self.nodes@[j] by {}
            }
        }
    }
}

} // verus!
