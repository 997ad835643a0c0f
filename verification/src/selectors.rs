use vstd::prelude::*;
use crate::dom::{Document, NodeId, NodeType};
use crate::element::{last_named, value_view};
use crate::matcher::{ascii_ws, is_ascii_ws, is_token_at, range_equals};
use crate::parse::starts_with_ascii_case_insensitive;
use crate::text::{chars_of, eq_ignoring_ascii_case, str_eq, string_from_chars};

verus! {

/// An identifier, local name or namespace in a compiled selector.
#[derive(Clone, Debug, Default, PartialEq, Eq, Hash)]
pub struct Atom(pub String);

impl Atom {
    /// The atom's text.
    pub fn as_str(&self) -> (s: &str)
        ensures
            s@ == self.0@,
    {
        self.0.as_str()
    }

    /// The atom holding `value`.
    pub fn new(value: &str) -> (atom: Atom)
        ensures
            atom.0@ == value@,
    {
        let chars = chars_of(value);
        Atom(string_from_chars(&chars))
    }
}

/// The value an attribute selector compares against.
#[derive(Clone, Debug, Default, PartialEq, Eq)]
pub struct AttrValue(pub String);

impl AttrValue {
    /// The value's text.
    pub fn as_str(&self) -> (s: &str)
        ensures
            s@ == self.0@,
    {
        self.0.as_str()
    }

    /// The attribute value holding `value`.
    pub fn new(value: &str) -> (v: AttrValue)
        ensures
            v.0@ == value@,
    {
        let chars = chars_of(value);
        AttrValue(string_from_chars(&chars))
    }
}

/// Pseudo-classes beyond the standard ones: none are supported, so no value of this type exists.
#[derive(Clone, Copy, Debug, PartialEq, Eq)]
pub struct UnsupportedPseudoClass(pub core::convert::Infallible);

/// Pseudo-elements: none are supported, so no value of this type exists.
#[derive(Clone, Copy, Debug, PartialEq, Eq)]
pub struct UnsupportedPseudoElement(pub core::convert::Infallible);

/// The selector implementation of this library: its atoms, attribute values and (no) pseudo-classes.
#[derive(Clone, Debug, PartialEq, Eq)]
pub struct RustySelectorImpl;

/// The selector parser of this library.
#[derive(Clone, Copy, Debug)]
pub struct RustySelectorParser;

impl Default for RustySelectorParser {
    fn default() -> (parser: RustySelectorParser)
        ensures
            parser == RustySelectorParser,
    {
        RustySelectorParser
    }
}


/// Whether `a` and `b` are equal, ASCII letters compared without case when `ignore_case`.
pub open spec fn same_text(a: Seq<char>, b: Seq<char>, ignore_case: bool) -> bool {
    if ignore_case {
        eq_ignoring_ascii_case(a, b)
    } else {
        a == b
    }
}

/// Whether one of the pieces that `v` splits into at ASCII white space is `c` (see `same_text`).
pub open spec fn has_token_with(v: Seq<char>, c: Seq<char>, ignore_case: bool) -> bool {
    exists|i: int, j: int| is_token_at(v, i, j) && same_text(v.subrange(i, j), c, ignore_case)
}

fn same_range(x: &Vec<char>, from: usize, to: usize, c: &Vec<char>, ignore_case: bool) -> (r: bool)
    requires
        from <= to <= x@.len(),
    ensures
        r == same_text(x@.subrange(from as int, to as int), c@, ignore_case),
{
    if !ignore_case {
        return range_equals(x, from, to, c);
    }
    if to - from != c.len() {
        return false;
    }
    starts_with_ascii_case_insensitive(x, from, c)
}

/// Whether `a` equals `b`, ASCII letters compared without case when `ignore_case`.
pub fn same_text_exec(a: &str, b: &str, ignore_case: bool) -> (r: bool)
    ensures
        r == same_text(a@, b@, ignore_case),
{
    let x = chars_of(a);
    let y = chars_of(b);
    let r = same_range(&x, 0, x.len(), &y, ignore_case);
    proof {
        assert(x@.subrange(0, x@.len() as int) =~= x@);
    }
    r
}

/// Whether `c` is one of the pieces that `v` splits into at ASCII white space, ASCII letters
/// compared without case when `ignore_case`.
pub fn has_token_exec(v: &str, c: &str, ignore_case: bool) -> (r: bool)
    ensures
        r == has_token_with(v@, c@, ignore_case),
{
    let x = chars_of(v);
    let cc = chars_of(c);
    let n = x.len();
    let mut i: usize = 0;
    loop
        invariant
            n == x@.len(),
            x@ == v@,
            cc@ == c@,
            i <= n,
            i == 0 || i == n || is_ascii_ws(x@[i as int]),
            forall|a: int, b: int| is_token_at(x@, a, b) && a < i ==> !same_text(x@.subrange(a, b), c@, ignore_case),
        decreases n - i,
    {
        let head = i;
        while i < n && ascii_ws(x[i])
            invariant
                n == x@.len(),
                head <= i <= n,
                forall|k: int| head <= k < i ==> is_ascii_ws(#[trigger] x@[k]),
            decreases n - i,
        {
            i += 1;
        }
        if i == n {
            proof {
                assert forall|a: int, b: int| is_token_at(x@, a, b) implies !same_text(x@.subrange(a, b), c@, ignore_case) by {
                    if a >= head {
                        assert(is_ascii_ws(x@[a]));
                    }
                }
            }
            return false;
        }
        let start = i;
        while i < n && !ascii_ws(x[i])
            invariant
                n == x@.len(),
                start <= i <= n,
                forall|k: int| start <= k < i ==> !is_ascii_ws(#[trigger] x@[k]),
            decreases n - i,
        {
            i += 1;
        }
        proof {
            assert(start == 0 || is_ascii_ws(x@[start - 1])) by {
                if start > 0 && start == head {
                    assert(head == n || is_ascii_ws(x@[head as int]));
                }
            }
            assert(is_token_at(x@, start as int, i as int));
        }
        if same_range(&x, start, i, &cc, ignore_case) {
            return true;
        }
        proof {
            assert forall|a: int, b: int| is_token_at(x@, a, b) && a < i implies !same_text(x@.subrange(a, b), c@, ignore_case) by {
                if a >= head && a < start {
                    assert(is_ascii_ws(x@[a]));
                } else if a > start && a < i {
                    assert(!is_ascii_ws(x@[a - 1]));
                } else if a == start {
                    if b < i {
                        assert(!is_ascii_ws(x@[b]));
                    } else if b > i {
                        assert(!is_ascii_ws(x@[i as int]));
                    }
                }
            }
        }
    }
}

/// The value of the last attribute of `x` named `name`, if there is one and it has a value.
pub open spec fn attr_text(d: Document, x: NodeId, name: Seq<char>) -> Option<Seq<char>> {
    let attrs = d.attrs_of(x);
    let k = last_named(attrs, name, attrs.len() as int);
    if k >= 0 {
        value_view(attrs[k].value)
    } else {
        None
    }
}

/// Whether child `c` keeps its parent from matching `:empty`: an element, or text that is not
/// empty.
pub open spec fn blocks_empty(d: Document, c: NodeId) -> bool {
    match d.type_of(c) {
        NodeType::Element(_) => true,
        NodeType::Text(t) => t@.len() > 0,
        NodeType::CData(t) => t@.len() > 0,
        NodeType::Declaration(t) => t@.len() > 0,
        NodeType::TemplateString(t) => t@.len() > 0,
        _ => false,
    }
}

/// Whether the element is named `name`.
pub open spec fn named(d: Document, x: NodeId, name: Seq<char>) -> bool {
    d.type_of(x) matches NodeType::Element(e) && e.local_name@ == name
}

impl Document {
    /// Whether `id` is an element named `name`.
    pub fn has_local_name(&self, id: NodeId, name: &str) -> (r: bool)
        requires
            self.valid(id),
        ensures
            r == named(*self, id, name@),
    {
        match &self.nodes[id.index()].node_type {
            NodeType::Element(e) => str_eq(e.local_name.as_str(), name),
            _ => false,
        }
    }

    /// Whether `a` and `b` are elements of the same name and namespace.
    pub fn is_same_type(&self, a: NodeId, b: NodeId) -> (r: bool)
        requires
            self.valid(a),
            self.valid(b),
        ensures
            r == (self.type_of(a) matches NodeType::Element(x) && self.type_of(b) matches NodeType::Element(y)
                && x.local_name@ == y.local_name@ && crate::element::value_view(x.namespace) == crate::element::value_view(y.namespace)),
    {
        let x = match &self.nodes[a.index()].node_type {
            NodeType::Element(e) => e,
            _ => {
                return false;
            },
        };
        let y = match &self.nodes[b.index()].node_type {
            NodeType::Element(e) => e,
            _ => {
                return false;
            },
        };
        if !str_eq(x.local_name.as_str(), y.local_name.as_str()) {
            return false;
        }
        match (&x.namespace, &y.namespace) {
            (None, None) => true,
            (Some(p), Some(q)) => str_eq(p.as_str(), q.as_str()),
            _ => false,
        }
    }

    /// Whether `id` matches `:empty`: no child is an element or text that is not empty.
    pub fn is_empty_element(&self, id: NodeId) -> (r: bool)
        requires
            self.wf(),
            self.valid(id),
        ensures
            r == forall|k: int| 0 <= k < self.children(id).len() ==> !blocks_empty(*self, #[trigger] self.children(id)[k]),
    {
        let kids = self.child_nodes(id);
        proof {
            self.lemma_children(id);
        }
        let mut i: usize = 0;
        while i < kids.len()
            invariant
                kids@ == self.children(id),
                forall|k: int| 0 <= k < kids@.len() ==> self.valid(#[trigger] kids@[k]),
                i <= kids@.len(),
                forall|k: int| 0 <= k < i ==> !blocks_empty(*self, #[trigger] kids@[k]),
            decreases kids@.len() - i,
        {
            let blocks = match &self.nodes[kids[i].index()].node_type {
                NodeType::Element(_) => true,
                NodeType::Text(t) => t.unicode_len() > 0,
                NodeType::CData(t) => t.unicode_len() > 0,
                NodeType::Declaration(t) => t.unicode_len() > 0,
                NodeType::TemplateString(t) => t.unicode_len() > 0,
                _ => false,
            };
            if blocks {
                return false;
            }
            i += 1;
        }
        true
    }

    /// Whether `id`'s parent is the document node.
    pub fn is_root_element(&self, id: NodeId) -> (r: bool)
        requires
            self.wf(),
            self.valid(id),
        ensures
            r == (self.parent_of(id) matches Some(p) && self.type_of(p) is Document),
    {
        proof {
            self.lemma_wf_parent(id);
        }
        match self.nodes[id.index()].parent {
            Some(p) => match &self.nodes[p.index()].node_type {
                NodeType::Document => true,
                _ => false,
            },
            None => false,
        }
    }

    /// Whether `id` is an `a` element with an `href` value.
    pub fn is_link(&self, id: NodeId) -> (r: bool)
        requires
            self.valid(id),
        ensures
            r == (named(*self, id, "a"@) && attr_text(*self, id, "href"@) is Some),
    {
        proof {
            reveal_strlit("a");
            reveal_strlit("href");
        }
        self.has_local_name(id, "a") && self.attr(id, "href").is_some()
    }

    /// Whether `id` is a `slot` element.
    pub fn is_html_slot_element(&self, id: NodeId) -> (r: bool)
        requires
            self.valid(id),
        ensures
            r == named(*self, id, "slot"@),
    {
        self.has_local_name(id, "slot")
    }

    /// Whether the `id` attribute of `id` is `name` (see `same_text`).
    pub fn has_id(&self, id: NodeId, name: &str, ignore_case: bool) -> (r: bool)
        requires
            self.valid(id),
        ensures
            r == (attr_text(*self, id, "id"@) matches Some(v) && same_text(v, name@, ignore_case)),
    {
        proof {
            reveal_strlit("id");
        }
        match self.attr(id, "id") {
            Some(v) => same_text_exec(v, name, ignore_case),
            None => false,
        }
    }

    /// Whether the `class` attribute of `id` lists `name` (see `same_text`).
    pub fn has_class(&self, id: NodeId, name: &str, ignore_case: bool) -> (r: bool)
        requires
            self.valid(id),
        ensures
            r == (attr_text(*self, id, "class"@) matches Some(v) && has_token_with(v, name@, ignore_case)),
    {
        proof {
            reveal_strlit("class");
        }
        match self.attr(id, "class") {
            Some(v) => has_token_exec(v, name, ignore_case),
            None => false,
        }
    }
}

} // verus!
