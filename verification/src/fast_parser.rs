use vstd::prelude::*;
use crate::dom::{
    group_node_id, DoctypeData, Document, ElementData, NodeId, NodeType, ProcessingInstructionData,
};
use crate::matcher::{
    ascii_ws, find_char_from, find_from, is_ascii_ws, lemma_find_from, range_vec, to_ascii_lowercase,
};
use crate::parse::{
    decode_fast_entities, fast_local_name, fast_name_end, is_fast_unsupported_name,
    is_fast_unsupported_tag, is_preserve_whitespace_tag, normalize_fast_name, normalize_text_value,
    normalized_whitespace, parse_fast_attrs, starts_ignoring_case, starts_with_ascii_case_insensitive,
    trim_ascii, trim_ascii_end, append_normalized_text,
};
use crate::fast_model::{
    children_in_order, comment_step, doc_nodes, doctype_step, element_name, end_tag_step, fast_nodes,
    fast_run, fast_step, ids_increase, initial_state, instruction_step, kind_of, last_open_named,
    lemma_doc_nodes_append, lemma_doc_nodes_update, lemma_last_child, last_child_of, markup_step, open_top,
    raw_text_name, raw_text_step, start_tag_step, text_step, with_node, with_text, FastState, Kind,
};
use crate::pseudo::{starts_at, starts_with_at};
use crate::text::{chars_of, is_void_element, str_eq, string_from_chars, string_from_range};

verus! {

/// Whether `</name` followed by white space, `/` or `>` starts at `open` in `s`, the name
/// compared without ASCII case.
pub open spec fn closes_raw_text_at(s: Seq<char>, open: int, name: Seq<char>) -> bool {
    &&& 0 <= open
    &&& open + 2 + name.len() < s.len()
    &&& s[open] == '<'
    &&& s[open + 1] == '/'
    &&& starts_ignoring_case(s, open + 2, name)
    &&& is_ascii_ws(s[open + 2 + name.len()]) || s[open + 2 + name.len()] == '/' || s[open + 2 + name.len()] == '>'
}

/// Where the first end tag of the raw text element `name` at or after `i` starts.
pub open spec fn raw_text_end(s: Seq<char>, i: int, name: Seq<char>) -> Option<int>
    decreases s.len() - i,
{
    if i < 0 || i >= s.len() {
        None
    } else if closes_raw_text_at(s, i, name) {
        Some(i)
    } else {
        raw_text_end(s, i + 1, name)
    }
}

proof fn lemma_raw_text_end(s: Seq<char>, i: int, name: Seq<char>)
    ensures
        raw_text_end(s, i, name) matches Some(k) ==> i <= k && closes_raw_text_at(s, k, name),
    decreases s.len() - i,
{
    if 0 <= i < s.len() && !closes_raw_text_at(s, i, name) {
        lemma_raw_text_end(s, i + 1, name);
    }
}

/// Where the start or end tag whose text begins at `i` closes: the first `>` outside quotes,
/// `quote` being the quote character open at `i`, if any.
pub open spec fn tag_close_scan(s: Seq<char>, i: int, quote: Option<char>) -> Option<int>
    decreases s.len() - i,
{
    if i < 0 || i >= s.len() {
        None
    } else {
        match quote {
            Some(q) => if s[i] == q {
                tag_close_scan(s, i + 1, None)
            } else {
                tag_close_scan(s, i + 1, quote)
            },
            None => if s[i] == '\'' || s[i] == '"' {
                tag_close_scan(s, i + 1, Some(s[i]))
            } else if s[i] == '>' {
                Some(i)
            } else {
                tag_close_scan(s, i + 1, None)
            },
        }
    }
}

/// Where the first `-->` at or after `i` starts.
pub open spec fn comment_end(s: Seq<char>, i: int) -> Option<int>
    decreases s.len() - i,
{
    if i < 0 || i + 3 > s.len() {
        None
    } else if s[i] == '-' && s[i + 1] == '-' && s[i + 2] == '>' {
        Some(i)
    } else {
        comment_end(s, i + 1)
    }
}

/// Whether node `i` of `d` is an element named `n`.
pub open spec fn element_named_at(d: Document, i: int, n: Seq<char>) -> bool {
    0 <= i < d.len() && (d.nodes@[i].node_type matches NodeType::Element(e) && e.local_name@ == n)
}

/// Whether `d` holds an element named `n`.
pub open spec fn has_element_named(d: Document, n: Seq<char>) -> bool {
    exists|i: int| #[trigger] element_named_at(d, i, n)
}

/// Whether node `i` of `d`, if an element, has a name that the quick parser takes.
pub open spec fn supported_at(d: Document, i: int) -> bool {
    d.nodes@[i].node_type matches NodeType::Element(e) ==> !is_fast_unsupported_name(e.local_name@)
}

/// Whether every element of `d` has a name that the quick parser takes.
pub open spec fn elements_supported(d: Document) -> bool {
    forall|i: int| 0 <= i < d.len() ==> #[trigger] supported_at(d, i)
}

/// Whether node `x` of `d` is a template element.
pub open spec fn is_template_at(d: Document, x: NodeId) -> bool {
    d.type_of(x) matches NodeType::Element(e) && e.local_name@ == "template"@
}

/// Whether, walking the list `anc` of ancestors from `k` on, a template element comes before
/// any raw text element.
pub open spec fn template_first(d: Document, anc: Seq<NodeId>, k: int) -> bool
    decreases anc.len() - k,
{
    if k < 0 || k >= anc.len() {
        false
    } else if d.is_raw_text_at(anc[k]) {
        false
    } else if is_template_at(d, anc[k]) {
        true
    } else {
        template_first(d, anc, k + 1)
    }
}

/// Whether text at `x` belongs to the contents of a template: its nearest ancestor that is a
/// template or a raw text element is a template.
pub open spec fn in_template_content(d: Document, x: NodeId) -> bool {
    template_first(d, d.ancestors(x), 0)
}

/// Whether node `x` is text that the contents of a template hold.
pub open spec fn is_template_text(d: Document, x: NodeId) -> bool {
    d.type_of(x) is Text && in_template_content(d, x)
}

/// What node `x` becomes once text in the contents of templates is marked as template strings.
pub open spec fn template_marked(d: Document, x: NodeId) -> NodeType {
    match d.type_of(x) {
        NodeType::Text(t) => if in_template_content(d, x) {
            NodeType::TemplateString(t)
        } else {
            NodeType::Text(t)
        },
        other => other,
    }
}

/// Where the first end tag of the raw text element `name` at or after `start` begins.
pub fn find_raw_text_end(s: &Vec<char>, start: usize, name: &Vec<char>) -> (r: Option<usize>)
    requires
        start <= s@.len(),
    ensures
        match r {
            Some(k) => raw_text_end(s@, start as int, name@) == Some(k as int),
            None => raw_text_end(s@, start as int, name@) is None,
        },
{
    let n = s.len();
    let mut i = start;
    while i < n
        invariant
            start <= i <= n,
            n == s@.len(),
            raw_text_end(s@, start as int, name@) == raw_text_end(s@, i as int, name@),
        decreases n - i,
    {
        if s[i] == '<' && n - i > 2 && n - i - 2 > name.len() && s[i + 1] == '/'
            && starts_with_ascii_case_insensitive(s, i + 2, name) {
            let c = s[i + 2 + name.len()];
            if ascii_ws(c) || c == '/' || c == '>' {
                return Some(i);
            }
        }
        i += 1;
    }
    None
}

/// Where the tag whose text begins at `index` closes: the first `>` outside quotes.
fn find_tag_close(s: &Vec<char>, index: usize) -> (r: Option<usize>)
    requires
        index <= s@.len(),
    ensures
        match r {
            Some(k) => tag_close_scan(s@, index as int, None) == Some(k as int) && index <= k < s@.len(),
            None => tag_close_scan(s@, index as int, None) is None,
        },
{
    let n = s.len();
    let mut i = index;
    let mut quote: Option<char> = None;
    while i < n
        invariant
            index <= i <= n,
            n == s@.len(),
            tag_close_scan(s@, index as int, None) == tag_close_scan(s@, i as int, quote),
        decreases n - i,
    {
        let c = s[i];
        match quote {
            Some(q) => {
                if c == q {
                    quote = None;
                }
            },
            None => {
                if c == '\'' || c == '"' {
                    quote = Some(c);
                } else if c == '>' {
                    return Some(i);
                }
            },
        }
        i += 1;
    }
    None
}

/// Where the first `-->` at or after `start` begins.
fn find_comment_end(s: &Vec<char>, start: usize) -> (r: Option<usize>)
    requires
        start <= s@.len(),
    ensures
        match r {
            Some(k) => comment_end(s@, start as int) == Some(k as int) && start <= k && k + 3 <= s@.len(),
            None => comment_end(s@, start as int) is None,
        },
{
    let n = s.len();
    let mut i = start;
    while i < n && n - i >= 3
        invariant
            start <= i,
            n == s@.len(),
            comment_end(s@, start as int) == comment_end(s@, i as int),
        decreases n - i,
    {
        if s[i] == '-' && s[i + 1] == '-' && s[i + 2] == '>' {
            return Some(i);
        }
        i += 1;
    }
    None
}

/// Whether `anc[k..]` meets a template element before any raw text element.
fn template_comes_first(document: &Document, anc: &Vec<NodeId>) -> (r: bool)
    requires
        forall|k: int| 0 <= k < anc@.len() ==> document.valid(#[trigger] anc@[k]),
    ensures
        r == template_first(*document, anc@, 0),
{
    let mut k: usize = 0;
    while k < anc.len()
        invariant
            k <= anc@.len(),
            forall|j: int| 0 <= j < anc@.len() ==> document.valid(#[trigger] anc@[j]),
            template_first(*document, anc@, 0) == template_first(*document, anc@, k as int),
        decreases anc@.len() - k,
    {
        if document.is_raw_text_element_node(anc[k]) {
            return false;
        }
        if document.is_template_element(anc[k]) {
            return true;
        }
        k += 1;
    }
    false
}

/// Marks the text in the contents of templates as template strings, except where a raw text
/// element lies between: such text stays as it is.
pub fn mark_template_content_strings(document: &mut Document)
    requires
        old(document).wf(),
    ensures
        final(document).wf(),
        final(document).len() == old(document).len(),
        final(document).root == old(document).root,
        final(document).root_decomposed == old(document).root_decomposed,
        forall|x: NodeId| #[trigger] final(document).children(x) == old(document).children(x),
        forall|x: NodeId| old(document).valid(x) ==> #[trigger] final(document).type_of(x) == template_marked(*old(document), x),
{
    broadcast use group_node_id;
    let ghost orig = *document;
    let n = document.nodes.len();
    proof {
        orig.lemma_wf_basic();
    }
    let mut marks: Vec<(NodeId, String)> = Vec::new();
    let mut i: usize = 0;
    while i < n
        invariant
            *document == orig,
            n == orig.len(),
            n <= u32::MAX,
            orig.wf(),
            i <= n,
            forall|k: int| 0 <= k < marks@.len() ==> {
                &&& #[trigger] marks@[k].0@ < i
                &&& orig.valid(marks@[k].0)
                &&& is_template_text(orig, marks@[k].0)
                &&& orig.type_of(marks@[k].0) == NodeType::Text(marks@[k].1)
            },
            forall|k1: int, k2: int| 0 <= k1 < k2 < marks@.len() ==> (#[trigger] marks@[k1]).0@ < (#[trigger] marks@[k2]).0@,
            forall|y: NodeId| y@ < i && #[trigger] is_template_text(orig, y) ==> exists|k: int| 0 <= k < marks@.len() && (#[trigger] marks@[k]).0 == y,
        decreases n - i,
    {
        let x = NodeId::new(i);
        let ghost old_marks = marks@;
        let text = match &document.nodes[i].node_type {
            NodeType::Text(t) => Some(t.clone()),
            _ => None,
        };
        match text {
            Some(t) => {
                let anc = document.parent_nodes(x);
                proof {
                    document.lemma_ancestors(x);
                }
                if template_comes_first(document, &anc) {
                    marks.push((x, t));
                    proof {
                        assert(marks@[marks@.len() - 1].0 == x);
                    }
                }
            },
            None => {},
        }
        proof {
            assert forall|y: NodeId| y@ < i + 1 && #[trigger] is_template_text(orig, y) implies exists|k: int| 0 <= k < marks@.len() && (#[trigger] marks@[k]).0 == y by {
                broadcast use group_node_id;
                if y@ == i {
                    assert(x@ == y@);
                    assert(y == x);
                    assert(marks@[marks@.len() - 1].0 == x);
                } else {
                    let k = choose|k: int| 0 <= k < old_marks.len() && (#[trigger] old_marks[k]).0 == y;
                    assert(marks@[k] == old_marks[k]);
                }
            }
        }
        i += 1;
    }
    let mut j: usize = 0;
    while j < marks.len()
        invariant
            j <= marks@.len(),
            orig.wf(),
            document.wf(),
            document.len() == orig.len(),
            document.root == orig.root,
            document.root_decomposed == orig.root_decomposed,
            forall|x: NodeId| #[trigger] document.children(x) == orig.children(x),
            forall|k: int| 0 <= k < marks@.len() ==> {
                &&& orig.valid(#[trigger] marks@[k].0)
                &&& is_template_text(orig, marks@[k].0)
                &&& orig.type_of(marks@[k].0) == NodeType::Text(marks@[k].1)
            },
            forall|y: NodeId| orig.valid(y) ==> #[trigger] document.type_of(y) == (
                if exists|k: int| 0 <= k < j && (#[trigger] marks@[k]).0 == y { template_marked(orig, y) } else { orig.type_of(y) }),
        decreases marks@.len() - j,
    {
        let x = marks[j].0;
        let t = marks[j].1.clone();
        let ghost before = *document;
        let _ = document.replace_node_type(x, NodeType::TemplateString(t));
        proof {
            assert forall|y: NodeId| orig.valid(y) implies #[trigger] document.type_of(y) == (
                if exists|k: int| 0 <= k < j + 1 && (#[trigger] marks@[k]).0 == y { template_marked(orig, y) } else { orig.type_of(y) }) by {
                broadcast use group_node_id;
                if y == x {
                    assert(marks@[j as int].0 == y);
                } else {
                    assert(x@ != y@);
                    assert(document.type_of(y) == before.type_of(y));
                    if exists|k: int| 0 <= k < j + 1 && (#[trigger] marks@[k]).0 == y {
                        let k = choose|k: int| 0 <= k < j + 1 && (#[trigger] marks@[k]).0 == y;
                        assert(k < j);
                    }
                }
            }
        }
        j += 1;
    }
    proof {
        assert forall|y: NodeId| orig.valid(y) implies #[trigger] document.type_of(y) == template_marked(orig, y) by {
            if exists|k: int| 0 <= k < marks@.len() && (#[trigger] marks@[k]).0 == y {
            } else {
                if is_template_text(orig, y) {
                    assert(y@ < n);
                }
            }
        }
    }
}

/// The state of the quick parser: the source, where it stands, the document built so far, the
/// open elements (the document root first) and whether each keeps its white space.
struct FastParser {
    chars: Vec<char>,
    pos: usize,
    document: Document,
    stack: Vec<NodeId>,
    preserve_stack: Vec<bool>,
    saw_html: bool,
    saw_body: bool,
    require_full_document: bool,
}

impl FastParser {
    /// What holds of the parser whatever it has read.
    spec fn wf_core(self) -> bool {
        let d = self.document;
        &&& d.wf()
        &&& d.root@ == 0
        &&& !d.root_decomposed
        &&& d.type_of(d.root) == NodeType::Document
        &&& self.stack@.len() >= 1
        &&& self.stack@[0] == d.root
        &&& self.preserve_stack@.len() == self.stack@.len()
        &&& forall|i: int| 0 <= i < self.stack@.len() ==> d.valid(#[trigger] self.stack@[i])
        &&& forall|i: int| 1 <= i < self.stack@.len() ==> d.type_of(#[trigger] self.stack@[i]) is Element
        &&& self.chars@.len() + 2 < u32::MAX
        &&& elements_supported(d)
        &&& self.saw_html ==> has_element_named(d, "html"@)
        &&& self.saw_body ==> has_element_named(d, "body"@)
        &&& children_in_order(d)
    }

    /// Where the parser stands, as plain values.
    spec fn state(self) -> FastState {
        FastState {
            pos: self.pos as int,
            nodes: doc_nodes(self.document),
            stack: self.stack@.map_values(|x: NodeId| x@ as int),
            preserve: self.preserve_stack@,
            saw_html: self.saw_html,
            saw_body: self.saw_body,
        }
    }

    /// What holds between steps: the parser stands in the source, and has made at most one
    /// node for each character read.
    spec fn wf(self) -> bool {
        &&& self.wf_core()
        &&& self.pos <= self.chars@.len()
        &&& self.document.len() <= self.pos + 1
    }

    spec fn same_input(self, other: Self) -> bool {
        self.chars@ == other.chars@ && self.require_full_document == other.require_full_document
    }

    fn new(chars: Vec<char>, require_full_document: bool) -> (p: FastParser)
        requires
            chars@.len() + 2 < u32::MAX,
        ensures
            p.wf(),
            p.pos == 0,
            p.chars == chars,
            p.require_full_document == require_full_document,
            p.state() == initial_state(),
    {
        let document = Document::empty();
        let root = document.root;
        let p = FastParser {
            chars,
            pos: 0,
            document,
            stack: vec![root],
            preserve_stack: vec![false],
            saw_html: false,
            saw_body: false,
            require_full_document,
        };
        proof {
            broadcast use group_node_id;
            assert(supported_at(p.document, 0));
            assert forall|q: NodeId| p.document.valid(q) implies ids_increase(#[trigger] p.document.children(q)) by {
                assert(q@ == 0);
                assert(q == p.document.root);
            }
            assert(p.document.nodes@[0].parent is None);
            assert(p.document.nodes@[0].node_type == NodeType::Document);
            assert(doc_nodes(p.document) =~= seq![(Kind::Document, -1int)]);
            assert(p.stack@.map_values(|x: NodeId| x@ as int) =~= seq![0int]);
            assert(p.preserve_stack@ =~= seq![false]);
            assert(p.state() =~= initial_state());
        }
        p
    }

    /// Adds a node of the given kind as the last child of `parent`.
    fn append_node(&mut self, parent: NodeId, node_type: NodeType) -> (id: NodeId)
        requires
            old(self).wf_core(),
            old(self).document.valid(parent),
            old(self).document.len() + 1 < u32::MAX,
            node_type matches NodeType::Element(e) ==> !is_fast_unsupported_name(e.local_name@),
        ensures
            final(self).wf_core(),
            final(self).same_input(*old(self)),
            final(self).pos == old(self).pos,
            final(self).stack == old(self).stack,
            final(self).preserve_stack == old(self).preserve_stack,
            final(self).saw_html == old(self).saw_html,
            final(self).saw_body == old(self).saw_body,
            final(self).document.len() == old(self).document.len() + 1,
            id@ == old(self).document.len(),
            final(self).document.type_of(id) == node_type,
            final(self).state() == with_node(old(self).state(), parent@ as int, kind_of(node_type)),
    {
        let ghost before = self.document;
        let ghost t = node_type;
        let ghost st = self.state();
        let id = self.document.append_new(parent, node_type);
        proof {
            let d = self.document;
            before.lemma_wf_basic();
            lemma_doc_nodes_append(before, d, parent, t, id);
            assert(self.state() =~= with_node(st, parent@ as int, kind_of(t)));
            assert forall|q: NodeId| d.valid(q) implies ids_increase(#[trigger] d.children(q)) by {
                if q == parent {
                    assert(ids_increase(before.children(q)));
                    before.lemma_children(q);
                    assert forall|i: int, j: int| 0 <= i < j < d.children(q).len() implies (#[trigger] d.children(q)[i])@ < (#[trigger] d.children(q)[j])@ by {
                        if j == d.children(q).len() - 1 {
                            assert(before.valid(before.children(q)[i]));
                        } else {
                            assert(d.children(q)[i] == before.children(q)[i]);
                            assert(d.children(q)[j] == before.children(q)[j]);
                        }
                    }
                } else if q == id {
                } else {
                    broadcast use group_node_id;
                    assert(q@ != id@);
                    assert(before.valid(q));
                    assert(ids_increase(before.children(q)));
                }
            }
            assert(d.type_of(d.root) == before.type_of(before.root));
            assert forall|i: int| 0 <= i < self.stack@.len() implies d.valid(#[trigger] self.stack@[i]) by {
                assert(before.valid(self.stack@[i]));
            }
            assert forall|i: int| 1 <= i < self.stack@.len() implies d.type_of(#[trigger] self.stack@[i]) is Element by {
                assert(before.valid(self.stack@[i]));
                assert(before.type_of(self.stack@[i]) is Element);
                assert(d.nodes@[self.stack@[i]@ as int].node_type == before.nodes@[self.stack@[i]@ as int].node_type);
            }
            assert forall|i: int| 0 <= i < d.len() implies #[trigger] supported_at(d, i) by {
                if i < before.len() {
                    assert(supported_at(before, i));
                    assert(d.nodes@[i].node_type == before.nodes@[i].node_type);
                }
            }
            if self.saw_html {
                let w = choose|i: int| #[trigger] element_named_at(before, i, "html"@);
                assert(d.nodes@[w].node_type == before.nodes@[w].node_type);
                assert(element_named_at(d, w, "html"@));
            }
            if self.saw_body {
                let w = choose|i: int| #[trigger] element_named_at(before, i, "body"@);
                assert(d.nodes@[w].node_type == before.nodes@[w].node_type);
                assert(element_named_at(d, w, "body"@));
            }
        }
        id
    }

    /// Puts the text `t` in place of the text of node `id`.
    fn replace_text(&mut self, id: NodeId, t: String)
        requires
            old(self).wf_core(),
            old(self).document.valid(id),
            old(self).document.type_of(id) is Text,
        ensures
            final(self).wf_core(),
            final(self).same_input(*old(self)),
            final(self).pos == old(self).pos,
            final(self).stack == old(self).stack,
            final(self).preserve_stack == old(self).preserve_stack,
            final(self).saw_html == old(self).saw_html,
            final(self).saw_body == old(self).saw_body,
            final(self).document.len() == old(self).document.len(),
            final(self).state() == (FastState {
                nodes: old(self).state().nodes.update(id@ as int, (Kind::Text(t@), old(self).state().nodes[id@ as int].1)),
                ..old(self).state()
            }),
    {
        let ghost before = self.document;
        let ghost st = self.state();
        let ghost tv = t@;
        let _ = self.document.replace_node_type(id, NodeType::Text(t));
        proof {
            let d = self.document;
            lemma_doc_nodes_update(before, d, id, NodeType::Text(t));
            assert(self.state() =~= (FastState {
                nodes: st.nodes.update(id@ as int, (Kind::Text(tv), st.nodes[id@ as int].1)),
                ..st
            }));
            assert forall|q: NodeId| d.valid(q) implies ids_increase(#[trigger] d.children(q)) by {
                assert(before.valid(q));
            }
            assert(d.type_of(d.root) == before.type_of(before.root));
            assert forall|i: int| 1 <= i < self.stack@.len() implies d.type_of(#[trigger] self.stack@[i]) is Element by {
                assert(before.valid(self.stack@[i]));
                assert(before.type_of(self.stack@[i]) is Element);
            }
            assert forall|i: int| 0 <= i < d.len() implies #[trigger] supported_at(d, i) by {
                assert(supported_at(before, i));
            }
            if self.saw_html {
                let w = choose|i: int| #[trigger] element_named_at(before, i, "html"@);
                assert(element_named_at(d, w, "html"@));
            }
            if self.saw_body {
                let w = choose|i: int| #[trigger] element_named_at(before, i, "body"@);
                assert(element_named_at(d, w, "body"@));
            }
        }
    }

    /// Adds the text `text` at the end of `parent`: merged into the last child when that is
    /// text, as a new text node otherwise.
    fn append_fast_text(&mut self, parent: NodeId, text: &str, preserve_whitespace: bool)
        requires
            old(self).wf_core(),
            old(self).document.valid(parent),
            old(self).document.len() + 1 < u32::MAX,
        ensures
            final(self).wf_core(),
            final(self).same_input(*old(self)),
            final(self).pos == old(self).pos,
            final(self).stack == old(self).stack,
            final(self).preserve_stack == old(self).preserve_stack,
            final(self).saw_html == old(self).saw_html,
            final(self).saw_body == old(self).saw_body,
            final(self).document.len() <= old(self).document.len() + 1,
            final(self).state() == with_text(old(self).state(), parent@ as int, text@, preserve_whitespace),
    {
        let ghost st = self.state();
        let t = normalize_text_value(text, preserve_whitespace);
        proof {
            self.document.lemma_children(parent);
            lemma_last_child(self.document, parent);
        }
        let last = self.document.nodes[parent.index()].last_child;
        match last {
            Some(l) => {
                proof {
                    let kids = self.document.children(parent);
                    assert(kids.len() > 0);
                    assert(l == kids[kids.len() - 1]);
                    assert(self.document.parent_of(l) == Some(parent));
                    assert(st.nodes[l@ as int].1 == parent@ as int);
                    assert(last_child_of(st.nodes, parent@ as int, st.nodes.len() as int) == Some(l@ as int));
                }
                let existing = match &self.document.nodes[l.index()].node_type {
                    NodeType::Text(e) => Some(e.clone()),
                    _ => None,
                };
                match existing {
                    Some(e) => {
                        proof {
                            assert(st.nodes[l@ as int].0 == Kind::Text(e@));
                        }
                        let mut merged = e;
                        append_normalized_text(&mut merged, t.as_str(), preserve_whitespace);
                        self.replace_text(l, merged);
                        return;
                    },
                    None => {
                        proof {
                            assert(!(st.nodes[l@ as int].0 is Text));
                        }
                    },
                }
            },
            None => {},
        }
        let _ = self.append_node(parent, NodeType::Text(t));
    }

    /// Reads the source up to `end` as text of the open element.
    fn append_text_to(&mut self, end: usize) -> (r: bool)
        requires
            old(self).wf(),
            old(self).pos <= end <= old(self).chars@.len(),
        ensures
            final(self).same_input(*old(self)),
            r ==> final(self).wf() && final(self).pos == end,
            r == text_step(old(self).chars@, old(self).require_full_document, old(self).state(), end as int) is Some,
            r ==> final(self).state() == text_step(old(self).chars@, old(self).require_full_document, old(self).state(), end as int).unwrap(),
    {
        let ghost st = self.state();
        if self.pos >= end {
            return true;
        }
        let start = self.pos;
        let top = self.stack.len() - 1;
        let parent = self.stack[top];
        let preserve_whitespace = self.preserve_stack[top];
        let raw = range_vec(&self.chars, start, end);
        let text = if !preserve_whitespace && find_char_from(&raw, 0, '&') < raw.len() {
            match decode_fast_entities(&raw) {
                Some(t) => t,
                None => {
                    return false;
                },
            }
        } else {
            string_from_chars(&raw)
        };
        proof {
            assert(self.document.valid(self.stack@[top as int]));
            assert(st.stack.last() == parent@ as int);
            assert(st.preserve.last() == preserve_whitespace);
            assert(raw@ == self.chars@.subrange(st.pos, end as int));
            broadcast use group_node_id;
            let root = self.document.root;
            self.document.lemma_children(root);
            lemma_last_child(self.document, root);
        }
        let skip = if self.require_full_document && parent.index() == 0
            && self.document.nodes[0].first_child.is_none() {
            normalized_whitespace(&chars_of(text.as_str())).is_some()
        } else {
            false
        };
        if !skip {
            self.append_fast_text(parent, text.as_str(), preserve_whitespace);
        }
        self.pos = end;
        proof {
            assert(self.state() =~= text_step(self.chars@, self.require_full_document, st, end as int).unwrap());
        }
        true
    }

    /// The name of the open element if it holds raw text (`script`, `style` or `textarea`).
    fn current_raw_text_name(&self) -> (r: Option<&'static str>)
        requires
            self.wf_core(),
        ensures
            match r {
                Some(n) => raw_text_name(self.state()) == Some(n@),
                None => raw_text_name(self.state()) is None,
            },
    {
        let top = self.stack[self.stack.len() - 1];
        proof {
            assert(self.document.valid(self.stack@[self.stack@.len() - 1]));
            assert(self.state().stack.last() == top@ as int);
            assert(self.state().nodes[top@ as int].0 == kind_of(self.document.nodes@[top@ as int].node_type));
            reveal_strlit("script");
            reveal_strlit("style");
            reveal_strlit("textarea");
        }
        match &self.document.nodes[top.index()].node_type {
            NodeType::Element(e) => {
                if str_eq(e.local_name.as_str(), "script") {
                    Some("script")
                } else if str_eq(e.local_name.as_str(), "style") {
                    Some("style")
                } else if str_eq(e.local_name.as_str(), "textarea") {
                    Some("textarea")
                } else {
                    None
                }
            },
            _ => None,
        }
    }

    /// Reads the text of the open raw text element `name` and its end tag.
    fn parse_raw_text(&mut self, name: &str) -> (r: bool)
        requires
            old(self).wf(),
            old(self).pos < old(self).chars@.len(),
        ensures
            final(self).same_input(*old(self)),
            r ==> final(self).wf() && final(self).pos > old(self).pos,
            r == raw_text_step(old(self).chars@, old(self).require_full_document, old(self).state(), name@) is Some,
            r ==> final(self).state() == raw_text_step(old(self).chars@, old(self).require_full_document, old(self).state(), name@).unwrap(),
    {
        let name_chars = chars_of(name);
        let close = match find_raw_text_end(&self.chars, self.pos, &name_chars) {
            Some(c) => c,
            None => {
                return false;
            },
        };
        proof {
            lemma_raw_text_end(self.chars@, self.pos as int, name_chars@);
        }
        if !self.append_text_to(close) {
            return false;
        }
        self.parse_end_tag()
    }

    /// Reads the markup that starts at `<`.
    fn parse_markup(&mut self) -> (r: bool)
        requires
            old(self).wf(),
            old(self).pos < old(self).chars@.len(),
        ensures
            final(self).same_input(*old(self)),
            r ==> final(self).wf() && final(self).pos > old(self).pos,
            r == markup_step(old(self).chars@, old(self).state()) is Some,
            r ==> final(self).state() == markup_step(old(self).chars@, old(self).state()).unwrap(),
    {
        let comment_open = chars_of("<!--");
        let doctype_open = chars_of("<!doctype");
        let end_open = chars_of("</");
        let pi_open = chars_of("<?");
        let bang_open = chars_of("<!");
        proof {
            reveal_strlit("<!--");
            reveal_strlit("<!doctype");
            reveal_strlit("</");
            reveal_strlit("<?");
            reveal_strlit("<!");
        }
        if starts_with_at(&self.chars, self.pos, &comment_open) {
            return self.parse_comment();
        }
        if starts_with_ascii_case_insensitive(&self.chars, self.pos, &doctype_open) {
            return self.parse_doctype();
        }
        if starts_with_at(&self.chars, self.pos, &end_open) {
            return self.parse_end_tag();
        }
        if starts_with_at(&self.chars, self.pos, &pi_open) {
            return self.parse_processing_instruction();
        }
        if starts_with_at(&self.chars, self.pos, &bang_open) {
            return false;
        }
        self.parse_start_tag()
    }

    /// Reads a comment `<!--...-->`.
    fn parse_comment(&mut self) -> (r: bool)
        requires
            old(self).wf(),
            old(self).pos + 4 <= old(self).chars@.len(),
        ensures
            final(self).same_input(*old(self)),
            r ==> final(self).wf() && final(self).pos > old(self).pos,
            r == comment_step(old(self).chars@, old(self).state()) is Some,
            r ==> final(self).state() == comment_step(old(self).chars@, old(self).state()).unwrap(),
    {
        let ghost st = self.state();
        let value_start = self.pos + 4;
        let close = match find_comment_end(&self.chars, value_start) {
            Some(c) => c,
            None => {
                return false;
            },
        };
        let text = string_from_range(&self.chars, value_start, close);
        let parent = self.stack[self.stack.len() - 1];
        proof {
            assert(self.document.valid(self.stack@[self.stack@.len() - 1]));
        }
        proof {
            assert(st.stack.last() == parent@ as int);
        }
        let _ = self.append_node(parent, NodeType::Comment(text));
        self.pos = close + 3;
        proof {
            assert(self.state() =~= comment_step(self.chars@, st).unwrap());
        }
        true
    }

    /// Reads a processing instruction `<?...>`.
    fn parse_processing_instruction(&mut self) -> (r: bool)
        requires
            old(self).wf(),
            old(self).pos + 2 <= old(self).chars@.len(),
        ensures
            final(self).same_input(*old(self)),
            r ==> final(self).wf() && final(self).pos > old(self).pos,
            r == instruction_step(old(self).chars@, old(self).state()) is Some,
            r ==> final(self).state() == instruction_step(old(self).chars@, old(self).state()).unwrap(),
    {
        let ghost st = self.state();
        let value_start = self.pos + 2;
        let close = find_char_from(&self.chars, value_start, '>');
        proof {
            lemma_find_from(self.chars@, value_start as int, '>');
        }
        if close >= self.chars.len() {
            return false;
        }
        let target = string_from_range(&self.chars, value_start, close);
        let parent = self.stack[self.stack.len() - 1];
        proof {
            assert(self.document.valid(self.stack@[self.stack@.len() - 1]));
        }
        let data = ProcessingInstructionData { target, data: string_from_chars(&Vec::new()) };
        proof {
            assert(st.stack.last() == parent@ as int);
            assert(data.data@ =~= Seq::<char>::empty());
        }
        let _ = self.append_node(parent, NodeType::ProcessingInstruction(Box::new(data)));
        self.pos = close + 1;
        proof {
            assert(self.state() =~= instruction_step(self.chars@, st).unwrap());
        }
        true
    }

    /// Reads a doctype `<!doctype name>`; only at the top level, with at most a name.
    fn parse_doctype(&mut self) -> (r: bool)
        requires
            old(self).wf(),
            old(self).pos + 2 <= old(self).chars@.len(),
        ensures
            final(self).same_input(*old(self)),
            r ==> final(self).wf() && final(self).pos > old(self).pos,
            r == doctype_step(old(self).chars@, old(self).state()) is Some,
            r ==> final(self).state() == doctype_step(old(self).chars@, old(self).state()).unwrap(),
    {
        let ghost st = self.state();
        if self.stack.len() != 1 {
            return false;
        }
        let close = match find_tag_close(&self.chars, self.pos + 2) {
            Some(c) => c,
            None => {
                return false;
            },
        };
        let (a, b) = trim_ascii(&self.chars, self.pos + 2, close);
        let word = chars_of("doctype");
        proof {
            reveal_strlit("doctype");
        }
        if b - a < 7 || !starts_with_ascii_case_insensitive(&self.chars, a, &word) {
            return false;
        }
        let (c, d) = trim_ascii(&self.chars, a + 7, b);
        let mut k = c;
        while k < d
            invariant
                c <= k <= d,
                d <= self.chars@.len(),
                forall|j: int| c <= j < k ==> !is_ascii_ws(#[trigger] self.chars@[j]),
                st == self.state(),
                st.stack.len() == 1,
                tag_close_scan(self.chars@, st.pos + 2, None) == Some(close as int),
                (a as int, b as int) == crate::parse::ascii_trim_bounds(self.chars@, st.pos + 2, close as int),
                b - a >= 7,
                crate::parse::starts_ignoring_case(self.chars@, a as int, "doctype"@),
                (c as int, d as int) == crate::parse::ascii_trim_bounds(self.chars@, a + 7, b as int),
            decreases d - k,
        {
            if ascii_ws(self.chars[k]) {
                return false;
            }
            k += 1;
        }
        let name = if c == d {
            string_from_chars(&chars_of("html"))
        } else {
            let raw = string_from_range(&self.chars, c, d);
            to_ascii_lowercase(raw.as_str())
        };
        let data = DoctypeData {
            name,
            public_id: string_from_chars(&Vec::new()),
            system_id: string_from_chars(&Vec::new()),
        };
        let root = self.stack[0];
        proof {
            reveal_strlit("html");
            assert(st.stack[0] == root@ as int);
            assert(data.public_id@ =~= Seq::<char>::empty());
            assert(data.system_id@ =~= Seq::<char>::empty());
        }
        let _ = self.append_node(root, NodeType::Doctype(Box::new(data)));
        self.pos = close + 1;
        proof {
            assert(self.state() =~= doctype_step(self.chars@, st).unwrap());
        }
        true
    }

    /// Reads a start tag, opening the element unless it closes itself or is void.
    #[verifier::rlimit(100)]
    #[verifier::spinoff_prover]
    fn parse_start_tag(&mut self) -> (r: bool)
        requires
            old(self).wf(),
            old(self).pos < old(self).chars@.len(),
        ensures
            final(self).same_input(*old(self)),
            r ==> final(self).wf() && final(self).pos > old(self).pos,
            r == start_tag_step(old(self).chars@, old(self).state()) is Some,
            r ==> final(self).state() == start_tag_step(old(self).chars@, old(self).state()).unwrap(),
    {
        let ghost st = self.state();
        let close = match find_tag_close(&self.chars, self.pos + 1) {
            Some(c) => c,
            None => {
                return false;
            },
        };
        let (a, b0) = trim_ascii(&self.chars, self.pos + 1, close);
        let self_closing = b0 > a && self.chars[b0 - 1] == '/';
        let b = if self_closing {
            trim_ascii_end(&self.chars, a, b0 - 1)
        } else {
            b0
        };
        let name_end = fast_name_end(&self.chars, a, b, true);
        if name_end == a {
            return false;
        }
        let name = match normalize_fast_name(&self.chars, a, name_end, false) {
            Some(n) => n,
            None => {
                return false;
            },
        };
        if is_fast_unsupported_tag(name.as_str()) {
            return false;
        }
        let attr_text = range_vec(&self.chars, name_end, b);
        let attrs = match parse_fast_attrs(&attr_text) {
            Some(v) => v,
            None => {
                return false;
            },
        };
        if str_eq(name.as_str(), "p") {
            let top = self.stack[self.stack.len() - 1];
            proof {
                assert(self.document.valid(self.stack@[self.stack@.len() - 1]));
            }
            let top_is_p = match &self.document.nodes[top.index()].node_type {
                NodeType::Element(e) => str_eq(e.local_name.as_str(), "p"),
                _ => false,
            };
            proof {
                assert(st.stack.last() == top@ as int);
                assert(st.nodes[top@ as int].0 == kind_of(self.document.nodes@[top@ as int].node_type));
            }
            if top_is_p {
                proof {
                    assert(self.stack@.len() > 1);
                }
                let _ = self.stack.pop();
                let _ = self.preserve_stack.pop();
            }
        }
        let top = self.stack.len() - 1;
        let parent = self.stack[top];
        let preserve_whitespace = self.preserve_stack[top] || is_preserve_whitespace_tag(name.as_str());
        let is_html = str_eq(name.as_str(), "html");
        let is_body = str_eq(name.as_str(), "body");
        let opens = !self_closing && !is_void_element(name.as_str());
        proof {
            assert(self.document.valid(self.stack@[top as int]));
        }
        let ghost m1 = self.state();
        proof {
            assert(m1.stack.last() == parent@ as int);
            assert(m1.preserve.last() == self.preserve_stack@[top as int]);
            reveal_strlit("p");
        }
        let element = ElementData { local_name: fast_local_name(name.as_str()), attrs, namespace: None };
        let id = self.append_node(parent, NodeType::Element(element));
        proof {
            reveal_strlit("html");
            reveal_strlit("body");
            assert(self.document.nodes@[id@ as int].node_type == self.document.type_of(id));
            if is_html {
                assert(element_named_at(self.document, id@ as int, "html"@));
            }
            if is_body {
                assert(element_named_at(self.document, id@ as int, "body"@));
            }
        }
        if is_html {
            self.saw_html = true;
        }
        if is_body {
            self.saw_body = true;
        }
        if opens {
            self.stack.push(id);
            self.preserve_stack.push(preserve_whitespace);
        }
        self.pos = close + 1;
        proof {
            assert(self.stack@.map_values(|x: NodeId| x@ as int) =~= start_tag_step(self.chars@, st).unwrap().stack);
            assert(self.state() =~= start_tag_step(self.chars@, st).unwrap());
        }
        true
    }

    /// Reads an end tag, closing the innermost open element of that name, if any.
    fn parse_end_tag(&mut self) -> (r: bool)
        requires
            old(self).wf(),
            old(self).pos + 2 <= old(self).chars@.len(),
        ensures
            final(self).same_input(*old(self)),
            r ==> final(self).wf() && final(self).pos > old(self).pos,
            r == end_tag_step(old(self).chars@, old(self).state()) is Some,
            r ==> final(self).state() == end_tag_step(old(self).chars@, old(self).state()).unwrap(),
    {
        let ghost st = self.state();
        let close = match find_tag_close(&self.chars, self.pos + 2) {
            Some(c) => c,
            None => {
                return false;
            },
        };
        let (a, b) = trim_ascii(&self.chars, self.pos + 2, close);
        let name_end = fast_name_end(&self.chars, a, b, false);
        if name_end == a || self.stack.len() <= 1 {
            return false;
        }
        let name = match normalize_fast_name(&self.chars, a, name_end, false) {
            Some(n) => n,
            None => {
                return false;
            },
        };
        let mut k = self.stack.len();
        while k > 0
            invariant
                k <= self.stack@.len(),
                st == self.state(),
                self.wf(),
                forall|i: int| 0 <= i < self.stack@.len() ==> self.document.valid(#[trigger] self.stack@[i]),
                last_open_named(st, name@, st.stack.len() as int) == last_open_named(st, name@, k as int),
            ensures
                k == 0 ==> last_open_named(st, name@, st.stack.len() as int) is None,
                k > 0 ==> last_open_named(st, name@, st.stack.len() as int) == Some(k - 1),
            decreases k,
        {
            let id = self.stack[k - 1];
            proof {
                assert(self.document.valid(self.stack@[k - 1]));
                assert(st.stack[k - 1] == id@ as int);
                assert(st.nodes[id@ as int].0 == kind_of(self.document.nodes@[id@ as int].node_type));
            }
            let named = match &self.document.nodes[id.index()].node_type {
                NodeType::Element(e) => str_eq(e.local_name.as_str(), name.as_str()),
                _ => false,
            };
            if named {
                break;
            }
            k -= 1;
        }
        if k == 0 {
            self.pos = close + 1;
            proof {
                assert(self.state() =~= end_tag_step(self.chars@, st).unwrap());
            }
            return true;
        }
        let position = k - 1;
        if position == 0 {
            return false;
        }
        self.stack.truncate(position);
        self.preserve_stack.truncate(position);
        self.pos = close + 1;
        proof {
            assert(self.stack@.map_values(|x: NodeId| x@ as int) =~= st.stack.take(position as int));
            assert(self.state() =~= end_tag_step(self.chars@, st).unwrap());
        }
        true
    }

    /// Reads the whole source; `false` when some part of it is left to the full parser.
    fn run(&mut self) -> (r: bool)
        requires
            old(self).wf(),
        ensures
            final(self).same_input(*old(self)),
            r ==> final(self).wf(),
            r == fast_run(old(self).chars@, old(self).require_full_document, old(self).state()) is Some,
            r ==> final(self).state() == fast_run(old(self).chars@, old(self).require_full_document, old(self).state()).unwrap(),
    {
        let n = self.chars.len();
        while self.pos < n
            invariant
                self.wf(),
                n == self.chars@.len(),
                self.same_input(*old(self)),
                fast_run(self.chars@, self.require_full_document, old(self).state())
                    == fast_run(self.chars@, self.require_full_document, self.state()),
            decreases n - self.pos,
        {
            let ghost st = self.state();
            let ok = match self.current_raw_text_name() {
                Some(name) => self.parse_raw_text(name),
                None => {
                    if self.chars[self.pos] == '<' {
                        self.parse_markup()
                    } else {
                        let next = find_char_from(&self.chars, self.pos, '<');
                        proof {
                            lemma_find_from(self.chars@, self.pos + 1, '<');
                        }
                        self.append_text_to(next)
                    }
                },
            };
            proof {
                assert(ok == fast_step(self.chars@, self.require_full_document, st) is Some);
            }
            if !ok {
                return false;
            }
            proof {
                assert(self.state() == fast_step(self.chars@, self.require_full_document, st).unwrap());
                assert(st.pos < self.state().pos <= self.chars@.len());
            }
        }
        proof {
            assert(self.state().pos >= self.chars@.len());
        }
        true
    }

    /// Parses the whole source; `None` when the full parser must take it.
    fn parse(self) -> (r: Option<Document>)
        requires
            self.wf(),
        ensures
            r matches Some(d) ==> fast_parsed(d) && (self.require_full_document ==> has_element_named(d, "html"@) && has_element_named(d, "body"@)),
            match r {
                Some(d) => fast_run(self.chars@, self.require_full_document, self.state()) matches Some(m)
                    && m.stack.len() == 1 && (!self.require_full_document || (m.saw_html && m.saw_body))
                    && built_from(d, m.nodes),
                None => !(fast_run(self.chars@, self.require_full_document, self.state()) matches Some(m)
                    && m.stack.len() == 1 && (!self.require_full_document || (m.saw_html && m.saw_body))),
            },
    {
        let mut p = self;
        if !p.run() {
            return None;
        }
        if p.stack.len() == 1 && (!p.require_full_document || (p.saw_html && p.saw_body)) {
            let mut document = p.document;
            let ghost before = document;
            mark_template_content_strings(&mut document);
            proof {
                lemma_marked_keeps_elements(before, document);
                assert(doc_nodes(before) == p.state().nodes);
                assert(built_from(document, p.state().nodes));
            }
            Some(document)
        } else {
            None
        }
    }
}

/// `d` is the document made of `nodes` (what each is and its parent, children in the order
/// they were made), with the text in the contents of templates marked as template strings.
pub open spec fn built_from(d: Document, nodes: Seq<(Kind, int)>) -> bool {
    exists|b: Document| {
        &&& b.wf()
        &&& children_in_order(b)
        &&& #[trigger] doc_nodes(b) == nodes
        &&& d.len() == b.len()
        &&& forall|x: NodeId| #[trigger] d.children(x) == b.children(x)
        &&& forall|x: NodeId| b.valid(x) ==> #[trigger] d.type_of(x) == template_marked(b, x)
    }
}

/// What holds of a document that the quick parser built: it is a well-formed tree under its
/// root, node 0, every element has a name that the quick parser takes, and the text in the
/// contents of templates is marked as template strings.
pub open spec fn fast_parsed(d: Document) -> bool {
    &&& d.wf()
    &&& d.root@ == 0
    &&& !d.root_decomposed
    &&& d.type_of(d.root) == NodeType::Document
    &&& elements_supported(d)
}

proof fn lemma_marked_keeps_elements(before: Document, after: Document)
    requires
        before.wf(),
        before.root@ == 0,
        !before.root_decomposed,
        before.type_of(before.root) == NodeType::Document,
        before.valid(before.root),
        elements_supported(before),
        after.wf(),
        after.len() == before.len(),
        after.root == before.root,
        after.root_decomposed == before.root_decomposed,
        forall|x: NodeId| before.valid(x) ==> #[trigger] after.type_of(x) == template_marked(before, x),
    ensures
        fast_parsed(after),
        forall|n: Seq<char>| has_element_named(before, n) ==> has_element_named(after, n),
{
    broadcast use group_node_id;
    before.lemma_wf_basic();
    assert(after.type_of(after.root) == template_marked(before, before.root));
    assert forall|i: int| 0 <= i < after.len() implies #[trigger] supported_at(after, i) by {
        let x = crate::dom::nid(i);
        assert(after.type_of(x) == template_marked(before, x));
        assert(supported_at(before, i));
    }
    assert forall|n: Seq<char>| has_element_named(before, n) implies has_element_named(after, n) by {
        let w = choose|i: int| #[trigger] element_named_at(before, i, n);
        let x = crate::dom::nid(w);
        assert(after.type_of(x) == template_marked(before, x));
        assert(element_named_at(after, w, n));
    }
}

/// Whether the source `s`, less leading white space, starts with `<!doctype` or `<html`
/// (ASCII case aside).
pub open spec fn starts_as_full_document(s: Seq<char>) -> bool {
    let t = s.skip(crate::parse::trim_start_index(s, 0));
    starts_ignoring_case(t, 0, "<!doctype"@) || starts_ignoring_case(t, 0, "<html"@)
}

/// The first `c` at or after `i` comes no later than any `c` at or after `i`.
proof fn lemma_find_from_first(s: Seq<char>, i: int, c: char, k: int)
    requires
        0 <= i <= k < s.len(),
        s[k] == c,
    ensures
        find_from(s, i, c) <= k,
    decreases k - i,
{
    if s[i] != c {
        lemma_find_from_first(s, i + 1, c, k);
    }
}

/// Whether `html`, less leading white space, starts with `<!doctype` or `<html`.
fn looks_like_full_document(html: &Vec<char>) -> (r: bool)
    ensures
        r == starts_as_full_document(html@),
{
    let n = html.len();
    let mut start: usize = 0;
    while start < n && crate::text::white_space(html[start])
        invariant
            start <= n,
            n == html@.len(),
            crate::parse::trim_start_index(html@, 0) == crate::parse::trim_start_index(html@, start as int),
        decreases n - start,
    {
        start += 1;
    }
    let t = range_vec(html, start, n);
    proof {
        assert(t@ =~= html@.skip(crate::parse::trim_start_index(html@, 0)));
    }
    starts_with_ascii_case_insensitive(&t, 0, &chars_of("<!doctype"))
        || starts_with_ascii_case_insensitive(&t, 0, &chars_of("<html"))
}

/// Whether the source holds a start tag that the quick parser leaves to the full one.
pub open spec fn holds_unsupported_tag(s: Seq<char>) -> bool {
    exists|i: int| #[trigger] unsupported_tag_at(s, i)
}

/// Whether `<` followed by a name that the quick parser leaves to the full one, and then white
/// space, `/` or `>`, starts at `i` (ASCII case aside).
pub open spec fn unsupported_tag_at(s: Seq<char>, i: int) -> bool {
    &&& 0 <= i < s.len()
    &&& s[i] == '<'
    &&& tag_word_at(s, i + 1, "base"@) || tag_word_at(s, i + 1, "frameset"@) || tag_word_at(s, i + 1, "math"@)
        || tag_word_at(s, i + 1, "plaintext"@) || tag_word_at(s, i + 1, "xmp"@)
}

/// Whether the tag name `name` stands at `i`, followed by white space, `/` or `>`.
pub open spec fn tag_word_at(s: Seq<char>, i: int, name: Seq<char>) -> bool {
    &&& starts_ignoring_case(s, i, name)
    &&& i + name.len() < s.len()
    &&& is_ascii_ws(s[i + name.len()]) || s[i + name.len()] == '/' || s[i + name.len()] == '>'
}

/// Whether the name `name` stands at `i` in `s` as a whole tag name.
fn starts_with_fast_tag_name(s: &Vec<char>, i: usize, name: &Vec<char>) -> (r: bool)
    requires
        i <= s@.len(),
    ensures
        r == tag_word_at(s@, i as int, name@),
{
    if !starts_with_ascii_case_insensitive(s, i, name) {
        return false;
    }
    if s.len() - i <= name.len() {
        return false;
    }
    let c = s[i + name.len()];
    ascii_ws(c) || c == '/' || c == '>'
}

/// Whether the source holds a start tag that the quick parser leaves to the full one.
pub fn source_has_fast_unsupported_tag(s: &Vec<char>) -> (r: bool)
    ensures
        r == holds_unsupported_tag(s@),
{
    let base = chars_of("base");
    let frameset = chars_of("frameset");
    let math = chars_of("math");
    let plaintext = chars_of("plaintext");
    let xmp = chars_of("xmp");
    let n = s.len();
    let mut i: usize = 0;
    while i < n
        invariant
            i <= n,
            n == s@.len(),
            base@ == "base"@,
            frameset@ == "frameset"@,
            math@ == "math"@,
            plaintext@ == "plaintext"@,
            xmp@ == "xmp"@,
            forall|k: int| 0 <= k < i ==> !#[trigger] unsupported_tag_at(s@, k),
        decreases n - i,
    {
        if s[i] == '<' && (starts_with_fast_tag_name(s, i + 1, &base) || starts_with_fast_tag_name(s, i + 1, &frameset)
            || starts_with_fast_tag_name(s, i + 1, &math) || starts_with_fast_tag_name(s, i + 1, &plaintext)
            || starts_with_fast_tag_name(s, i + 1, &xmp)) {
            proof {
                assert(unsupported_tag_at(s@, i as int));
            }
            return true;
        }
        i += 1;
    }
    proof {
        assert forall|k: int| !#[trigger] unsupported_tag_at(s@, k) by {
            if 0 <= k < i {
            }
        }
    }
    false
}

/// Parses a whole document with the quick parser: `None` unless the source, less leading white
/// space, starts with `<!doctype` or `<html`, and when it holds `&` together with a tag that the
/// quick parser leaves to the full one, or when some part of it is beyond the quick parser;
/// otherwise the document that `fast_nodes` describes.
pub fn try_parse_fast_full_document(html: &str) -> (r: Option<Document>)
    requires
        html@.len() + 2 < u32::MAX,
    ensures
        !starts_as_full_document(html@) ==> r is None,
        html@.contains('&') && holds_unsupported_tag(html@) ==> r is None,
        r matches Some(d) ==> fast_parsed(d) && has_element_named(d, "html"@) && has_element_named(d, "body"@),
        match r {
            Some(d) => fast_nodes(html@, true) matches Some(nodes) && built_from(d, nodes),
            None => !starts_as_full_document(html@) || (html@.contains('&') && holds_unsupported_tag(html@))
                || fast_nodes(html@, true) is None,
        },
{
    let chars = chars_of(html);
    proof {
        reveal_strlit("<!doctype");
        reveal_strlit("<html");
    }
    if !looks_like_full_document(&chars) {
        return None;
    }
    let amp = find_char_from(&chars, 0, '&');
    proof {
        lemma_find_from(chars@, 0, '&');
        if html@.contains('&') {
            let k = choose|k: int| 0 <= k < html@.len() && html@[k] == '&';
            lemma_find_from_first(chars@, 0, '&', k);
        }
    }
    if amp < chars.len() && source_has_fast_unsupported_tag(&chars) {
        return None;
    }
    FastParser::new(chars, true).parse()
}

/// Parses a fragment with the quick parser: `None` when the source, less leading white space,
/// starts with `<!doctype` or `<html`, or when some part of it is beyond the quick parser;
/// otherwise the document that `fast_nodes` describes.
pub fn try_parse_fast_fragment(html: &str) -> (r: Option<Document>)
    requires
        html@.len() + 2 < u32::MAX,
    ensures
        starts_as_full_document(html@) ==> r is None,
        r matches Some(d) ==> fast_parsed(d),
        match r {
            Some(d) => fast_nodes(html@, false) matches Some(nodes) && built_from(d, nodes),
            None => starts_as_full_document(html@) || fast_nodes(html@, false) is None,
        },
{
    let chars = chars_of(html);
    proof {
        reveal_strlit("<!doctype");
        reveal_strlit("<html");
    }
    if looks_like_full_document(&chars) {
        return None;
    }
    FastParser::new(chars, false).parse()
}

} // verus!
