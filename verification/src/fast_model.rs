use vstd::prelude::*;
use crate::dom::{group_node_id, nid, Document, Node, NodeId, NodeType};
use crate::fast_parser::{comment_end, raw_text_end, tag_close_scan};
use crate::matcher::{find_from, is_ascii_ws, lower_seq};
use crate::parse::{
    appended_text, ascii_trim_bounds, ascii_trim_end, attr_pair, decoded_entities, fast_attrs,
    is_fast_unsupported_name, is_preserve_whitespace_name, name_end, normalized_name, normalized_text,
    starts_ignoring_case, whitespace_scan,
};
use crate::pseudo::starts_at;
use crate::text::is_void_name;

verus! {

/// What a node of a document is, as plain values.
pub enum Kind {
    Document,
    Element {
        name: Seq<char>,
        attrs: Seq<(Seq<char>, Option<Seq<char>>)>,
        namespace: Option<Seq<char>>,
    },
    Text(Seq<char>),
    TemplateString(Seq<char>),
    Comment(Seq<char>),
    CData(Seq<char>),
    Declaration(Seq<char>),
    Doctype { name: Seq<char>, public_id: Seq<char>, system_id: Seq<char> },
    Instruction { target: Seq<char>, data: Seq<char> },
}

/// What node type `t` is, as plain values.
pub open spec fn kind_of(t: NodeType) -> Kind {
    match t {
        NodeType::Document => Kind::Document,
        NodeType::Element(e) => Kind::Element {
            name: e.local_name@,
            attrs: e.attrs@.map_values(|a: crate::dom::Attr| attr_pair(a)),
            namespace: match e.namespace {
                Some(n) => Some(n@),
                None => None,
            },
        },
        NodeType::Text(s) => Kind::Text(s@),
        NodeType::TemplateString(s) => Kind::TemplateString(s@),
        NodeType::Comment(s) => Kind::Comment(s@),
        NodeType::CData(s) => Kind::CData(s@),
        NodeType::Declaration(s) => Kind::Declaration(s@),
        NodeType::Doctype(d) => Kind::Doctype { name: d.name@, public_id: d.public_id@, system_id: d.system_id@ },
        NodeType::ProcessingInstruction(p) => Kind::Instruction { target: p.target@, data: p.data@ },
    }
}

/// The nodes of `d` by index: what each is and the index of its parent (`-1` for none).
pub open spec fn doc_nodes(d: Document) -> Seq<(Kind, int)> {
    Seq::new(d.len(), |k: int| (kind_of(d.nodes@[k].node_type), match d.nodes@[k].parent {
        Some(p) => p@ as int,
        None => -1,
    }))
}

/// The last of the first `n` nodes whose parent is `q`, if any.
pub open spec fn last_child_of(nodes: Seq<(Kind, int)>, q: int, n: int) -> Option<int>
    decreases n,
{
    if n <= 0 {
        None
    } else if nodes[n - 1].1 == q {
        Some(n - 1)
    } else {
        last_child_of(nodes, q, n - 1)
    }
}

/// Where the quick parser stands, as plain values: its place in the source, the nodes made
/// so far (by index), the open elements (indices, the document root first), whether each
/// keeps its white space, and whether it met `html` and `body` start tags.
pub struct FastState {
    pub pos: int,
    pub nodes: Seq<(Kind, int)>,
    pub stack: Seq<int>,
    pub preserve: Seq<bool>,
    pub saw_html: bool,
    pub saw_body: bool,
}

/// Where the quick parser starts.
pub open spec fn initial_state() -> FastState {
    FastState {
        pos: 0,
        nodes: seq![(Kind::Document, -1int)],
        stack: seq![0int],
        preserve: seq![false],
        saw_html: false,
        saw_body: false,
    }
}

/// The name of node `i` if it is an element.
pub open spec fn element_name(m: FastState, i: int) -> Option<Seq<char>> {
    match m.nodes[i].0 {
        Kind::Element { name, .. } => Some(name),
        _ => None,
    }
}

/// The innermost open element.
pub open spec fn open_top(m: FastState) -> int {
    m.stack.last()
}

/// The name of the innermost open element if it holds raw text.
pub open spec fn raw_text_name(m: FastState) -> Option<Seq<char>> {
    match element_name(m, open_top(m)) {
        Some(n) => if n == "script"@ || n == "style"@ || n == "textarea"@ { Some(n) } else { None },
        None => None,
    }
}

/// `m` with a node of kind `k` added as the last child of `parent`.
pub open spec fn with_node(m: FastState, parent: int, k: Kind) -> FastState {
    FastState { nodes: m.nodes.push((k, parent)), ..m }
}

/// `m` with the text `text` added to `parent`: merged into its last child where that is text,
/// else as a new text node; white space collapsed unless `preserve`.
pub open spec fn with_text(m: FastState, parent: int, text: Seq<char>, preserve: bool) -> FastState {
    let t = normalized_text(text, preserve);
    match last_child_of(m.nodes, parent, m.nodes.len() as int) {
        Some(l) => match m.nodes[l].0 {
            Kind::Text(e) => FastState {
                nodes: m.nodes.update(l, (Kind::Text(appended_text(e, t, preserve)), parent)),
                ..m
            },
            _ => with_node(m, parent, Kind::Text(t)),
        },
        None => with_node(m, parent, Kind::Text(t)),
    }
}

/// Reading the source `s` from `m.pos` up to `end` as text of the innermost open element;
/// `None` where an entity cannot be read. Leading white space of a full document is dropped.
pub open spec fn text_step(s: Seq<char>, full: bool, m: FastState, end: int) -> Option<FastState> {
    if m.pos >= end {
        Some(m)
    } else {
        let parent = open_top(m);
        let preserve = m.preserve.last();
        let raw = s.subrange(m.pos, end);
        let text = if !preserve && find_from(raw, 0, '&') < raw.len() { decoded_entities(raw) } else { Some(raw) };
        match text {
            None => None,
            Some(t) => {
                let skip = full && parent == 0 && last_child_of(m.nodes, 0, m.nodes.len() as int) is None
                    && whitespace_scan(t, 0) is Some;
                let m2 = if skip { m } else { with_text(m, parent, t, preserve) };
                Some(FastState { pos: end, ..m2 })
            },
        }
    }
}

/// The innermost open element named `name` among the first `k` open ones, if any.
pub open spec fn last_open_named(m: FastState, name: Seq<char>, k: int) -> Option<int>
    decreases k,
{
    if k <= 0 {
        None
    } else if element_name(m, m.stack[k - 1]) == Some(name) {
        Some(k - 1)
    } else {
        last_open_named(m, name, k - 1)
    }
}

/// Reading an end tag at `m.pos`: the innermost open element of that name and those inside
/// it are closed; an end tag that matches no open element is passed over.
pub open spec fn end_tag_step(s: Seq<char>, m: FastState) -> Option<FastState> {
    match tag_close_scan(s, m.pos + 2, None) {
        None => None,
        Some(close) => {
            let (a, b) = ascii_trim_bounds(s, m.pos + 2, close);
            let e = name_end(s, a, b, false);
            if e == a || m.stack.len() <= 1 {
                None
            } else {
                match normalized_name(s.subrange(a, e), false) {
                    None => None,
                    Some(name) => match last_open_named(m, name, m.stack.len() as int) {
                        None => Some(FastState { pos: close + 1, ..m }),
                        Some(position) => if position == 0 {
                            None
                        } else {
                            Some(FastState {
                                pos: close + 1,
                                stack: m.stack.take(position),
                                preserve: m.preserve.take(position),
                                ..m
                            })
                        },
                    },
                }
            }
        },
    }
}

/// Reading a comment `<!--...-->` at `m.pos`.
pub open spec fn comment_step(s: Seq<char>, m: FastState) -> Option<FastState> {
    match comment_end(s, m.pos + 4) {
        None => None,
        Some(close) => Some(FastState {
            pos: close + 3,
            ..with_node(m, open_top(m), Kind::Comment(s.subrange(m.pos + 4, close)))
        }),
    }
}

/// Reading a processing instruction `<?...>` at `m.pos`.
pub open spec fn instruction_step(s: Seq<char>, m: FastState) -> Option<FastState> {
    let close = find_from(s, m.pos + 2, '>');
    if close >= s.len() {
        None
    } else {
        Some(FastState {
            pos: close + 1,
            ..with_node(m, open_top(m), Kind::Instruction { target: s.subrange(m.pos + 2, close), data: Seq::empty() })
        })
    }
}

/// Reading a doctype at `m.pos`: only at the top level, naming at most one word, which is
/// made small (`html` when none).
pub open spec fn doctype_step(s: Seq<char>, m: FastState) -> Option<FastState> {
    if m.stack.len() != 1 {
        None
    } else {
        match tag_close_scan(s, m.pos + 2, None) {
            None => None,
            Some(close) => {
                let (a, b) = ascii_trim_bounds(s, m.pos + 2, close);
                if b - a < 7 || !starts_ignoring_case(s, a, "doctype"@) {
                    None
                } else {
                    let (c, d) = ascii_trim_bounds(s, a + 7, b);
                    if exists|k: int| c <= k < d && #[trigger] is_ascii_ws(s[k]) {
                        None
                    } else {
                        let name = if c == d { "html"@ } else { lower_seq(s.subrange(c, d)) };
                        Some(FastState { pos: close + 1, ..with_node(m, m.stack[0], Kind::Doctype { name: name, public_id: Seq::empty(), system_id: Seq::empty() }) })
                    }
                }
            },
        }
    }
}

/// Reading a start tag at `m.pos`: a `p` closes an open `p` it is in; the element is added to
/// the innermost open element, and opened unless it closes itself or is void.
pub open spec fn start_tag_step(s: Seq<char>, m: FastState) -> Option<FastState> {
    match tag_close_scan(s, m.pos + 1, None) {
        None => None,
        Some(close) => {
            let (a, b0) = ascii_trim_bounds(s, m.pos + 1, close);
            let self_closing = b0 > a && s[b0 - 1] == '/';
            let b = if self_closing { ascii_trim_end(s, a, b0 - 1) } else { b0 };
            let e = name_end(s, a, b, true);
            if e == a {
                None
            } else {
                match normalized_name(s.subrange(a, e), false) {
                    None => None,
                    Some(name) => if is_fast_unsupported_name(name) {
                        None
                    } else {
                        match fast_attrs(s.subrange(e, b)) {
                            None => None,
                            Some(attrs) => {
                                let m1 = if name == "p"@ && element_name(m, open_top(m)) == Some("p"@) {
                                    FastState { stack: m.stack.drop_last(), preserve: m.preserve.drop_last(), ..m }
                                } else {
                                    m
                                };
                                let parent = open_top(m1);
                                let keep = m1.preserve.last() || is_preserve_whitespace_name(name);
                                let id = m1.nodes.len() as int;
                                let m2 = with_node(m1, parent, Kind::Element { name: name, attrs: attrs, namespace: None });
                                let opens = !self_closing && !is_void_name(name);
                                Some(FastState {
                                    pos: close + 1,
                                    stack: if opens { m2.stack.push(id) } else { m2.stack },
                                    preserve: if opens { m2.preserve.push(keep) } else { m2.preserve },
                                    saw_html: m2.saw_html || name == "html"@,
                                    saw_body: m2.saw_body || name == "body"@,
                                    ..m2
                                })
                            },
                        }
                    },
                }
            }
        },
    }
}

/// Reading the markup that starts with `<` at `m.pos`.
pub open spec fn markup_step(s: Seq<char>, m: FastState) -> Option<FastState> {
    if starts_at(s, m.pos, "<!--"@) {
        comment_step(s, m)
    } else if starts_ignoring_case(s, m.pos, "<!doctype"@) {
        doctype_step(s, m)
    } else if starts_at(s, m.pos, "</"@) {
        end_tag_step(s, m)
    } else if starts_at(s, m.pos, "<?"@) {
        instruction_step(s, m)
    } else if starts_at(s, m.pos, "<!"@) {
        None
    } else {
        start_tag_step(s, m)
    }
}

/// Reading the text of the open raw text element `name` at `m.pos` and its end tag.
pub open spec fn raw_text_step(s: Seq<char>, full: bool, m: FastState, name: Seq<char>) -> Option<FastState> {
    match raw_text_end(s, m.pos, name) {
        None => None,
        Some(close) => match text_step(s, full, m, close) {
            None => None,
            Some(m1) => end_tag_step(s, m1),
        },
    }
}

/// One step of the quick parser at `m.pos`: the text of an open raw text element and its end
/// tag, or markup, or text up to the next `<`.
pub open spec fn fast_step(s: Seq<char>, full: bool, m: FastState) -> Option<FastState> {
    match raw_text_name(m) {
        Some(name) => raw_text_step(s, full, m, name),
        None => if s[m.pos] == '<' {
            markup_step(s, m)
        } else {
            text_step(s, full, m, find_from(s, m.pos, '<'))
        },
    }
}

/// The quick parser's steps from `m` to the end of `s`; `None` where a step fails.
pub open spec fn fast_run(s: Seq<char>, full: bool, m: FastState) -> Option<FastState>
    decreases s.len() - m.pos,
{
    if m.pos >= s.len() || m.pos < 0 {
        Some(m)
    } else {
        match fast_step(s, full, m) {
            None => None,
            Some(m2) => if m.pos < m2.pos <= s.len() {
                fast_run(s, full, m2)
            } else {
                None
            },
        }
    }
}

/// The nodes the quick parser makes of `s`, before the text of templates is marked: `None`
/// where it leaves the source to the full parser, which is also when an element is left open
/// or, for a full document, no `html` or no `body` start tag was met.
pub open spec fn fast_nodes(s: Seq<char>, full: bool) -> Option<Seq<(Kind, int)>> {
    match fast_run(s, full, initial_state()) {
        Some(m) => if m.stack.len() == 1 && (!full || (m.saw_html && m.saw_body)) {
            Some(m.nodes)
        } else {
            None
        },
        None => None,
    }
}

/// Whether the indices of `s` go up.
pub open spec fn ids_increase(s: Seq<NodeId>) -> bool {
    forall|i: int, j: int| 0 <= i < j < s.len() ==> (#[trigger] s[i])@ < (#[trigger] s[j])@
}

/// Whether each node's children come in the order in which they were made.
pub open spec fn children_in_order(d: Document) -> bool {
    forall|q: NodeId| d.valid(q) ==> ids_increase(#[trigger] d.children(q))
}

/// Adding a node changes the list of nodes by that node at its end.
pub proof fn lemma_doc_nodes_append(before: Document, after: Document, parent: NodeId, t: NodeType, id: NodeId)
    requires
        before.len() < u32::MAX,
        after.len() == before.len() + 1,
        id@ == before.len(),
        after.type_of(id) == t,
        after.parent_of(id) == Some(parent),
        forall|i: int| 0 <= i < before.len() ==> #[trigger] after.nodes@[i].node_type == before.nodes@[i].node_type,
        forall|x: NodeId| before.valid(x) ==> #[trigger] after.parent_of(x) == before.parent_of(x),
    ensures
        doc_nodes(after) == doc_nodes(before).push((kind_of(t), parent@ as int)),
{
    broadcast use group_node_id;
    assert forall|k: int| 0 <= k < before.len() implies #[trigger] after.nodes@[k].parent == before.nodes@[k].parent by {
        assert(before.valid(nid(k)));
        assert(after.parent_of(nid(k)) == before.parent_of(nid(k)));
    }
    assert(doc_nodes(after) =~= doc_nodes(before).push((kind_of(t), parent@ as int)));
}

/// Changing what one node is changes the list of nodes there only.
pub proof fn lemma_doc_nodes_update(before: Document, after: Document, l: NodeId, t: NodeType)
    requires
        before.valid(l),
        after.nodes@ == before.nodes@.update(l@ as int, Node { node_type: t, ..before.nodes@[l@ as int] }),
    ensures
        doc_nodes(after) == doc_nodes(before).update(l@ as int, (kind_of(t), doc_nodes(before)[l@ as int].1)),
{
    assert(doc_nodes(after) =~= doc_nodes(before).update(l@ as int, (kind_of(t), doc_nodes(before)[l@ as int].1)));
}

proof fn lemma_last_child_of_max(nodes: Seq<(Kind, int)>, q: int, n: int)
    requires
        0 <= n <= nodes.len(),
    ensures
        match last_child_of(nodes, q, n) {
            Some(l) => 0 <= l < n && nodes[l].1 == q && forall|k: int| l < k < n ==> #[trigger] nodes[k].1 != q,
            None => forall|k: int| 0 <= k < n ==> #[trigger] nodes[k].1 != q,
        },
    decreases n,
{
    if n > 0 && nodes[n - 1].1 != q {
        lemma_last_child_of_max(nodes, q, n - 1);
    }
}

/// In a document whose children come in the order they were made, the last child of `q` is
/// the last node made with parent `q`.
pub proof fn lemma_last_child(d: Document, q: NodeId)
    requires
        d.wf(),
        d.valid(q),
        ids_increase(d.children(q)),
    ensures
        match last_child_of(doc_nodes(d), q@ as int, d.len() as int) {
            Some(l) => d.children(q).len() > 0 && d.children(q).last()@ == l,
            None => d.children(q).len() == 0,
        },
{
    broadcast use group_node_id;
    let nodes = doc_nodes(d);
    let c = d.children(q);
    lemma_last_child_of_max(nodes, q@ as int, d.len() as int);
    d.lemma_children(q);
    d.lemma_wf_basic();
    match last_child_of(nodes, q@ as int, d.len() as int) {
        Some(l) => {
            let y = nid(l);
            assert(d.valid(y));
            assert(d.nodes@[l].parent == Some(q));
            assert(d.parent_of(y) == Some(q));
            assert(c.contains(y));
            let i = choose|i: int| 0 <= i < c.len() && c[i] == y;
            let m = c.last();
            assert(c[c.len() - 1] == m);
            assert(d.parent_of(m) == Some(q));
            assert(nodes[m@ as int].1 == q@ as int);
            if i < c.len() - 1 {
                assert(c[i]@ < c[c.len() - 1]@);
            }
        },
        None => {
            if c.len() > 0 {
                let m = c[0];
                assert(d.parent_of(m) == Some(q));
                assert(nodes[m@ as int].1 == q@ as int);
            }
        },
    }
}

} // verus!
