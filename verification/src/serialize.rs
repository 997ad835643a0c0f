use vstd::prelude::*;
use crate::dom::{Attr, Document, DoctypeData, NodeId, NodeType, ProcessingInstructionData};
use crate::text::{
    chars_of, charset_key, content_with_charset, escape_attr, escape_text, escaped_attr,
    escaped_text, first_match_at, is_void_element, is_void_name, push_str, str_eq,
    substitute_meta_charset_attr, matches_at_ignoring_case, lower_char, ascii_lower, trim, trimmed,
};

verus! {

/// Whether `a` comes after `b` in the order of their characters (the order of `str`).
pub open spec fn lex_gt(a: Seq<char>, b: Seq<char>) -> bool
    decreases a.len(),
{
    if a.len() == 0 {
        false
    } else if b.len() == 0 {
        true
    } else if a[0] != b[0] {
        a[0] > b[0]
    } else {
        lex_gt(a.drop_first(), b.drop_first())
    }
}

/// Whether `a` comes after `b` in the order of their characters.
pub fn str_gt(a: &str, b: &str) -> (r: bool)
    ensures
        r == lex_gt(a@, b@),
{
    let x = chars_of(a);
    let y = chars_of(b);
    let mut i: usize = 0;
    proof {
        assert(x@.skip(0) =~= x@);
        assert(y@.skip(0) =~= y@);
    }
    while i < x.len() && i < y.len() && x[i] == y[i]
        invariant
            i <= x@.len(),
            i <= y@.len(),
            lex_gt(x@, y@) == lex_gt(x@.skip(i as int), y@.skip(i as int)),
        decreases x@.len() - i,
    {
        proof {
            assert(x@.skip(i as int).drop_first() =~= x@.skip(i as int + 1));
            assert(y@.skip(i as int).drop_first() =~= y@.skip(i as int + 1));
        }
        i += 1;
    }
    proof {
        if i < x@.len() && i < y@.len() {
            assert(x@.skip(i as int)[0] == x@[i as int]);
            assert(y@.skip(i as int)[0] == y@[i as int]);
        }
    }
    if i >= x.len() {
        false
    } else if i >= y.len() {
        true
    } else {
        x[i] > y[i]
    }
}

/// Where `a` goes into the name-sorted `t`: after every attribute whose name is not greater.
pub open spec fn insert_pos(t: Seq<Attr>, a: Attr, k: int) -> int
    decreases t.len() - k,
{
    if k < 0 || k >= t.len() {
        t.len() as int
    } else if lex_gt(t[k].name@, a.name@) {
        k
    } else {
        insert_pos(t, a, k + 1)
    }
}

/// `s` sorted by name, attributes with equal names kept in their order (a stable sort).
pub open spec fn sorted_by_name(s: Seq<Attr>) -> Seq<Attr>
    decreases s.len(),
{
    if s.len() == 0 {
        Seq::empty()
    } else {
        let t = sorted_by_name(s.drop_last());
        t.insert(insert_pos(t, s.last(), 0), s.last())
    }
}

proof fn lemma_insert_pos_bounds(t: Seq<Attr>, a: Attr, k: int)
    requires
        0 <= k <= t.len(),
    ensures
        k <= insert_pos(t, a, k) <= t.len(),
    decreases t.len() - k,
{
    if k < t.len() && !lex_gt(t[k].name@, a.name@) {
        lemma_insert_pos_bounds(t, a, k + 1);
    }
}

proof fn lemma_sorted_len(s: Seq<Attr>)
    ensures
        sorted_by_name(s).len() == s.len(),
    decreases s.len(),
{
    if s.len() > 0 {
        lemma_sorted_len(s.drop_last());
        let t = sorted_by_name(s.drop_last());
        lemma_insert_pos_bounds(t, s.last(), 0);
    }
}

/// The attributes of `attrs` sorted by name, by their positions in `attrs`.
pub fn sorted_attr_order(attrs: &[Attr]) -> (order: Vec<usize>)
    ensures
        forall|i: int| 0 <= i < order@.len() ==> #[trigger] order@[i] < attrs@.len(),
        order@.map_values(|i: usize| attrs@[i as int]) == sorted_by_name(attrs@),
{
    let mut order: Vec<usize> = Vec::new();
    let mut n: usize = 0;
    while n < attrs.len()
        invariant
            n <= attrs@.len(),
            forall|i: int| 0 <= i < order@.len() ==> #[trigger] order@[i] < attrs@.len(),
            order@.map_values(|i: usize| attrs@[i as int]) == sorted_by_name(attrs@.take(n as int)),
            order@.len() == n,
        decreases attrs@.len() - n,
    {
        let ghost t = order@.map_values(|i: usize| attrs@[i as int]);
        let a = &attrs[n];
        let mut k: usize = 0;
        while k < order.len() && !str_gt(attrs[order[k]].name.as_str(), a.name.as_str())
            invariant
                k <= order@.len(),
                forall|i: int| 0 <= i < order@.len() ==> #[trigger] order@[i] < attrs@.len(),
                t == order@.map_values(|i: usize| attrs@[i as int]),
                insert_pos(t, attrs@[n as int], 0) == insert_pos(t, attrs@[n as int], k as int),
                n < attrs@.len(),
                a == attrs@[n as int],
            decreases order@.len() - k,
        {
            k += 1;
        }
        order.insert(k, n);
        proof {
            let s = attrs@.take(n as int + 1);
            assert(s.drop_last() =~= attrs@.take(n as int));
            assert(s.last() == attrs@[n as int]);
            assert(order@.map_values(|i: usize| attrs@[i as int]) =~= t.insert(k as int, attrs@[n as int]));
        }
        n += 1;
    }
    proof {
        assert(attrs@.take(attrs@.len() as int) =~= attrs@);
    }
    order
}


/// A piece of serialized markup: markup written as it is, or text or an attribute value that
/// the formatter writes (escaped, or as it is, or through a caller's function).
#[derive(Clone, Debug)]
pub enum Chunk {
    Markup(String),
    Text(String),
    Value(String),
}

/// What a chunk holds.
pub enum ChunkView {
    Markup(Seq<char>),
    Text(Seq<char>),
    Value(Seq<char>),
}

impl View for Chunk {
    type V = ChunkView;

    open spec fn view(&self) -> ChunkView {
        match self {
            Chunk::Markup(s) => ChunkView::Markup(s@),
            Chunk::Text(s) => ChunkView::Text(s@),
            Chunk::Value(s) => ChunkView::Value(s@),
        }
    }
}

/// What a sequence of chunks holds.
pub open spec fn chunks_view(v: Seq<Chunk>) -> Seq<ChunkView> {
    v.map_values(|c: Chunk| c@)
}

/// How a chunk is written: values and text escaped when `escape` is set.
pub open spec fn render_chunk(c: ChunkView, escape: bool) -> Seq<char> {
    match c {
        ChunkView::Markup(s) => s,
        ChunkView::Text(s) => if escape { escaped_text(s) } else { s },
        ChunkView::Value(s) => if escape { escaped_attr(s) } else { s },
    }
}

/// How a sequence of chunks is written.
pub open spec fn render(cs: Seq<ChunkView>, escape: bool) -> Seq<char>
    decreases cs.len(),
{
    if cs.len() == 0 {
        Seq::empty()
    } else {
        render(cs.drop_last(), escape) + render_chunk(cs.last(), escape)
    }
}

/// The value an attribute is written with when the document is written for `encoding`.
pub open spec fn meta_value(tag: Seq<char>, name: Seq<char>, v: Seq<char>, content_type_meta: bool, encoding: Seq<char>) -> Seq<char> {
    if tag == "meta"@ && name == "charset"@ {
        encoding
    } else if tag == "meta"@ && name == "content"@ && content_type_meta && exists|k: int| first_match_at(v, charset_key(), k) {
        content_with_charset(v, choose|k: int| first_match_at(v, charset_key(), k), encoding)
    } else {
        v
    }
}

/// Whether a `meta` element with these attributes declares a content type.
pub open spec fn is_content_type_meta(tag: Seq<char>, attrs: Seq<Attr>) -> bool {
    tag == "meta"@ && exists|i: int| 0 <= i < attrs.len() && (#[trigger] attrs[i]).name@ == "http-equiv"@
        && (attrs[i].value matches Some(v) && crate::text::eq_ignoring_ascii_case(v@, "content-type"@))
}

/// The chunks of one attribute of an element named `tag`.
pub open spec fn attr_chunks_of(a: Attr, tag: Seq<char>, content_type_meta: bool, encoding: Seq<char>) -> Seq<ChunkView> {
    seq![ChunkView::Markup(" "@ + a.name@)] + match a.value {
        Some(v) => seq![
            ChunkView::Markup("=\""@),
            ChunkView::Value(meta_value(tag, a.name@, v@, content_type_meta, encoding)),
            ChunkView::Markup("\""@),
        ],
        None => Seq::empty(),
    }
}

/// The chunks of the attributes `s`, in order.
pub open spec fn attrs_chunks(s: Seq<Attr>, tag: Seq<char>, content_type_meta: bool, encoding: Seq<char>) -> Seq<ChunkView>
    decreases s.len(),
{
    if s.len() == 0 {
        Seq::empty()
    } else {
        attrs_chunks(s.drop_last(), tag, content_type_meta, encoding) + attr_chunks_of(s.last(), tag, content_type_meta, encoding)
    }
}

/// The chunks of a doctype.
pub open spec fn doctype_chunks(d: DoctypeData) -> Seq<ChunkView> {
    seq![ChunkView::Markup("<!DOCTYPE "@ + d.name@)] + if d.public_id@.len() > 0 {
        seq![ChunkView::Markup(" PUBLIC \""@), ChunkView::Value(d.public_id@), ChunkView::Markup("\""@)]
            + if d.system_id@.len() > 0 {
                seq![ChunkView::Markup(" \""@), ChunkView::Value(d.system_id@), ChunkView::Markup("\""@)]
            } else {
                Seq::empty()
            }
    } else if d.system_id@.len() > 0 {
        seq![ChunkView::Markup(" SYSTEM \""@), ChunkView::Value(d.system_id@), ChunkView::Markup("\""@)]
    } else {
        Seq::empty()
    } + seq![ChunkView::Markup(">"@)]
}

/// The markup of a processing instruction.
pub open spec fn processing_instruction_markup(d: ProcessingInstructionData) -> Seq<char> {
    "<?"@ + d.target@ + (if d.data@.len() > 0 { " "@ + d.data@ } else { Seq::empty() }) + ">"@
}

impl Document {
    /// The chunks that node `x` and its subtree are written as, for `encoding`.
    pub open spec fn node_chunks(self, x: NodeId, encoding: Seq<char>) -> Seq<ChunkView>
        decreases self.bound@ - self.depth@[x@ as int], 0int,
    {
        let below = self.valid(x) && self.depth@[x@ as int] < self.bound@;
        let d = self.depth@[x@ as int] as int;
        match self.type_of(x) {
            NodeType::Document => if below {
                self.forest_chunks(self.children(x), 0, d, encoding, true)
            } else {
                Seq::empty()
            },
            NodeType::Element(e) => {
                let name = e.local_name@;
                let open = seq![ChunkView::Markup("<"@ + name)]
                    + attrs_chunks(sorted_by_name(e.attrs@), name, is_content_type_meta(name, e.attrs@), encoding);
                if is_void_name(name) && self.children(x).len() == 0 {
                    open + seq![ChunkView::Markup("/>"@)]
                } else {
                    open + seq![ChunkView::Markup(">"@)]
                        + (if below { self.forest_chunks(self.children(x), 0, d, encoding, false) } else { Seq::empty() })
                        + seq![ChunkView::Markup("</"@ + name + ">"@)]
                }
            },
            NodeType::Text(t) => if self.parent_of(x) matches Some(p) && self.is_raw_text_at(p) {
                seq![ChunkView::Markup(t@)]
            } else {
                seq![ChunkView::Text(t@)]
            },
            NodeType::CData(t) => seq![ChunkView::Markup("<![CDATA["@ + t@ + "]]>"@)],
            NodeType::Declaration(t) => seq![ChunkView::Markup("<?"@ + t@ + "?>"@)],
            NodeType::TemplateString(t) => seq![ChunkView::Text(t@)],
            NodeType::Comment(t) => seq![ChunkView::Markup("<!--"@ + t@ + "-->"@)],
            NodeType::Doctype(data) => doctype_chunks(*data),
            NodeType::ProcessingInstruction(data) => seq![ChunkView::Markup(processing_instruction_markup(*data))],
        }
    }

    /// The chunks of the subtrees of `s[i..]`, whose parent has depth `d`; with `doctype_newline`
    /// a line break follows each doctype.
    pub open spec fn forest_chunks(self, s: Seq<NodeId>, i: int, d: int, encoding: Seq<char>, doctype_newline: bool) -> Seq<ChunkView>
        decreases self.bound@ - d - 1, s.len() - i + 1,
    {
        if i < 0 || i >= s.len() {
            Seq::empty()
        } else if self.valid(s[i]) && self.depth@[s[i]@ as int] == d + 1 && d + 1 < self.bound@ {
            self.node_chunks(s[i], encoding)
                + (if doctype_newline && self.type_of(s[i]) is Doctype { seq![ChunkView::Markup("\n"@)] } else { Seq::empty() })
                + self.forest_chunks(s, i + 1, d, encoding, doctype_newline)
        } else {
            self.forest_chunks(s, i + 1, d, encoding, doctype_newline)
        }
    }
}


/// A first match is the only one.
proof fn lemma_first_match_unique(v: Seq<char>, key: Seq<char>, k1: int, k2: int)
    requires
        first_match_at(v, key, k1),
        first_match_at(v, key, k2),
    ensures
        k1 == k2,
{
    if k1 < k2 {
        assert(!matches_at_ignoring_case(v, key, k1));
    } else if k2 < k1 {
        assert(!matches_at_ignoring_case(v, key, k2));
    }
}

/// A string holding the characters of `s`.
fn copy_str(s: &str) -> (r: String)
    ensures
        r@ == s@,
{
    let chars = chars_of(s);
    crate::text::string_from_chars(&chars)
}

/// The value an attribute of an element named `tag` is written with, for `encoding`.
fn attr_written_value(tag: &str, name: &str, v: &str, content_type_meta: bool, encoding: &str) -> (r: String)
    ensures
        r@ == meta_value(tag@, name@, v@, content_type_meta, encoding@),
{
    match substitute_meta_charset_attr(tag, name, v, content_type_meta, encoding) {
        Some(s) => {
            proof {
                if !(tag@ == "meta"@ && name@ == "charset"@) {
                    let k = choose|k: int| first_match_at(v@, charset_key(), k) && s@ == content_with_charset(v@, k, encoding@);
                    let k2 = choose|k: int| first_match_at(v@, charset_key(), k);
                    lemma_first_match_unique(v@, charset_key(), k, k2);
                }
            }
            s
        },
        None => {
            proof {
                if tag@ == "meta"@ && name@ == "content"@ && content_type_meta {
                    assert(!exists|k: int| first_match_at(v@, charset_key(), k));
                }
            }
            copy_str(v)
        },
    }
}

/// Whether `a` equals `b` when ASCII letters are compared without case.
fn eq_ignore_ascii_case(a: &str, b: &str) -> (r: bool)
    ensures
        r == crate::text::eq_ignoring_ascii_case(a@, b@),
{
    let x = chars_of(a);
    let y = chars_of(b);
    if x.len() != y.len() {
        return false;
    }
    let mut i: usize = 0;
    while i < x.len()
        invariant
            x@.len() == y@.len(),
            x@ == a@,
            y@ == b@,
            i <= x@.len(),
            forall|j: int| 0 <= j < i ==> lower_char(#[trigger] x@[j]) == lower_char(y@[j]),
        decreases x@.len() - i,
    {
        if ascii_lower(x[i]) != ascii_lower(y[i]) {
            return false;
        }
        i += 1;
    }
    true
}

/// Whether an element named `tag` with these attributes is a `meta` that declares a content type.
fn content_type_meta(tag: &str, attrs: &[Attr]) -> (r: bool)
    ensures
        r == is_content_type_meta(tag@, attrs@),
{
    if !str_eq(tag, "meta") {
        return false;
    }
    let mut i: usize = 0;
    while i < attrs.len()
        invariant
            tag@ == "meta"@,
            i <= attrs@.len(),
            forall|j: int| 0 <= j < i ==> !((#[trigger] attrs@[j]).name@ == "http-equiv"@
                && (attrs@[j].value matches Some(v) && crate::text::eq_ignoring_ascii_case(v@, "content-type"@))),
        decreases attrs@.len() - i,
    {
        let attr = &attrs[i];
        if str_eq(attr.name.as_str(), "http-equiv") {
            if let Some(v) = &attr.value {
                if eq_ignore_ascii_case(v.as_str(), "content-type") {
                    return true;
                }
            }
        }
        i += 1;
    }
    false
}

/// A markup chunk holding `prefix`, `middle` and `suffix`.
fn markup3(prefix: &str, middle: &str, suffix: &str) -> (c: Chunk)
    ensures
        c@ == ChunkView::Markup(prefix@ + middle@ + suffix@),
{
    let mut s = copy_str(prefix);
    push_str(&mut s, middle);
    push_str(&mut s, suffix);
    Chunk::Markup(s)
}


/// A markup chunk holding `s`.
fn markup1(s: &str) -> (c: Chunk)
    ensures
        c@ == ChunkView::Markup(s@),
{
    Chunk::Markup(copy_str(s))
}

/// A markup chunk holding `prefix` and `rest`.
fn markup2(prefix: &str, rest: &str) -> (c: Chunk)
    ensures
        c@ == ChunkView::Markup(prefix@ + rest@),
{
    let mut s = copy_str(prefix);
    push_str(&mut s, rest);
    Chunk::Markup(s)
}

fn push_chunk(out: &mut Vec<Chunk>, c: Chunk)
    ensures
        chunks_view(final(out)@) == chunks_view(old(out)@).push(c@),
{
    out.push(c);
    proof {
        assert(chunks_view(out@) =~= chunks_view(old(out)@).push(c@));
    }
}

/// Appends the chunks of the attributes `attrs` of an element named `tag`, sorted by name.
fn attrs_chunks_into(tag: &str, attrs: &[Attr], encoding: &str, out: &mut Vec<Chunk>)
    ensures
        chunks_view(final(out)@) == chunks_view(old(out)@) + attrs_chunks(sorted_by_name(attrs@), tag@, is_content_type_meta(tag@, attrs@), encoding@),
{
    let order = sorted_attr_order(attrs);
    let ctm = content_type_meta(tag, attrs);
    let ghost sorted = sorted_by_name(attrs@);
    let ghost start = chunks_view(out@);
    let mut j: usize = 0;
    proof {
        assert(sorted.take(0) =~= Seq::<Attr>::empty());
        assert(chunks_view(out@) =~= start + attrs_chunks(sorted.take(0), tag@, ctm, encoding@));
    }
    while j < order.len()
        invariant
            j <= order@.len(),
            forall|i: int| 0 <= i < order@.len() ==> #[trigger] order@[i] < attrs@.len(),
            order@.map_values(|i: usize| attrs@[i as int]) == sorted,
            ctm == is_content_type_meta(tag@, attrs@),
            chunks_view(out@) == start + attrs_chunks(sorted.take(j as int), tag@, ctm, encoding@),
        decreases order@.len() - j,
    {
        let a = &attrs[order[j]];
        proof {
            assert(sorted[j as int] == attrs@[order@[j as int] as int]);
            assert(sorted.take(j as int + 1).drop_last() =~= sorted.take(j as int));
            assert(sorted.take(j as int + 1).last() == *a);
        }
        let ghost before = chunks_view(out@);
        push_chunk(out, markup2(" ", a.name.as_str()));
        match &a.value {
            Some(v) => {
                push_chunk(out, markup1("=\""));
                push_chunk(out, Chunk::Value(attr_written_value(tag, a.name.as_str(), v.as_str(), ctm, encoding)));
                push_chunk(out, markup1("\""));
            },
            None => {},
        }
        proof {
            assert(chunks_view(out@) =~= before + attr_chunks_of(*a, tag@, ctm, encoding@));
        }
        j += 1;
    }
    proof {
        crate::serialize::lemma_sorted_len(attrs@);
        assert(sorted.take(order@.len() as int) =~= sorted);
    }
}

impl Document {
    /// Appends the chunks that node `x` and its subtree are written as.
    fn chunks_into(&self, x: NodeId, encoding: &str, out: &mut Vec<Chunk>)
        requires
            self.wf(),
            self.valid(x),
        ensures
            chunks_view(final(out)@) == chunks_view(old(out)@) + self.node_chunks(x, encoding@),
        decreases self.bound@ - self.depth@[x@ as int], 1int,
    {
        proof {
            self.lemma_wf_basic();
            self.lemma_wf_ends_at(x);
        }
        let ghost start = chunks_view(out@);
        match &self.nodes[x.index()].node_type {
            NodeType::Document => {
                self.forest_chunks_into(x, encoding, true, out);
            },
            NodeType::Element(e) => {
                let name = e.tag_name();
                push_chunk(out, markup2("<", name));
                attrs_chunks_into(name, e.attrs.as_slice(), encoding, out);
                if is_void_element(name) && self.nodes[x.index()].first_child.is_none() {
                    push_chunk(out, markup1("/>"));
                } else {
                    push_chunk(out, markup1(">"));
                    self.forest_chunks_into(x, encoding, false, out);
                    push_chunk(out, markup3("</", name, ">"));
                }
            },
            NodeType::Text(text) => {
                if self.text_has_raw_text_parent(x) {
                    push_chunk(out, Chunk::Markup(text.clone()));
                } else {
                    push_chunk(out, Chunk::Text(text.clone()));
                }
            },
            NodeType::CData(text) => {
                push_chunk(out, markup3("<![CDATA[", text.as_str(), "]]>"));
            },
            NodeType::Declaration(text) => {
                push_chunk(out, markup3("<?", text.as_str(), "?>"));
            },
            NodeType::TemplateString(text) => {
                push_chunk(out, Chunk::Text(text.clone()));
            },
            NodeType::Comment(text) => {
                push_chunk(out, markup3("<!--", text.as_str(), "-->"));
            },
            NodeType::Doctype(data) => {
                push_chunk(out, markup2("<!DOCTYPE ", data.name.as_str()));
                if data.public_id.as_str().unicode_len() > 0 {
                    push_chunk(out, markup1(" PUBLIC \""));
                    push_chunk(out, Chunk::Value(data.public_id.clone()));
                    push_chunk(out, markup1("\""));
                    if data.system_id.as_str().unicode_len() > 0 {
                        push_chunk(out, markup1(" \""));
                        push_chunk(out, Chunk::Value(data.system_id.clone()));
                        push_chunk(out, markup1("\""));
                    }
                } else if data.system_id.as_str().unicode_len() > 0 {
                    push_chunk(out, markup1(" SYSTEM \""));
                    push_chunk(out, Chunk::Value(data.system_id.clone()));
                    push_chunk(out, markup1("\""));
                }
                push_chunk(out, markup1(">"));
                proof {
                    assert(chunks_view(out@) =~= start + doctype_chunks(**data));
                }
            },
            NodeType::ProcessingInstruction(data) => {
                let mut s = copy_str("<?");
                push_str(&mut s, data.target.as_str());
                if data.data.as_str().unicode_len() > 0 {
                    push_str(&mut s, " ");
                    push_str(&mut s, data.data.as_str());
                }
                push_str(&mut s, ">");
                proof {
                    assert(s@ =~= processing_instruction_markup(**data));
                }
                push_chunk(out, Chunk::Markup(s));
            },
        }
        proof {
            assert(chunks_view(out@) =~= start + self.node_chunks(x, encoding@));
        }
    }

    /// Appends the chunks of the children of `x`, a line break after each doctype when
    /// `doctype_newline` is set.
    fn forest_chunks_into(&self, x: NodeId, encoding: &str, doctype_newline: bool, out: &mut Vec<Chunk>)
        requires
            self.wf(),
            self.valid(x),
        ensures
            chunks_view(final(out)@) == chunks_view(old(out)@) + self.forest_chunks(self.children(x), 0, self.depth@[x@ as int] as int, encoding@, doctype_newline),
        decreases self.bound@ - self.depth@[x@ as int], 0int,
    {
        let children = self.child_nodes(x);
        let ghost s = children@;
        let ghost d = self.depth@[x@ as int] as int;
        let ghost start = chunks_view(out@);
        let mut i: usize = 0;
        proof {
            assert(chunks_view(out@) =~= start + Seq::<ChunkView>::empty());
        }
        while i < children.len()
            invariant
                self.wf(),
                self.valid(x),
                s == children@,
                s == self.children(x),
                d == self.depth@[x@ as int],
                i <= s.len(),
                chunks_view(out@) + self.forest_chunks(s, i as int, d, encoding@, doctype_newline)
                    == start + self.forest_chunks(s, 0, d, encoding@, doctype_newline),
            decreases s.len() - i,
        {
            let child = children[i];
            proof {
                self.lemma_wf_child(x, i as int);
            }
            let ghost before = chunks_view(out@);
            self.chunks_into(child, encoding, out);
            let is_doctype = match &self.nodes[child.index()].node_type {
                NodeType::Doctype(_) => true,
                _ => false,
            };
            if doctype_newline && is_doctype {
                push_chunk(out, markup1("\n"));
            }
            proof {
                let tail = self.forest_chunks(s, i as int + 1, d, encoding@, doctype_newline);
                let nl = if doctype_newline && self.type_of(child) is Doctype { seq![ChunkView::Markup("\n"@)] } else { Seq::<ChunkView>::empty() };
                assert(self.forest_chunks(s, i as int, d, encoding@, doctype_newline) == self.node_chunks(child, encoding@) + nl + tail);
                assert(chunks_view(out@) =~= before + self.node_chunks(child, encoding@) + nl);
                assert(chunks_view(out@) + tail =~= before + (self.node_chunks(child, encoding@) + nl + tail));
            }
            i += 1;
        }
        proof {
            assert(self.forest_chunks(s, s.len() as int, d, encoding@, doctype_newline) == Seq::<ChunkView>::empty());
            assert(chunks_view(out@) =~= chunks_view(out@) + Seq::<ChunkView>::empty());
        }
    }
}


/// Writes `chunks` in order: markup as it is, text and attribute values escaped when `escape`
/// is set and as they are otherwise.
pub fn render_chunks(chunks: &Vec<Chunk>, escape: bool) -> (out: String)
    ensures
        out@ == render(chunks_view(chunks@), escape),
{
    let mut out = String::new();
    let ghost v = chunks_view(chunks@);
    let mut i: usize = 0;
    while i < chunks.len()
        invariant
            i <= chunks@.len(),
            v == chunks_view(chunks@),
            out@ == render(v.take(i as int), escape),
        decreases chunks@.len() - i,
    {
        match &chunks[i] {
            Chunk::Markup(s) => push_str(&mut out, s.as_str()),
            Chunk::Text(s) => if escape {
                escape_text(s.as_str(), &mut out);
            } else {
                push_str(&mut out, s.as_str());
            },
            Chunk::Value(s) => if escape {
                escape_attr(s.as_str(), &mut out);
            } else {
                push_str(&mut out, s.as_str());
            },
        }
        proof {
            assert(v.take(i as int + 1).drop_last() =~= v.take(i as int));
            assert(v[i as int] == chunks@[i as int]@);
        }
        i += 1;
    }
    proof {
        assert(v.take(chunks@.len() as int) =~= v);
    }
    out
}

impl Document {
    /// The chunks that node `id` and its subtree are written as, for `encoding`.
    pub fn serialization_chunks(&self, id: NodeId, encoding: &str) -> (out: Vec<Chunk>)
        requires
            self.wf(),
            self.valid(id),
        ensures
            chunks_view(out@) == self.node_chunks(id, encoding@),
    {
        let mut out: Vec<Chunk> = Vec::new();
        self.chunks_into(id, encoding, &mut out);
        proof {
            assert(chunks_view(Seq::<Chunk>::empty()) =~= Seq::<ChunkView>::empty());
            assert(Seq::<ChunkView>::empty() + self.node_chunks(id, encoding@) =~= self.node_chunks(id, encoding@));
        }
        out
    }

    /// The chunks that the children of `id` are written as, for `encoding`.
    pub fn inner_serialization_chunks(&self, id: NodeId, encoding: &str) -> (out: Vec<Chunk>)
        requires
            self.wf(),
            self.valid(id),
        ensures
            chunks_view(out@) == self.forest_chunks(self.children(id), 0, self.depth@[id@ as int] as int, encoding@, false),
    {
        let mut out: Vec<Chunk> = Vec::new();
        self.forest_chunks_into(id, encoding, false, &mut out);
        proof {
            let f = self.forest_chunks(self.children(id), 0, self.depth@[id@ as int] as int, encoding@, false);
            assert(chunks_view(Seq::<Chunk>::empty()) =~= Seq::<ChunkView>::empty());
            assert(Seq::<ChunkView>::empty() + f =~= f);
        }
        out
    }

    /// The markup of `id` and its subtree for `encoding`, text and attribute values escaped
    /// when `escape` is set.
    pub fn outer_html_with_encoding_options(&self, id: NodeId, escape: bool, eventual_encoding: &str) -> (out: String)
        requires
            self.wf(),
            self.valid(id),
        ensures
            out@ == render(self.node_chunks(id, eventual_encoding@), escape),
    {
        let chunks = self.serialization_chunks(id, eventual_encoding);
        render_chunks(&chunks, escape)
    }

    /// The markup of `id` and its subtree for UTF-8.
    pub fn outer_html_with_options(&self, id: NodeId, escape: bool) -> (out: String)
        requires
            self.wf(),
            self.valid(id),
        ensures
            out@ == render(self.node_chunks(id, "utf-8"@), escape),
    {
        self.outer_html_with_encoding_options(id, escape, "utf-8")
    }

    /// The escaped markup of `id` and its subtree for UTF-8.
    pub fn outer_html(&self, id: NodeId) -> (out: String)
        requires
            self.wf(),
            self.valid(id),
        ensures
            out@ == render(self.node_chunks(id, "utf-8"@), true),
    {
        self.outer_html_with_options(id, true)
    }

    /// The markup of the children of `id` for `encoding`.
    pub fn inner_html_with_encoding_options(&self, id: NodeId, escape: bool, eventual_encoding: &str) -> (out: String)
        requires
            self.wf(),
            self.valid(id),
        ensures
            out@ == render(self.forest_chunks(self.children(id), 0, self.depth@[id@ as int] as int, eventual_encoding@, false), escape),
    {
        let chunks = self.inner_serialization_chunks(id, eventual_encoding);
        render_chunks(&chunks, escape)
    }
}


/// `n` spaces.
pub open spec fn spaces(n: nat) -> Seq<char> {
    Seq::new(n, |i: int| ' ')
}

/// The chunks of the attributes `s` as prettified markup writes them.
pub open spec fn pretty_attrs_chunks(s: Seq<Attr>) -> Seq<ChunkView>
    decreases s.len(),
{
    if s.len() == 0 {
        Seq::empty()
    } else {
        pretty_attrs_chunks(s.drop_last()) + seq![ChunkView::Markup(" "@ + s.last().name@)] + match s.last().value {
            Some(v) => seq![ChunkView::Markup("=\""@), ChunkView::Value(v@), ChunkView::Markup("\""@)],
            None => Seq::empty(),
        }
    }
}

/// A string of `n` spaces.
fn spaces_string(n: usize) -> (s: String)
    ensures
        s@ == spaces(n as nat),
{
    let mut s = String::new();
    let mut i: usize = 0;
    while i < n
        invariant
            i <= n,
            s@ == spaces(i as nat),
        decreases n - i,
    {
        crate::text::push_char(&mut s, ' ');
        i += 1;
        proof {
            assert(s@ =~= spaces(i as nat));
        }
    }
    s
}

/// A markup chunk of `n` spaces followed by `a`, `b` and `c`.
fn indented(n: usize, a: &str, b: &str, c: &str) -> (r: Chunk)
    ensures
        r@ == ChunkView::Markup(spaces(n as nat) + a@ + b@ + c@),
{
    let mut s = spaces_string(n);
    push_str(&mut s, a);
    push_str(&mut s, b);
    push_str(&mut s, c);
    Chunk::Markup(s)
}

impl Document {
    /// The chunks that `x` and its subtree are prettified as, `x` indented by `n` spaces.
    pub open spec fn pretty_chunks(self, x: NodeId, n: nat) -> Seq<ChunkView>
        decreases self.bound@ - self.depth@[x@ as int], 0int,
    {
        let below = self.valid(x) && self.depth@[x@ as int] < self.bound@;
        let d = self.depth@[x@ as int] as int;
        match self.type_of(x) {
            NodeType::Document => if below {
                self.forest_pretty(self.children(x), 0, d, n)
            } else {
                Seq::empty()
            },
            NodeType::Element(e) => {
                let name = e.local_name@;
                let open = seq![ChunkView::Markup(spaces(n) + "<"@ + name)] + pretty_attrs_chunks(sorted_by_name(e.attrs@));
                if is_void_name(name) && self.children(x).len() == 0 {
                    open + seq![ChunkView::Markup("/>\n"@)]
                } else {
                    open + seq![ChunkView::Markup(">\n"@)]
                        + (if below { self.forest_pretty(self.children(x), 0, d, n + 1) } else { Seq::empty() })
                        + seq![ChunkView::Markup(spaces(n) + "</"@ + name + ">\n"@)]
                }
            },
            NodeType::Text(t) => if trimmed(t@).len() > 0 {
                seq![ChunkView::Markup(spaces(n))] + (if self.parent_of(x) matches Some(p) && self.is_raw_text_at(p) {
                    seq![ChunkView::Markup(trimmed(t@))]
                } else {
                    seq![ChunkView::Text(trimmed(t@))]
                }) + seq![ChunkView::Markup("\n"@)]
            } else {
                Seq::empty()
            },
            NodeType::CData(t) => if trimmed(t@).len() > 0 {
                seq![ChunkView::Markup(spaces(n) + "<![CDATA["@ + trimmed(t@) + "]]>\n"@)]
            } else {
                Seq::empty()
            },
            NodeType::Declaration(t) => if trimmed(t@).len() > 0 {
                seq![ChunkView::Markup(spaces(n) + "<?"@ + trimmed(t@) + "?>\n"@)]
            } else {
                Seq::empty()
            },
            NodeType::TemplateString(t) => if trimmed(t@).len() > 0 {
                seq![ChunkView::Markup(spaces(n)), ChunkView::Text(trimmed(t@)), ChunkView::Markup("\n"@)]
            } else {
                Seq::empty()
            },
            NodeType::Comment(t) => seq![ChunkView::Markup(spaces(n) + "<!--"@ + t@ + "-->\n"@)],
            _ => seq![ChunkView::Markup(spaces(n))] + self.node_chunks(x, "utf-8"@) + seq![ChunkView::Markup("\n"@)],
        }
    }

    /// The prettified chunks of the subtrees of `s[i..]`, each indented by `n` spaces.
    pub open spec fn forest_pretty(self, s: Seq<NodeId>, i: int, d: int, n: nat) -> Seq<ChunkView>
        decreases self.bound@ - d - 1, s.len() - i + 1,
    {
        if i < 0 || i >= s.len() {
            Seq::empty()
        } else if self.valid(s[i]) && self.depth@[s[i]@ as int] == d + 1 && d + 1 < self.bound@ {
            self.pretty_chunks(s[i], n) + self.forest_pretty(s, i + 1, d, n)
        } else {
            self.forest_pretty(s, i + 1, d, n)
        }
    }
}


/// Appends the prettified chunks of the attributes `attrs`, sorted by name.
fn pretty_attrs_into(attrs: &[Attr], out: &mut Vec<Chunk>)
    ensures
        chunks_view(final(out)@) == chunks_view(old(out)@) + pretty_attrs_chunks(sorted_by_name(attrs@)),
{
    let order = sorted_attr_order(attrs);
    let ghost sorted = sorted_by_name(attrs@);
    let ghost start = chunks_view(out@);
    let mut j: usize = 0;
    proof {
        assert(sorted.take(0) =~= Seq::<Attr>::empty());
        assert(chunks_view(out@) =~= start + pretty_attrs_chunks(sorted.take(0)));
    }
    while j < order.len()
        invariant
            j <= order@.len(),
            forall|i: int| 0 <= i < order@.len() ==> #[trigger] order@[i] < attrs@.len(),
            order@.map_values(|i: usize| attrs@[i as int]) == sorted,
            chunks_view(out@) == start + pretty_attrs_chunks(sorted.take(j as int)),
        decreases order@.len() - j,
    {
        let a = &attrs[order[j]];
        proof {
            assert(sorted[j as int] == attrs@[order@[j as int] as int]);
            assert(sorted.take(j as int + 1).drop_last() =~= sorted.take(j as int));
            assert(sorted.take(j as int + 1).last() == *a);
        }
        let ghost before = chunks_view(out@);
        push_chunk(out, markup2(" ", a.name.as_str()));
        match &a.value {
            Some(v) => {
                push_chunk(out, markup1("=\""));
                push_chunk(out, Chunk::Value(v.clone()));
                push_chunk(out, markup1("\""));
            },
            None => {},
        }
        proof {
            assert(chunks_view(out@) =~= start + pretty_attrs_chunks(sorted.take(j as int + 1)));
        }
        j += 1;
    }
    proof {
        crate::serialize::lemma_sorted_len(attrs@);
        assert(sorted.take(order@.len() as int) =~= sorted);
    }
}

impl Document {
    /// Appends the prettified chunks of `x` and its subtree, `x` indented by `n` spaces.
    fn pretty_into(&self, x: NodeId, n: usize, out: &mut Vec<Chunk>)
        requires
            self.wf(),
            self.valid(x),
            n <= self.depth@[x@ as int] - self.depth@[self.tree_root(x)@ as int],
        ensures
            chunks_view(final(out)@) == chunks_view(old(out)@) + self.pretty_chunks(x, n as nat),
        decreases self.bound@ - self.depth@[x@ as int], 1int,
    {
        proof {
            self.lemma_wf_basic();
            self.lemma_wf_ends_at(x);
            self.lemma_ancestors_fit(x);
        }
        let ghost start = chunks_view(out@);
        match &self.nodes[x.index()].node_type {
            NodeType::Document => {
                self.forest_pretty_into(x, n, out);
            },
            NodeType::Element(e) => {
                let name = e.tag_name();
                push_chunk(out, indented(n, "<", name, ""));
                pretty_attrs_into(e.attrs.as_slice(), out);
                if is_void_element(name) && self.nodes[x.index()].first_child.is_none() {
                    push_chunk(out, markup1("/>\n"));
                } else {
                    push_chunk(out, markup1(">\n"));
                    self.forest_pretty_into(x, n + 1, out);
                    push_chunk(out, indented(n, "</", name, ">\n"));
                }
            },
            NodeType::Text(text) => {
                let trimmed_text = trim(text.as_str());
                if trimmed_text.as_str().unicode_len() > 0 {
                    push_chunk(out, indented(n, "", "", ""));
                    if self.text_has_raw_text_parent(x) {
                        push_chunk(out, Chunk::Markup(trimmed_text));
                    } else {
                        push_chunk(out, Chunk::Text(trimmed_text));
                    }
                    push_chunk(out, markup1("\n"));
                }
            },
            NodeType::CData(text) => {
                let trimmed_text = trim(text.as_str());
                if trimmed_text.as_str().unicode_len() > 0 {
                    let mut s = spaces_string(n);
                    push_str(&mut s, "<![CDATA[");
                    push_str(&mut s, trimmed_text.as_str());
                    push_str(&mut s, "]]>\n");
                    push_chunk(out, Chunk::Markup(s));
                }
            },
            NodeType::Declaration(text) => {
                let trimmed_text = trim(text.as_str());
                if trimmed_text.as_str().unicode_len() > 0 {
                    push_chunk(out, indented(n, "<?", trimmed_text.as_str(), "?>\n"));
                }
            },
            NodeType::TemplateString(text) => {
                let trimmed_text = trim(text.as_str());
                if trimmed_text.as_str().unicode_len() > 0 {
                    push_chunk(out, Chunk::Markup(spaces_string(n)));
                    push_chunk(out, Chunk::Text(trimmed_text));
                    push_chunk(out, markup1("\n"));
                }
            },
            NodeType::Comment(text) => {
                push_chunk(out, indented(n, "<!--", text.as_str(), "-->\n"));
            },
            _ => {
                push_chunk(out, Chunk::Markup(spaces_string(n)));
                self.chunks_into(x, "utf-8", out);
                push_chunk(out, markup1("\n"));
            },
        }
        proof {
            reveal_strlit("");
            assert(chunks_view(out@) =~= start + self.pretty_chunks(x, n as nat));
        }
    }

    /// Appends the prettified chunks of the children of `x`, each indented by `n` spaces.
    fn forest_pretty_into(&self, x: NodeId, n: usize, out: &mut Vec<Chunk>)
        requires
            self.wf(),
            self.valid(x),
            n <= self.depth@[x@ as int] + 1 - self.depth@[self.tree_root(x)@ as int],
        ensures
            chunks_view(final(out)@) == chunks_view(old(out)@) + self.forest_pretty(self.children(x), 0, self.depth@[x@ as int] as int, n as nat),
        decreases self.bound@ - self.depth@[x@ as int], 0int,
    {
        let children = self.child_nodes(x);
        let ghost s = children@;
        let ghost d = self.depth@[x@ as int] as int;
        let ghost start = chunks_view(out@);
        let mut i: usize = 0;
        proof {
            assert(chunks_view(out@) =~= start + Seq::<ChunkView>::empty());
        }
        while i < children.len()
            invariant
                self.wf(),
                self.valid(x),
                s == children@,
                s == self.children(x),
                d == self.depth@[x@ as int],
                n <= self.depth@[x@ as int] + 1 - self.depth@[self.tree_root(x)@ as int],
                i <= s.len(),
                chunks_view(out@) + self.forest_pretty(s, i as int, d, n as nat)
                    == start + self.forest_pretty(s, 0, d, n as nat),
            decreases s.len() - i,
        {
            let child = children[i];
            proof {
                self.lemma_wf_child(x, i as int);
                assert(self.tree_root(child) == self.tree_root(x));
            }
            let ghost before = chunks_view(out@);
            self.pretty_into(child, n, out);
            proof {
                let tail = self.forest_pretty(s, i as int + 1, d, n as nat);
                assert(chunks_view(out@) + tail =~= before + (self.pretty_chunks(child, n as nat) + tail));
            }
            i += 1;
        }
        proof {
            assert(chunks_view(out@) =~= chunks_view(out@) + Seq::<ChunkView>::empty());
        }
    }

    /// The chunks that `id` and its subtree are prettified as.
    pub fn prettify_chunks(&self, id: NodeId) -> (out: Vec<Chunk>)
        requires
            self.wf(),
            self.valid(id),
        ensures
            chunks_view(out@) == self.pretty_chunks(id, 0),
    {
        let mut out: Vec<Chunk> = Vec::new();
        proof {
            self.lemma_ancestors(id);
        }
        self.pretty_into(id, 0, &mut out);
        proof {
            assert(chunks_view(Seq::<Chunk>::empty()) =~= Seq::<ChunkView>::empty());
            assert(Seq::<ChunkView>::empty() + self.pretty_chunks(id, 0) =~= self.pretty_chunks(id, 0));
        }
        out
    }

    /// `id` and its subtree as indented markup, one node per line, text and attribute values
    /// escaped when `escape` is set.
    pub fn prettify_with_options(&self, id: NodeId, escape: bool) -> (out: String)
        requires
            self.wf(),
            self.valid(id),
        ensures
            out@ == render(self.pretty_chunks(id, 0), escape),
    {
        let chunks = self.prettify_chunks(id);
        render_chunks(&chunks, escape)
    }
}

} // verus!
