use vstd::prelude::*;
use crate::dom::{Document, NodeId, NodeType};
use crate::element::value_view;
use crate::text::{pushed, push_char, push_str, push_string_value, str_eq};

verus! {

/// Which kinds of node text extraction takes text from.
#[derive(Clone, Copy)]
pub struct TextOptions {
    pub text: bool,
    pub cdata: bool,
    pub declaration: bool,
    pub template: bool,
    pub comments: bool,
    pub script: bool,
    pub stylesheet: bool,
    pub raw_text: bool,
    pub doctype: bool,
    pub processing_instruction: bool,
    pub root_raw_text: bool,
}

/// Whether the subtree of a raw text element named `name` is read.
pub open spec fn raw_included(o: TextOptions, name: Seq<char>) -> bool {
    o.raw_text || (name == "script"@ && o.script) || (name == "style"@ && o.stylesheet)
}

impl Document {
    /// Whether the text of text node `x` is taken, given its parent and the extraction root.
    pub open spec fn text_taken(self, root: NodeId, x: NodeId, o: TextOptions) -> bool {
        match self.parent_of(x) {
            Some(p) => match self.raw_text_name_of(p) {
                Some(n) => if n == "script"@ {
                    o.script || o.raw_text || (o.root_raw_text && o.text && p == root)
                } else if n == "style"@ {
                    o.stylesheet || o.raw_text || (o.root_raw_text && o.text && p == root)
                } else {
                    o.text
                },
                None => o.text,
            },
            None => o.text,
        }
    }

    /// What node `x` itself gives to text extraction, if anything.
    pub open spec fn own_text(self, root: NodeId, x: NodeId, o: TextOptions) -> Option<Seq<char>> {
        match self.type_of(x) {
            NodeType::Text(t) => if self.text_taken(root, x, o) { Some(t@) } else { None },
            NodeType::CData(t) => if o.cdata { Some(t@) } else { None },
            NodeType::Declaration(t) => if o.declaration { Some(t@) } else { None },
            NodeType::TemplateString(t) => if o.template { Some(t@) } else { None },
            NodeType::Comment(t) => if o.comments { Some(t@) } else { None },
            NodeType::Doctype(d) => if o.doctype { Some(d.name@) } else { None },
            NodeType::ProcessingInstruction(d) => if o.processing_instruction {
                if d.data@.len() == 0 {
                    Some(d.target@)
                } else {
                    Some(d.target@ + seq![' '] + d.data@)
                }
            } else {
                None
            },
            _ => None,
        }
    }

    /// Whether extraction from `root` skips the subtree of `x`: a raw text element below the
    /// root whose kind is not read.
    pub open spec fn text_skipped(self, root: NodeId, x: NodeId, o: TextOptions) -> bool {
        x != root && (self.raw_text_name_of(x) matches Some(n) && !raw_included(o, n))
    }

    /// The state of extraction after the subtree of `x`, in document order, from `state`.
    pub open spec fn text_state(
        self,
        state: (Seq<char>, bool),
        root: NodeId,
        x: NodeId,
        o: TextOptions,
        sep: Seq<char>,
        strip: bool,
    ) -> (Seq<char>, bool)
        decreases self.bound@ - self.depth@[x@ as int], 0int,
    {
        if self.text_skipped(root, x, o) {
            state
        } else {
            let after_own = match self.own_text(root, x, o) {
                Some(v) => pushed(state, v, sep, strip),
                None => state,
            };
            if self.valid(x) && self.depth@[x@ as int] < self.bound@ {
                self.forest_text_state(after_own, root, self.children(x), 0, self.depth@[x@ as int] as int, o, sep, strip)
            } else {
                after_own
            }
        }
    }

    /// The state of extraction after the subtrees of `s[i..]`, whose parent has depth `d`.
    pub open spec fn forest_text_state(
        self,
        state: (Seq<char>, bool),
        root: NodeId,
        s: Seq<NodeId>,
        i: int,
        d: int,
        o: TextOptions,
        sep: Seq<char>,
        strip: bool,
    ) -> (Seq<char>, bool)
        decreases self.bound@ - d - 1, s.len() - i + 1,
    {
        if i < 0 || i >= s.len() {
            state
        } else if self.valid(s[i]) && self.depth@[s[i]@ as int] == d + 1 && d + 1 < self.bound@ {
            self.forest_text_state(self.text_state(state, root, s[i], o, sep, strip), root, s, i + 1, d, o, sep, strip)
        } else {
            self.forest_text_state(state, root, s, i + 1, d, o, sep, strip)
        }
    }

    /// What node `x` itself gives to text extraction, if anything.
    fn own_text_value(&self, root: NodeId, x: NodeId, o: TextOptions) -> (r: Option<String>)
        requires
            self.wf(),
            self.valid(x),
        ensures
            value_view(r) == self.own_text(root, x, o),
    {
        match &self.nodes[x.index()].node_type {
            NodeType::Text(text) => {
                let wanted = match self.raw_text_parent_name(x) {
                    Some(name) => if str_eq(name, "script") {
                        o.script || o.raw_text || (o.root_raw_text && o.text && self.nodes[x.index()].parent == Some(root))
                    } else if str_eq(name, "style") {
                        o.stylesheet || o.raw_text || (o.root_raw_text && o.text && self.nodes[x.index()].parent == Some(root))
                    } else {
                        o.text
                    },
                    None => o.text,
                };
                if wanted {
                    Some(text.clone())
                } else {
                    None
                }
            },
            NodeType::CData(text) => if o.cdata { Some(text.clone()) } else { None },
            NodeType::Declaration(text) => if o.declaration { Some(text.clone()) } else { None },
            NodeType::TemplateString(text) => if o.template { Some(text.clone()) } else { None },
            NodeType::Comment(text) => if o.comments { Some(text.clone()) } else { None },
            NodeType::Doctype(data) => if o.doctype { Some(data.name.clone()) } else { None },
            NodeType::ProcessingInstruction(data) => if o.processing_instruction {
                if data.data.as_str().unicode_len() == 0 {
                    Some(data.target.clone())
                } else {
                    let mut value = String::new();
                    push_str(&mut value, data.target.as_str());
                    push_char(&mut value, ' ');
                    push_str(&mut value, data.data.as_str());
                    proof {
                        assert(value@ =~= data.target@ + seq![' '] + data.data@);
                    }
                    Some(value)
                }
            } else {
                None
            },
            _ => None,
        }
    }

    /// Extracts the text of the subtree of `x` into `out`.
    fn text_into(
        &self,
        root: NodeId,
        x: NodeId,
        o: TextOptions,
        separator: &str,
        strip: bool,
        first: &mut bool,
        out: &mut String,
    )
        requires
            self.wf(),
            self.valid(x),
            self.valid(root),
        ensures
            (final(out)@, *final(first)) == self.text_state((old(out)@, *old(first)), root, x, o, separator@, strip),
        decreases self.bound@ - self.depth@[x@ as int],
    {
        proof {
            self.lemma_wf_basic();
        }
        if x != root {
            if let Some(name) = self.raw_text_element_name(x) {
                let wanted = o.raw_text || (str_eq(name, "script") && o.script) || (str_eq(name, "style") && o.stylesheet);
                if !wanted {
                    return;
                }
            }
        }
        match self.own_text_value(root, x, o) {
            Some(value) => push_string_value(value.as_str(), separator, strip, first, out),
            None => {},
        }
        let children = self.child_nodes(x);
        let ghost s = children@;
        let ghost d = self.depth@[x@ as int] as int;
        let ghost start = (out@, *first);
        proof {
            assert(!self.text_skipped(root, x, o));
            let after_own = match self.own_text(root, x, o) {
                Some(v) => pushed((old(out)@, *old(first)), v, separator@, strip),
                None => (old(out)@, *old(first)),
            };
            assert(start == after_own);
            assert(self.text_state((old(out)@, *old(first)), root, x, o, separator@, strip)
                == self.forest_text_state(start, root, s, 0, d, o, separator@, strip));
        }
        let mut i: usize = 0;
        while i < children.len()
            invariant
                self.wf(),
                self.valid(x),
                self.valid(root),
                s == children@,
                s == self.children(x),
                d == self.depth@[x@ as int],
                i <= s.len(),
                self.forest_text_state(start, root, s, 0, d, o, separator@, strip)
                    == self.forest_text_state((out@, *first), root, s, i as int, d, o, separator@, strip),
            decreases s.len() - i,
        {
            proof {
                self.lemma_wf_child(x, i as int);
            }
            self.text_into(root, children[i], o, separator, strip, first, out);
            i += 1;
        }
        proof {
            assert(self.forest_text_state((out@, *first), root, s, s.len() as int, d, o, separator@, strip) == (out@, *first));
        }
    }
}


impl Document {
    /// The texts of the subtree of `id` in document order, each trimmed when `strip` is set,
    /// empty ones left out, joined by `separator`; the flags say which kinds of node are read
    /// (raw text elements below `id` are skipped unless their kind is read).
    pub fn text_with_options(
        &self,
        id: NodeId,
        separator: &str,
        strip: bool,
        include_text: bool,
        include_cdata: bool,
        include_declaration: bool,
        include_template: bool,
        include_comments: bool,
        include_script: bool,
        include_stylesheet: bool,
        include_raw_text: bool,
        include_doctype: bool,
        include_processing_instruction: bool,
        include_root_raw_text: bool,
    ) -> (out: String)
        requires
            self.wf(),
            self.valid(id),
        ensures
            out@ == self.text_state(
                (Seq::empty(), true),
                id,
                id,
                TextOptions {
                    text: include_text,
                    cdata: include_cdata,
                    declaration: include_declaration,
                    template: include_template,
                    comments: include_comments,
                    script: include_script,
                    stylesheet: include_stylesheet,
                    raw_text: include_raw_text,
                    doctype: include_doctype,
                    processing_instruction: include_processing_instruction,
                    root_raw_text: include_root_raw_text,
                },
                separator@,
                strip,
            ).0,
    {
        let o = TextOptions {
            text: include_text,
            cdata: include_cdata,
            declaration: include_declaration,
            template: include_template,
            comments: include_comments,
            script: include_script,
            stylesheet: include_stylesheet,
            raw_text: include_raw_text,
            doctype: include_doctype,
            processing_instruction: include_processing_instruction,
            root_raw_text: include_root_raw_text,
        };
        let mut out = String::new();
        let mut first = true;
        self.text_into(id, id, o, separator, strip, &mut first, &mut out);
        out
    }

    /// The options that `text` reads with: text and CDATA, template strings when `id` is a
    /// template element, and the raw text directly below `id`.
    pub open spec fn plain_text_options(self, id: NodeId) -> TextOptions {
        TextOptions {
            text: true,
            cdata: true,
            declaration: false,
            template: self.type_of(id) matches NodeType::Element(e) && e.local_name@ == "template"@,
            comments: false,
            script: false,
            stylesheet: false,
            raw_text: false,
            doctype: false,
            processing_instruction: false,
            root_raw_text: true,
        }
    }

    /// The text of the subtree of `id`, pieces joined by `separator` and trimmed when `strip` is set.
    pub fn text(&self, id: NodeId, separator: &str, strip: bool) -> (out: String)
        requires
            self.wf(),
            self.valid(id),
        ensures
            out@ == self.text_state((Seq::empty(), true), id, id, self.plain_text_options(id), separator@, strip).0,
    {
        let include_template = self.is_template_element(id);
        self.text_with_options(id, separator, strip, true, true, false, include_template, false, false, false, false, false, false, true)
    }
}

} // verus!
