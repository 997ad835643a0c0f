use vstd::prelude::*;
use crate::dom::{Document, NodeId, NodeType};
use crate::text::{trim, trimmed};

verus! {

/// Whether node `x` is a string that the strings of `root` list: text or CDATA (and template
/// strings when `root` is a template), with no raw text element between it and `root`.
pub open spec fn listed_string(d: Document, root: NodeId, x: NodeId) -> bool {
    let template = d.type_of(root) matches NodeType::Element(e) && e.local_name@ == "template"@;
    &&& (d.type_of(x) is Text || d.type_of(x) is CData || (template && d.type_of(x) is TemplateString))
    &&& !d.raw_text_between(root, x)
}

/// The text of a text, CDATA or template string node.
pub open spec fn string_text(d: Document, x: NodeId) -> Seq<char> {
    match d.type_of(x) {
        NodeType::Text(t) => t@,
        NodeType::CData(t) => t@,
        NodeType::TemplateString(t) => t@,
        _ => Seq::empty(),
    }
}

/// The string nodes among `s` that the strings of `root` list, in order.
pub open spec fn listed_strings(d: Document, root: NodeId, s: Seq<NodeId>) -> Seq<NodeId>
    decreases s.len(),
{
    if s.len() == 0 {
        Seq::empty()
    } else if listed_string(d, root, s.last()) {
        listed_strings(d, root, s.drop_last()).push(s.last())
    } else {
        listed_strings(d, root, s.drop_last())
    }
}

/// The values of the listed strings among `s`; with `strip`, each trimmed, and those left empty
/// dropped.
pub open spec fn string_values(d: Document, root: NodeId, s: Seq<NodeId>, strip: bool) -> Seq<Seq<char>>
    decreases s.len(),
{
    if s.len() == 0 {
        Seq::empty()
    } else {
        let rest = string_values(d, root, s.drop_last(), strip);
        let x = s.last();
        if !listed_string(d, root, x) {
            rest
        } else if !strip {
            rest.push(string_text(d, x))
        } else if trimmed(string_text(d, x)).len() > 0 {
            rest.push(trimmed(string_text(d, x)))
        } else {
            rest
        }
    }
}

impl Document {
    fn listed_string_exec(&self, root: NodeId, template: bool, x: NodeId) -> (r: bool)
        requires
            self.wf(),
            self.valid(root),
            self.valid(x),
            template == (self.type_of(root) matches NodeType::Element(e) && e.local_name@ == "template"@),
        ensures
            r == listed_string(*self, root, x),
    {
        let kind = match &self.nodes[x.index()].node_type {
            NodeType::Text(_) => true,
            NodeType::CData(_) => true,
            NodeType::TemplateString(_) => template,
            _ => false,
        };
        kind && !self.is_inside_skipped_raw_text_element(root, x)
    }

    /// The string nodes below `root`, in document order: text and CDATA (and template strings
    /// when `root` is a template), leaving out those inside raw text elements below `root`.
    pub fn collect_string_nodes(&self, root: NodeId) -> (out: Vec<NodeId>)
        requires
            self.wf(),
            self.valid(root),
        ensures
            out@ == listed_strings(*self, root, self.subtree_nodes(root).drop_first()),
    {
        let template = self.is_template_element(root);
        let nodes = self.descendant_nodes(root, false);
        proof {
            self.lemma_subtree_valid(root);
            self.lemma_traversal_start(root);
            let s = nodes@;
            assert forall|k: int| 0 <= k < s.len() implies self.valid(#[trigger] s[k]) by {
                assert(s[k] == self.subtree_nodes(root)[k + 1]);
            }
        }
        let mut out: Vec<NodeId> = Vec::new();
        let mut i: usize = 0;
        while i < nodes.len()
            invariant
                self.wf(),
                self.valid(root),
                template == (self.type_of(root) matches NodeType::Element(e) && e.local_name@ == "template"@),
                forall|k: int| 0 <= k < nodes@.len() ==> self.valid(#[trigger] nodes@[k]),
                i <= nodes@.len(),
                out@ == listed_strings(*self, root, nodes@.take(i as int)),
            decreases nodes@.len() - i,
        {
            let x = nodes[i];
            proof {
                assert(nodes@.take(i + 1).drop_last() =~= nodes@.take(i as int));
                assert(nodes@.take(i + 1).last() == x);
            }
            if self.listed_string_exec(root, template, x) {
                out.push(x);
            }
            i += 1;
        }
        proof {
            assert(nodes@.take(nodes@.len() as int) =~= nodes@);
        }
        out
    }

    /// The values of the string nodes below `root` (see `collect_string_nodes`), in document
    /// order; with `strip`, each trimmed, and those left empty dropped.
    pub fn collect_string_values(&self, root: NodeId, strip: bool) -> (out: Vec<String>)
        requires
            self.wf(),
            self.valid(root),
        ensures
            out@.map_values(|v: String| v@) == string_values(*self, root, self.subtree_nodes(root).drop_first(), strip),
    {
        let template = self.is_template_element(root);
        let nodes = self.descendant_nodes(root, false);
        proof {
            self.lemma_subtree_valid(root);
            self.lemma_traversal_start(root);
            let s = nodes@;
            assert forall|k: int| 0 <= k < s.len() implies self.valid(#[trigger] s[k]) by {
                assert(s[k] == self.subtree_nodes(root)[k + 1]);
            }
        }
        let mut out: Vec<String> = Vec::new();
        let mut i: usize = 0;
        while i < nodes.len()
            invariant
                self.wf(),
                self.valid(root),
                template == (self.type_of(root) matches NodeType::Element(e) && e.local_name@ == "template"@),
                forall|k: int| 0 <= k < nodes@.len() ==> self.valid(#[trigger] nodes@[k]),
                i <= nodes@.len(),
                out@.map_values(|v: String| v@) == string_values(*self, root, nodes@.take(i as int), strip),
            decreases nodes@.len() - i,
        {
            let x = nodes[i];
            let ghost before = out@;
            proof {
                assert(nodes@.take(i + 1).drop_last() =~= nodes@.take(i as int));
                assert(nodes@.take(i + 1).last() == x);
            }
            if self.listed_string_exec(root, template, x) {
                let value = match self.node_string(x) {
                    Some(v) => v,
                    None => "",
                };
                proof {
                    assert(value@ == string_text(*self, x));
                }
                if strip {
                    let t = trim(value);
                    if t.unicode_len() > 0 {
                        out.push(t);
                        proof {
                            assert(out@.map_values(|v: String| v@) =~= before.map_values(|v: String| v@).push(t@));
                        }
                    }
                } else {
                    let v = crate::text::string_from_chars(&crate::text::chars_of(value));
                    out.push(v);
                    proof {
                        assert(out@.map_values(|v: String| v@) =~= before.map_values(|v: String| v@).push(value@));
                    }
                }
            }
            i += 1;
        }
        proof {
            assert(nodes@.take(nodes@.len() as int) =~= nodes@);
        }
        out
    }
}

} // verus!
