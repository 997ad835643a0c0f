use vstd::prelude::*;
use crate::cleanup::{head_removed, instructions_promoted, wrapper_unwrapped};
use crate::dom::Document;
use crate::fast_model::{fast_nodes, Kind};
use crate::fast_parser::{
    built_from, fast_parsed, holds_unsupported_tag, starts_as_full_document, try_parse_fast_fragment,
    try_parse_fast_full_document,
};
use crate::parse::{inspect_source, preserve_bs4_leading_newlines, source_hints, with_leading_newlines};
use crate::text::{chars_of, string_from_chars};

verus! {

/// What parsing a source comes to before the full parser runs: the document the quick parser
/// built, or what the full parser is to read and how its document is to be finished.
pub enum ParsePlan {
    Done(Document),
    Full(FullParse),
}

/// A source left to the full parser: the text it reads, whether it reads it as a whole document
/// (or as the body of one), whether the source names a `head`, and the processing instructions
/// that the full parser turns into comments.
pub struct FullParse {
    pub source: String,
    pub whole_document: bool,
    pub has_head: bool,
    pub instructions: Vec<String>,
}

/// The nodes the quick parser for whole documents makes of `s`, where it takes `s`.
pub open spec fn quick_full(s: Seq<char>) -> Option<Seq<(Kind, int)>> {
    if starts_as_full_document(s) && !(s.contains('&') && holds_unsupported_tag(s)) {
        fast_nodes(s, true)
    } else {
        None
    }
}

/// The nodes the quick parser for fragments makes of `s`, where it takes `s`.
pub open spec fn quick_fragment(s: Seq<char>) -> Option<Seq<(Kind, int)>> {
    if !starts_as_full_document(s) {
        fast_nodes(s, false)
    } else {
        None
    }
}

/// The nodes the quick parsers make of `s`: the one for whole documents first, then, unless
/// `s` is parsed as a document, the one for fragments.
pub open spec fn quick_plan(s: Seq<char>, document_mode: bool) -> Option<Seq<(Kind, int)>> {
    match quick_full(s) {
        Some(n) => Some(n),
        None => if document_mode { None } else { quick_fragment(s) },
    }
}

/// Decides how `html` is parsed. As a document (`document_mode`) only the quick parser for
/// whole documents is tried; otherwise the one for fragments too. What neither takes goes to
/// the full parser, with the leading newlines of `pre` and `textarea` kept when the source may
/// hold such an element.
pub fn plan_parse(html: &str, document_mode: bool) -> (r: ParsePlan)
    requires
        html@.len() + 2 < u32::MAX,
    ensures
        match r {
            ParsePlan::Done(d) => {
                &&& fast_parsed(d)
                &&& document_mode ==> starts_as_full_document(html@)
                &&& quick_plan(html@, document_mode) matches Some(n) && built_from(d, n)
            },
            ParsePlan::Full(f) => {
                let h = source_hints(html@);
                &&& quick_plan(html@, document_mode) is None
                &&& f.source@ == (if h.pre { with_leading_newlines(html@, 0) } else { html@ })
                &&& f.whole_document == (document_mode || h.full)
                &&& f.has_head == h.head
                &&& f.instructions@.map_values(|x: String| x@) == h.pis
            },
        },
{
    match try_parse_fast_full_document(html) {
        Some(d) => {
            return ParsePlan::Done(d);
        },
        None => {},
    }
    if !document_mode {
        match try_parse_fast_fragment(html) {
            Some(d) => {
                return ParsePlan::Done(d);
            },
            None => {},
        }
    }
    let hints = inspect_source(html);
    let source = if hints.preserve_newline_candidate {
        preserve_bs4_leading_newlines(html)
    } else {
        string_from_chars(&chars_of(html))
    };
    ParsePlan::Full(FullParse {
        source,
        whole_document: document_mode || hints.looks_like_full_document,
        has_head: hints.has_head,
        instructions: hints.processing_instructions,
    })
}

/// The first step of finishing a document that the full parser built, from `a` to `b`.
pub open spec fn first_step(a: Document, b: Document, whole_document: bool, has_head: bool) -> bool {
    if whole_document {
        if has_head { b == a } else { head_removed(a, b) }
    } else {
        wrapper_unwrapped(a, b, "html"@)
    }
}

/// Finishes the document that the full parser built: a whole document loses its first empty
/// `head` unless the source named one; a fragment loses the `html` element that wraps it; then
/// the comments that stand for the processing instructions become instructions again.
pub fn finish_full_parse(document: &mut Document, whole_document: bool, has_head: bool, instructions: &[String])
    requires
        old(document).wf(),
    ensures
        exists|mid: Document| {
            &&& #[trigger] first_step(*old(document), mid, whole_document, has_head)
            &&& instructions_promoted(mid, *final(document), instructions@.map_values(|v: String| v@))
        },
{
    if whole_document {
        if !has_head {
            document.remove_first_empty_head();
        }
    } else {
        document.unwrap_single_child_element_named("html");
    }
    let ghost mid = *document;
    document.promote_bogus_comments_to_processing_instructions(instructions);
    proof {
        assert(first_step(*old(document), mid, whole_document, has_head));
        assert(instructions_promoted(mid, *document, instructions@.map_values(|v: String| v@)));
    }
}

} // verus!
