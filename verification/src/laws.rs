use vstd::prelude::*;
use crate::attrs::{is_last_of_name, last_wins_upto};
use crate::clone::{lemma_copy_writes_out_as_source, mirrors, raw_parent};
use crate::dom::{remove_value, Attr, Document, NodeId};
use crate::element::{first_named, last_named, lemma_first_named_bounds, lemma_last_named_bounds};
use crate::matcher::{
    capped, chain_holds, chain_matches, chain_selection, fast_matches, found_first, inner_nodes_elements, kept, lemma_pair_forest,
    lemma_pair_tree, lower_seq, matching_ancestor_of, meets_criteria, pair_matches, parent_element_of, visited,
    ChainView, FastCombinator, FindCriteria,
};
use crate::smooth::{
    is_text_node, lemma_smooth_node, lemma_smooth_text_node, lemma_smoothed_below_from, smoothed, text_leaves, text_of,
};
use crate::extract::TextOptions;
use crate::parse::{decoded_entity, named_entity};
use crate::text::is_void_name;
use crate::dom::NodeType;
use crate::matcher::{attr_selector_at, find_from, ident_end, is_ident_continue_char, AttrSelectorView};
use crate::search::{fast_found, filters_match, search_scope, FindFiltersView};
use crate::serialize::{render, ChunkView};
use crate::text::{escaped_attr, escaped_text, lower_char};

verus! {

/// Escaped text holds no `<` and no `>`: what it writes cannot open or close a tag.
pub proof fn lemma_escaped_text_has_no_markup(s: Seq<char>)
    ensures
        forall|k: int| 0 <= k < escaped_text(s).len() ==> #[trigger] escaped_text(s)[k] != '<' && escaped_text(s)[k] != '>',
    decreases s.len(),
{
    if s.len() > 0 {
        lemma_escaped_text_has_no_markup(s.drop_last());
        let a = escaped_text(s.drop_last());
        let b = crate::text::text_escape_of(s.last());
        assert forall|k: int| 0 <= k < escaped_text(s).len() implies #[trigger] escaped_text(s)[k] != '<' && escaped_text(s)[k] != '>' by {
            if k >= a.len() {
                assert(escaped_text(s)[k] == b[k - a.len()]);
            } else {
                assert(escaped_text(s)[k] == a[k]);
            }
        }
    }
}

/// An escaped attribute value holds no `"`, `<` or `>`: it cannot end the quoted value it is
/// written in, nor open or close a tag.
pub proof fn lemma_escaped_attr_stays_quoted(s: Seq<char>)
    ensures
        forall|k: int| 0 <= k < escaped_attr(s).len() ==> {
            &&& #[trigger] escaped_attr(s)[k] != '"'
            &&& escaped_attr(s)[k] != '<'
            &&& escaped_attr(s)[k] != '>'
        },
    decreases s.len(),
{
    if s.len() > 0 {
        lemma_escaped_attr_stays_quoted(s.drop_last());
        let a = escaped_attr(s.drop_last());
        let b = crate::text::attr_escape_of(s.last());
        assert forall|k: int| 0 <= k < escaped_attr(s).len() implies {
            &&& #[trigger] escaped_attr(s)[k] != '"'
            &&& escaped_attr(s)[k] != '<'
            &&& escaped_attr(s)[k] != '>'
        } by {
            if k >= a.len() {
                assert(escaped_attr(s)[k] == b[k - a.len()]);
            } else {
                assert(escaped_attr(s)[k] == a[k]);
            }
        }
    }
}

/// Written chunk by chunk: writing two runs of chunks one after the other writes the two texts
/// one after the other.
pub proof fn lemma_render_concat(a: Seq<ChunkView>, b: Seq<ChunkView>, escape: bool)
    ensures
        render(a + b, escape) == render(a, escape) + render(b, escape),
    decreases b.len(),
{
    if b.len() == 0 {
        assert(a + b =~= a);
        assert(render(a, escape) + Seq::<char>::empty() =~= render(a, escape));
    } else {
        lemma_render_concat(a, b.drop_last(), escape);
        assert((a + b).drop_last() =~= a + b.drop_last());
        assert((a + b).last() == b.last());
        assert(render(a, escape) + render(b.drop_last(), escape) + crate::serialize::render_chunk(b.last(), escape)
            =~= render(a, escape) + (render(b.drop_last(), escape) + crate::serialize::render_chunk(b.last(), escape)));
    }
}

/// Making ASCII capitals small twice is making them small once.
pub proof fn lemma_lowercase_idempotent(s: Seq<char>)
    ensures
        lower_seq(lower_seq(s)) == lower_seq(s),
{
    assert forall|k: int| 0 <= k < s.len() implies #[trigger] lower_seq(lower_seq(s))[k] == lower_seq(s)[k] by {
        let c = s[k];
        if 'A' <= c && c <= 'Z' {
            assert(lower_char(c) == ((c as u32) + 32) as char);
            assert('a' <= lower_char(c) && lower_char(c) <= 'z');
        }
    }
    assert(lower_seq(lower_seq(s)) =~= lower_seq(s));
}

/// Of the attributes that share a name, only one is kept: the kept names are all different,
/// and each kept attribute is one of the input that no later one shares a name with.
pub proof fn lemma_last_wins_names_unique(s: Seq<Attr>, i: int) -> (idx: Seq<int>)
    requires
        0 <= i <= s.len(),
    ensures
        forall|a: int, b: int| 0 <= a < b < last_wins_upto(s, i).len()
            ==> (#[trigger] last_wins_upto(s, i)[a]).name@ != (#[trigger] last_wins_upto(s, i)[b]).name@,
        idx.len() == last_wins_upto(s, i).len(),
        forall|a: int| 0 <= a < idx.len() ==> 0 <= #[trigger] idx[a] < i && s[idx[a]] == last_wins_upto(s, i)[a] && is_last_of_name(s, idx[a]),
    decreases i,
{
    if i <= 0 {
        Seq::empty()
    } else {
        let prev_idx = lemma_last_wins_names_unique(s, i - 1);
        let prev = last_wins_upto(s, i - 1);
        if is_last_of_name(s, i - 1) {
            let cur = last_wins_upto(s, i);
            assert(cur == prev.push(s[i - 1]));
            let idx = prev_idx.push(i - 1);
            assert forall|a: int| 0 <= a < idx.len() implies 0 <= #[trigger] idx[a] < i && s[idx[a]] == cur[a] && is_last_of_name(s, idx[a]) by {
                if a < prev.len() {
                    assert(idx[a] == prev_idx[a]);
                    assert(cur[a] == prev[a]);
                }
            }
            assert forall|a: int, b: int| 0 <= a < b < cur.len() implies (#[trigger] cur[a]).name@ != (#[trigger] cur[b]).name@ by {
                if b < prev.len() {
                    assert(cur[a] == prev[a]);
                    assert(cur[b] == prev[b]);
                } else {
                    assert(cur[a] == prev[a]);
                    assert(cur[b] == s[i - 1]);
                    let j = prev_idx[a];
                    assert(s[j] == prev[a]);
                    assert(is_last_of_name(s, j));
                    assert(s[i - 1].name@ != s[j].name@);
                }
            }
            idx
        } else {
            assert(last_wins_upto(s, i) == prev);
            prev_idx
        }
    }
}

/// A limit keeps the first entries: what is found with a positive limit is what is found
/// without one, cut to that many entries.
pub proof fn lemma_limit_keeps_prefix(s: Seq<NodeId>, limit: nat)
    ensures
        capped(s, limit) == s.take(if limit > 0 && limit < s.len() { limit as int } else { s.len() as int }),
        limit > 0 ==> capped(s, limit).len() <= limit,
{
    assert(s.take(s.len() as int) =~= s);
}

/// A search for the first match finds the first of what a search for all matches finds.
pub proof fn lemma_first_found_is_first_of_all(document: Document, root: NodeId, recursive: bool, filters: FindFiltersView)
    ensures
        ({
            let all = fast_found(document, root, recursive, filters, 0);
            fast_found(document, root, recursive, filters, 1) == (if all.len() > 0 { seq![all[0]] } else { Seq::<NodeId>::empty() })
        }),
{
    let all = fast_found(document, root, recursive, filters, 0);
    if all.len() > 1 {
        assert(all.take(1) =~= seq![all[0]]);
    } else if all.len() == 1 {
        assert(all =~= seq![all[0]]);
    }
}

/// What `kept` keeps are entries of the sequence, in order: for each kept entry there is an
/// index of the sequence, the indices rising, and each kept entry satisfies the condition.
pub proof fn lemma_kept_indices(s: Seq<NodeId>, keep: spec_fn(NodeId) -> bool) -> (idx: Seq<int>)
    ensures
        idx.len() == kept(s, keep).len(),
        forall|a: int| 0 <= a < idx.len() ==> 0 <= #[trigger] idx[a] < s.len() && s[idx[a]] == kept(s, keep)[a] && keep(kept(s, keep)[a]),
        forall|a: int, b: int| 0 <= a < b < idx.len() ==> #[trigger] idx[a] < #[trigger] idx[b],
    decreases s.len(),
{
    if s.len() == 0 {
        Seq::empty()
    } else {
        let prev = lemma_kept_indices(s.drop_last(), keep);
        if keep(s.last()) {
            let idx = prev.push(s.len() - 1);
            assert forall|a: int| 0 <= a < idx.len() implies 0 <= #[trigger] idx[a] < s.len() && s[idx[a]] == kept(s, keep)[a] && keep(kept(s, keep)[a]) by {
                if a < prev.len() {
                    assert(idx[a] == prev[a]);
                }
            }
            assert forall|a: int, b: int| 0 <= a < b < idx.len() implies #[trigger] idx[a] < #[trigger] idx[b] by {
                if b < prev.len() {
                    assert(idx[a] == prev[a]);
                    assert(idx[b] == prev[b]);
                } else {
                    assert(idx[a] == prev[a]);
                }
            }
            idx
        } else {
            prev
        }
    }
}

/// A simple search finds each element once, in document order, only elements that the
/// filters accept, and only in its scope (the subtree of the node searched from, or its
/// children).
pub proof fn lemma_found_in_document_order(document: Document, root: NodeId, recursive: bool, filters: FindFiltersView, limit: nat)
    requires
        document.wf(),
        document.valid(root),
    ensures
        ({
            let found = fast_found(document, root, recursive, filters, limit);
            let scope = search_scope(document, root, recursive);
            &&& found.no_duplicates()
            &&& forall|a: int| 0 <= a < found.len() ==> filters_match(document, #[trigger] found[a], filters) && scope.contains(found[a])
            &&& recursive ==> forall|a: int, b: int| 0 <= a < b < found.len()
                ==> document.pos_in(root, #[trigger] found[a]) < document.pos_in(root, #[trigger] found[b])
        }),
{
    let keep = |x: NodeId| filters_match(document, x, filters);
    let scope = search_scope(document, root, recursive);
    let all = kept(scope, keep);
    let found = capped(all, limit);
    lemma_limit_keeps_prefix(all, limit);
    let idx = lemma_kept_indices(scope, keep);
    let p = document.subtree_nodes(root);
    document.lemma_traversal_start(root);
    document.lemma_subtree_distinct(root);
    document.lemma_children(root);
    assert forall|a: int| 0 <= a < found.len() implies filters_match(document, #[trigger] found[a], filters) && scope.contains(found[a]) by {
        assert(found[a] == all[a]);
        assert(scope[idx[a]] == all[a]);
    }
    assert forall|a: int, b: int| 0 <= a < found.len() && 0 <= b < found.len() && a != b implies found[a] != found[b] by {
        assert(found[a] == all[a]);
        assert(found[b] == all[b]);
        if a < b {
            assert(idx[a] < idx[b]);
        } else {
            assert(idx[b] < idx[a]);
        }
        if recursive {
            assert(scope == p.drop_first());
            assert(scope[idx[a]] == p[idx[a] + 1]);
            assert(scope[idx[b]] == p[idx[b] + 1]);
        } else {
            assert(document.children(root).no_duplicates());
        }
    }
    if recursive {
        assert forall|a: int, b: int| 0 <= a < b < found.len() implies document.pos_in(root, #[trigger] found[a]) < document.pos_in(root, #[trigger] found[b]) by {
            assert(found[a] == all[a]);
            assert(found[b] == all[b]);
            assert(idx[a] < idx[b]);
            assert(scope == p.drop_first());
            assert(scope[idx[a]] == p[idx[a] + 1]);
            assert(scope[idx[b]] == p[idx[b] + 1]);
            document.lemma_order_positions(root, idx[a] + 1);
            document.lemma_order_positions(root, idx[b] + 1);
        }
    }
}

/// The traversal that selectors run visits each node of the subtree once, in document order.
pub proof fn lemma_visited_in_document_order(document: Document, root: NodeId, include_root: bool)
    requires
        document.wf(),
        document.valid(root),
    ensures
        visited(document, root, include_root).no_duplicates(),
        forall|a: int, b: int| 0 <= a < b < visited(document, root, include_root).len()
            ==> document.pos_in(root, #[trigger] visited(document, root, include_root)[a]) < document.pos_in(root, #[trigger] visited(document, root, include_root)[b]),
{
    let p = document.subtree_nodes(root);
    let v = visited(document, root, include_root);
    let off: int = if include_root { 0 } else { 1 };
    document.lemma_traversal_start(root);
    document.lemma_subtree_distinct(root);
    assert forall|a: int| 0 <= a < v.len() implies #[trigger] v[a] == p[a + off] by {}
    assert forall|a: int, b: int| 0 <= a < b < v.len() implies document.pos_in(root, #[trigger] v[a]) < document.pos_in(root, #[trigger] v[b]) by {
        document.lemma_order_positions(root, a + off);
        document.lemma_order_positions(root, b + off);
    }
    assert forall|a: int, b: int| 0 <= a < v.len() && 0 <= b < v.len() && a != b implies v[a] != v[b] by {
        assert(v[a] == p[a + off]);
        assert(v[b] == p[b + off]);
    }
}

/// Stepping back undoes stepping forward: where `previous_element_node` gives `y` for `x`,
/// `next_element_node` gives `x` for `y`; and where `next_element_node` gives `y` for `x`,
/// `previous_element_node` gives `x` for `y`, unless `y` is the first child of the document
/// node `x`, below which stepping back stops.
pub proof fn lemma_previous_undoes_next(document: Document, x: NodeId)
    requires
        document.wf(),
        document.valid(x),
    ensures
        document.previous_of(x) matches Some(y) ==> document.next_in_order(document.tree_root(y), y) == Some(x),
        document.next_in_order(document.tree_root(x), x) matches Some(y) ==> {
            ||| document.previous_of(y) == Some(x)
            ||| document.type_of(x) is Document && document.parent_of(y) == Some(x)
        },
{
    let root = document.tree_root(x);
    document.lemma_tree_root(x);
    document.lemma_previous_in_order(x);
    if let Some(y) = document.previous_of(x) {
        document.lemma_next_in_order(root, y);
    }
    document.lemma_next_in_order(root, x);
    if let Some(y) = document.next_in_order(root, x) {
        document.lemma_tree_root_below(root, y);
        document.lemma_previous_in_order(y);
    }
}


/// Detaching a node that has no parent changes no node's children: a second `detach` of the
/// same node leaves every child list, and (by its contract) every parent, as it was.
pub proof fn lemma_detach_detached_changes_nothing(document: Document, target: NodeId)
    requires
        document.wf(),
        document.valid(target),
        document.parent_of(target) is None,
    ensures
        forall|x: NodeId| document.valid(x) ==> #[trigger] remove_value(document.children(x), target) == document.children(x),
{
    assert forall|x: NodeId| document.valid(x) implies #[trigger] remove_value(document.children(x), target) == document.children(x) by {
        document.lemma_children(x);
    }
}

/// The last attribute named `name` among `attrs[..end]` is at `k` when `k` is named so and
/// none after it is.
proof fn lemma_last_named_at(attrs: Seq<Attr>, name: Seq<char>, end: int, k: int)
    requires
        0 <= k < end <= attrs.len(),
        attrs[k].name@ == name,
        forall|i: int| k < i < end ==> (#[trigger] attrs[i]).name@ != name,
    ensures
        last_named(attrs, name, end) == k,
    decreases end,
{
    if end - 1 > k {
        lemma_last_named_at(attrs, name, end - 1, k);
    }
}

/// Setting an attribute and reading it back: where at most one attribute of `attrs` is named
/// `name`, the attributes that `set_attr_value` leaves (the first so named given `value`, or a
/// new one at the end) have `value` as the value of the last attribute named `name`, which is
/// what `attr` reads.
pub proof fn lemma_set_then_read_attr(attrs: Seq<Attr>, name: String, value: Option<String>)
    requires
        forall|i: int, j: int| 0 <= i < attrs.len() && 0 <= j < attrs.len() && (#[trigger] attrs[i]).name@ == name@ && (#[trigger] attrs[j]).name@ == name@ ==> i == j,
    ensures
        ({
            let k = first_named(attrs, name@, 0);
            let after = if k >= 0 {
                attrs.update(k, Attr { name: attrs[k].name, value: value })
            } else {
                attrs.push(Attr { name: name, value: value })
            };
            let l = last_named(after, name@, after.len() as int);
            l >= 0 && after[l].value == value
        }),
{
    let k = first_named(attrs, name@, 0);
    lemma_first_named_bounds(attrs, name@, 0);
    if k >= 0 {
        let after = attrs.update(k, Attr { name: attrs[k].name, value: value });
        assert forall|i: int| k < i < after.len() implies (#[trigger] after[i]).name@ != name@ by {
            assert(after[i] == attrs[i]);
        }
        lemma_last_named_at(after, name@, after.len() as int, k);
    } else {
        let after = attrs.push(Attr { name: name, value: value });
        assert(after[attrs.len() as int].name@ == name@);
    }
}


/// The first of `s` that is an element meeting `criteria`, if any.
pub open spec fn first_meeting(document: Document, s: Seq<NodeId>, criteria: FindCriteria) -> Option<NodeId>
    decreases s.len(),
{
    if s.len() == 0 {
        None
    } else {
        match first_meeting(document, s.drop_last(), criteria) {
            Some(x) => Some(x),
            None => if meets_criteria(document, s.last(), criteria) { Some(s.last()) } else { None },
        }
    }
}

proof fn lemma_first_meeting_none(document: Document, s: Seq<NodeId>, criteria: FindCriteria)
    requires
        forall|j: int| 0 <= j < s.len() ==> !meets_criteria(document, #[trigger] s[j], criteria),
    ensures
        first_meeting(document, s, criteria) is None,
    decreases s.len(),
{
    if s.len() > 0 {
        assert forall|j: int| 0 <= j < s.drop_last().len() implies !meets_criteria(document, #[trigger] s.drop_last()[j], criteria) by {
            assert(s.drop_last()[j] == s[j]);
        }
        lemma_first_meeting_none(document, s.drop_last(), criteria);
    }
}

proof fn lemma_first_meeting_at(document: Document, s: Seq<NodeId>, criteria: FindCriteria, k: int)
    requires
        0 <= k < s.len(),
        meets_criteria(document, s[k], criteria),
        forall|j: int| 0 <= j < k ==> !meets_criteria(document, #[trigger] s[j], criteria),
    ensures
        first_meeting(document, s, criteria) == Some(s[k]),
    decreases s.len(),
{
    let d = s.drop_last();
    if k == s.len() - 1 {
        assert forall|j: int| 0 <= j < d.len() implies !meets_criteria(document, #[trigger] d[j], criteria) by {
            assert(d[j] == s[j]);
        }
        lemma_first_meeting_none(document, d, criteria);
    } else {
        assert(d[k] == s[k]);
        assert forall|j: int| 0 <= j < k implies !meets_criteria(document, #[trigger] d[j], criteria) by {
            assert(d[j] == s[j]);
        }
        lemma_first_meeting_at(document, d, criteria, k);
    }
}

proof fn lemma_first_meeting_elements(document: Document, s: Seq<NodeId>, criteria: FindCriteria)
    ensures
        first_meeting(document, document.elements_in(s), criteria) == first_meeting(document, s, criteria),
    decreases s.len(),
{
    if s.len() > 0 {
        lemma_first_meeting_elements(document, s.drop_last(), criteria);
        let e = document.elements_in(s.drop_last());
        if document.is_element_at(s.last()) {
            assert(e.push(s.last()).drop_last() =~= e);
        }
    }
}

/// A search for the first match finds the first of the elements that `descendant_elements`
/// lists (below `root`, and `root` itself when `include_root`) that meets the criteria, and
/// finds nothing just when none of them does.
pub proof fn lemma_find_first_is_first_element(document: Document, root: NodeId, include_root: bool, criteria: FindCriteria, r: Option<NodeId>)
    requires
        found_first(document, root, include_root, criteria, r),
    ensures
        r == first_meeting(document, document.elements_in(visited(document, root, include_root)), criteria),
{
    let v = visited(document, root, include_root);
    lemma_first_meeting_elements(document, v, criteria);
    match r {
        Some(x) => {
            let k = choose|k: int| {
                &&& 0 <= k < v.len()
                &&& #[trigger] v[k] == x
                &&& meets_criteria(document, x, criteria)
                &&& forall|j: int| 0 <= j < k ==> !meets_criteria(document, #[trigger] v[j], criteria)
            };
            lemma_first_meeting_at(document, v, criteria, k);
        },
        None => {
            lemma_first_meeting_none(document, v, criteria);
        },
    }
}


/// A clone writes out as its source: the copy `id` that `clone_detached_from` makes of
/// `source_id` (a copy by `mirrors`, with no parent) gives the markup of `source_id` by
/// `outer_html` (and for any encoding, escaped or not), unless `source_id` is text inside a raw
/// text element (`script`, `style`, ...), which its source writes unescaped.
pub proof fn lemma_clone_writes_out_as_source(source: Document, source_id: NodeId, document: Document, id: NodeId)
    requires
        source.wf(),
        document.wf(),
        source.valid(source_id),
        document.valid(id),
        mirrors(source, source_id, document, id),
        document.parent_of(id) is None,
        !(source.type_of(source_id) is Text && raw_parent(source, source_id)),
    ensures
        render(document.node_chunks(id, "utf-8"@), true) == render(source.node_chunks(source_id, "utf-8"@), true),
        forall|encoding: Seq<char>, escape: bool| #[trigger] render(document.node_chunks(id, encoding), escape)
            == render(source.node_chunks(source_id, encoding), escape),
{
    assert forall|encoding: Seq<char>, escape: bool| #[trigger] render(document.node_chunks(id, encoding), escape)
        == render(source.node_chunks(source_id, encoding), escape) by {
        lemma_copy_writes_out_as_source(source, source_id, document, id, encoding);
    }
    lemma_copy_writes_out_as_source(source, source_id, document, id, "utf-8"@);
}


/// For a pair of compound selectors joined as descendants, the quick traversal by ancestor
/// flags selects what the generic chain match selects, where every node below `root` with
/// children is an element and, when `root` itself is searched, no element stands above it.
pub proof fn lemma_pair_is_chain_match(document: Document, root: NodeId, include_root: bool, c: ChainView, limit: nat)
    requires
        document.wf(),
        document.valid(root),
        c.selectors.len() == 2,
        c.combinators == seq![FastCombinator::Descendant],
        inner_nodes_elements(document, root),
        include_root ==> parent_element_of(document, root) is None,
    ensures
        chain_selection(document, root, include_root, c, limit)
            == capped(kept(visited(document, root, include_root), |x: NodeId| chain_matches(document, x, root, c)), limit),
{
    let anc = c.selectors[0];
    let target = c.selectors[1];
    let keep = |y: NodeId| pair_matches(document, root, anc, target, y);
    let generic = |x: NodeId| chain_matches(document, x, root, c);
    assert(keep =~= generic) by {
        assert forall|y: NodeId| #[trigger] keep(y) == generic(y) by {
            reveal_with_fuel(chain_holds, 2);
            assert(c.combinators[0] == FastCombinator::Descendant);
            assert(c.selectors.last() == target);
        }
    }
    document.lemma_in_subtree_refl(root);
    if include_root {
        assert(matching_ancestor_of(document, root, root, anc) is None);
        lemma_pair_tree(document, root, anc, target, root, false);
    } else {
        document.lemma_subtree_unfold(root);
        let f = document.forest_nodes(document.kids@[root@ as int], 0, document.depth@[root@ as int] as int);
        assert(document.subtree_nodes(root).drop_first() =~= f);
        let flag0 = fast_matches(document, root, anc);
        if document.is_element_at(root) {
            lemma_pair_forest(document, root, anc, target, root, 0, flag0, false);
        } else {
            lemma_pair_forest(document, root, anc, target, root, 0, false, false);
        }
    }
}


/// Smoothing keeps the markup: where the document after `smooth_text_nodes(root)` stands to
/// the one before as that function's contract says (`root` keeps its kind; `root` and each
/// node of its subtree still in the tree have their runs of adjacent text merged into the
/// first, which holds the run's texts in order), `root` writes out as before, for any encoding,
/// escaped or not, and so `outer_html(root)` is unchanged. A text node as `root` is left out:
/// its own markup depends on its parent, which that contract does not speak of.
pub proof fn lemma_smoothing_keeps_markup(before: Document, after: Document, root: NodeId, encoding: Seq<char>, escape: bool)
    requires
        before.wf(),
        after.wf(),
        before.valid(root),
        after.len() == before.len(),
        !(before.type_of(root) is Text),
        after.type_of(root) == before.type_of(root),
        smoothed(before, after, root),
        forall|k: int| 0 <= k < before.subtree_nodes(root).len() && (#[trigger] after.parent_of(before.subtree_nodes(root)[k])) is Some
            ==> smoothed(before, after, before.subtree_nodes(root)[k]),
    ensures
        render(after.node_chunks(root, encoding), escape) == render(before.node_chunks(root, encoding), escape),
{
    lemma_smoothed_below_from(before, after, root);
    lemma_smooth_node(before, after, root, encoding, escape);
}


/// Smoothing keeps the text: under the same conditions as `lemma_smoothing_keeps_markup`, text
/// extraction from `root` with no separator and no trimming (what `text(root, "", false)`
/// returns, whose options depend only on the kind of `root`, which smoothing keeps) writes the
/// same as before, where no text node below `root` has children of its own (the text of such
/// children, which a merged-away text node would take with it, is the input on which it fails).
pub proof fn lemma_smoothing_keeps_text(before: Document, after: Document, root: NodeId, r: NodeId, o: TextOptions)
    requires
        before.wf(),
        after.wf(),
        before.valid(root),
        after.len() == before.len(),
        !(before.type_of(root) is Text),
        after.type_of(root) == before.type_of(root),
        smoothed(before, after, root),
        forall|k: int| 0 <= k < before.subtree_nodes(root).len() && (#[trigger] after.parent_of(before.subtree_nodes(root)[k])) is Some
            ==> smoothed(before, after, before.subtree_nodes(root)[k]),
        forall|k: int| 0 <= k < before.subtree_nodes(root).len() && is_text_node(before, #[trigger] before.subtree_nodes(root)[k])
            ==> before.children(before.subtree_nodes(root)[k]).len() == 0,
    ensures
        text_of(after, r, root, o) == text_of(before, r, root, o),
        after.plain_text_options(root) == before.plain_text_options(root),
{
    lemma_smoothed_below_from(before, after, root);
    assert forall|y: NodeId| before.valid(y) && before.in_subtree(y, root) && is_text_node(before, y)
        implies #[trigger] before.children(y).len() == 0 by {
        before.lemma_placed(root, y);
        let k = before.order_pos(root, y);
        assert(is_text_node(before, before.subtree_nodes(root)[k]));
    }
    assert(text_leaves(before, root));
    lemma_smooth_text_node(before, after, r, root, o);
}


/// The named entities the quick parser knows decode to the characters HTML assigns them:
/// `&quot;` to a double quote, `&amp;` to an ampersand, `&lt;` and `&gt;` to the angle brackets,
/// `&apos;` to an apostrophe, `&nbsp;` to a no-break space, and so on, each name to its fixed
/// character(s).
pub proof fn lemma_named_entities_decode_as_html()
    ensures
        named_entity(seq!['a', 'm', 'p']) == Some(seq!['&']),
        decoded_entity(seq!['a', 'm', 'p']) == Some(seq!['&']),
        named_entity(seq!['a', 'p', 'o', 's']) == Some(seq!['\'']),
        decoded_entity(seq!['a', 'p', 'o', 's']) == Some(seq!['\'']),
        named_entity(seq!['b', 'u', 'l', 'l']) == Some(seq!['\u{2022}']),
        decoded_entity(seq!['b', 'u', 'l', 'l']) == Some(seq!['\u{2022}']),
        named_entity(seq!['c', 'o', 'p', 'y']) == Some(seq!['\u{00a9}']),
        decoded_entity(seq!['c', 'o', 'p', 'y']) == Some(seq!['\u{00a9}']),
        named_entity(seq!['e', 'q', 'u', 'i', 'v']) == Some(seq!['\u{2261}']),
        decoded_entity(seq!['e', 'q', 'u', 'i', 'v']) == Some(seq!['\u{2261}']),
        named_entity(seq!['f', 'j', 'l', 'i', 'g']) == Some(seq!['f', 'j']),
        decoded_entity(seq!['f', 'j', 'l', 'i', 'g']) == Some(seq!['f', 'j']),
        named_entity(seq!['g', 't']) == Some(seq!['>']),
        decoded_entity(seq!['g', 't']) == Some(seq!['>']),
        named_entity(seq!['h', 'e', 'l', 'l', 'i', 'p']) == Some(seq!['\u{2026}']),
        decoded_entity(seq!['h', 'e', 'l', 'l', 'i', 'p']) == Some(seq!['\u{2026}']),
        named_entity(seq!['l', 'e']) == Some(seq!['\u{2264}']),
        decoded_entity(seq!['l', 'e']) == Some(seq!['\u{2264}']),
        named_entity(seq!['l', 'd', 'q', 'u', 'o']) == Some(seq!['\u{201c}']),
        decoded_entity(seq!['l', 'd', 'q', 'u', 'o']) == Some(seq!['\u{201c}']),
        named_entity(seq!['l', 's', 'q', 'u', 'o']) == Some(seq!['\u{2018}']),
        decoded_entity(seq!['l', 's', 'q', 'u', 'o']) == Some(seq!['\u{2018}']),
        named_entity(seq!['l', 't']) == Some(seq!['<']),
        decoded_entity(seq!['l', 't']) == Some(seq!['<']),
        named_entity(seq!['m', 'd', 'a', 's', 'h']) == Some(seq!['\u{2014}']),
        decoded_entity(seq!['m', 'd', 'a', 's', 'h']) == Some(seq!['\u{2014}']),
        named_entity(seq!['m', 'i', 'd', 'd', 'o', 't']) == Some(seq!['\u{00b7}']),
        decoded_entity(seq!['m', 'i', 'd', 'd', 'o', 't']) == Some(seq!['\u{00b7}']),
        named_entity(seq!['n', 'b', 's', 'p']) == Some(seq!['\u{00a0}']),
        decoded_entity(seq!['n', 'b', 's', 'p']) == Some(seq!['\u{00a0}']),
        named_entity(seq!['n', 'd', 'a', 's', 'h']) == Some(seq!['\u{2013}']),
        decoded_entity(seq!['n', 'd', 'a', 's', 'h']) == Some(seq!['\u{2013}']),
        named_entity(seq!['n', 'v', 'g', 't']) == Some(seq!['>', '\u{20d2}']),
        decoded_entity(seq!['n', 'v', 'g', 't']) == Some(seq!['>', '\u{20d2}']),
        named_entity(seq!['n', 'v', 'l', 't']) == Some(seq!['<', '\u{20d2}']),
        decoded_entity(seq!['n', 'v', 'l', 't']) == Some(seq!['<', '\u{20d2}']),
        named_entity(seq!['p', 'a', 'r', 'a']) == Some(seq!['\u{00b6}']),
        decoded_entity(seq!['p', 'a', 'r', 'a']) == Some(seq!['\u{00b6}']),
        named_entity(seq!['q', 'u', 'o', 't']) == Some(seq!['"']),
        decoded_entity(seq!['q', 'u', 'o', 't']) == Some(seq!['"']),
        named_entity(seq!['r', 'a', 'q', 'u', 'o']) == Some(seq!['\u{00bb}']),
        decoded_entity(seq!['r', 'a', 'q', 'u', 'o']) == Some(seq!['\u{00bb}']),
        named_entity(seq!['r', 'd', 'q', 'u', 'o']) == Some(seq!['\u{201d}']),
        decoded_entity(seq!['r', 'd', 'q', 'u', 'o']) == Some(seq!['\u{201d}']),
        named_entity(seq!['r', 's', 'q', 'u', 'o']) == Some(seq!['\u{2019}']),
        decoded_entity(seq!['r', 's', 'q', 'u', 'o']) == Some(seq!['\u{2019}']),
        named_entity(seq!['t', 'r', 'a', 'd', 'e']) == Some(seq!['\u{2122}']),
        decoded_entity(seq!['t', 'r', 'a', 'd', 'e']) == Some(seq!['\u{2122}']),
{
    reveal_strlit("amp");
    assert("amp"@ =~= seq!['a', 'm', 'p']);
    reveal_strlit("&");
    assert("&"@ =~= seq!['&']);
    reveal_strlit("apos");
    assert("apos"@ =~= seq!['a', 'p', 'o', 's']);
    reveal_strlit("'");
    assert("'"@ =~= seq!['\'']);
    reveal_strlit("bull");
    assert("bull"@ =~= seq!['b', 'u', 'l', 'l']);
    reveal_strlit("\u{2022}");
    assert("\u{2022}"@ =~= seq!['\u{2022}']);
    reveal_strlit("copy");
    assert("copy"@ =~= seq!['c', 'o', 'p', 'y']);
    reveal_strlit("\u{00a9}");
    assert("\u{00a9}"@ =~= seq!['\u{00a9}']);
    reveal_strlit("equiv");
    assert("equiv"@ =~= seq!['e', 'q', 'u', 'i', 'v']);
    reveal_strlit("\u{2261}");
    assert("\u{2261}"@ =~= seq!['\u{2261}']);
    reveal_strlit("fjlig");
    assert("fjlig"@ =~= seq!['f', 'j', 'l', 'i', 'g']);
    reveal_strlit("fj");
    assert("fj"@ =~= seq!['f', 'j']);
    reveal_strlit("gt");
    assert("gt"@ =~= seq!['g', 't']);
    reveal_strlit(">");
    assert(">"@ =~= seq!['>']);
    reveal_strlit("hellip");
    assert("hellip"@ =~= seq!['h', 'e', 'l', 'l', 'i', 'p']);
    reveal_strlit("\u{2026}");
    assert("\u{2026}"@ =~= seq!['\u{2026}']);
    reveal_strlit("le");
    assert("le"@ =~= seq!['l', 'e']);
    reveal_strlit("\u{2264}");
    assert("\u{2264}"@ =~= seq!['\u{2264}']);
    reveal_strlit("ldquo");
    assert("ldquo"@ =~= seq!['l', 'd', 'q', 'u', 'o']);
    reveal_strlit("\u{201c}");
    assert("\u{201c}"@ =~= seq!['\u{201c}']);
    reveal_strlit("lsquo");
    assert("lsquo"@ =~= seq!['l', 's', 'q', 'u', 'o']);
    reveal_strlit("\u{2018}");
    assert("\u{2018}"@ =~= seq!['\u{2018}']);
    reveal_strlit("lt");
    assert("lt"@ =~= seq!['l', 't']);
    reveal_strlit("<");
    assert("<"@ =~= seq!['<']);
    reveal_strlit("mdash");
    assert("mdash"@ =~= seq!['m', 'd', 'a', 's', 'h']);
    reveal_strlit("\u{2014}");
    assert("\u{2014}"@ =~= seq!['\u{2014}']);
    reveal_strlit("middot");
    assert("middot"@ =~= seq!['m', 'i', 'd', 'd', 'o', 't']);
    reveal_strlit("\u{00b7}");
    assert("\u{00b7}"@ =~= seq!['\u{00b7}']);
    reveal_strlit("nbsp");
    assert("nbsp"@ =~= seq!['n', 'b', 's', 'p']);
    reveal_strlit("\u{00a0}");
    assert("\u{00a0}"@ =~= seq!['\u{00a0}']);
    reveal_strlit("ndash");
    assert("ndash"@ =~= seq!['n', 'd', 'a', 's', 'h']);
    reveal_strlit("\u{2013}");
    assert("\u{2013}"@ =~= seq!['\u{2013}']);
    reveal_strlit("nvgt");
    assert("nvgt"@ =~= seq!['n', 'v', 'g', 't']);
    reveal_strlit(">\u{20d2}");
    assert(">\u{20d2}"@ =~= seq!['>', '\u{20d2}']);
    reveal_strlit("nvlt");
    assert("nvlt"@ =~= seq!['n', 'v', 'l', 't']);
    reveal_strlit("<\u{20d2}");
    assert("<\u{20d2}"@ =~= seq!['<', '\u{20d2}']);
    reveal_strlit("para");
    assert("para"@ =~= seq!['p', 'a', 'r', 'a']);
    reveal_strlit("\u{00b6}");
    assert("\u{00b6}"@ =~= seq!['\u{00b6}']);
    reveal_strlit("quot");
    assert("quot"@ =~= seq!['q', 'u', 'o', 't']);
    reveal_strlit("\"");
    assert("\""@ =~= seq!['"']);
    reveal_strlit("raquo");
    assert("raquo"@ =~= seq!['r', 'a', 'q', 'u', 'o']);
    reveal_strlit("\u{00bb}");
    assert("\u{00bb}"@ =~= seq!['\u{00bb}']);
    reveal_strlit("rdquo");
    assert("rdquo"@ =~= seq!['r', 'd', 'q', 'u', 'o']);
    reveal_strlit("\u{201d}");
    assert("\u{201d}"@ =~= seq!['\u{201d}']);
    reveal_strlit("rsquo");
    assert("rsquo"@ =~= seq!['r', 's', 'q', 'u', 'o']);
    reveal_strlit("\u{2019}");
    assert("\u{2019}"@ =~= seq!['\u{2019}']);
    reveal_strlit("trade");
    assert("trade"@ =~= seq!['t', 'r', 'a', 'd', 'e']);
    reveal_strlit("\u{2122}");
    assert("\u{2122}"@ =~= seq!['\u{2122}']);
}

/// The void elements, written without an end tag, are exactly the HTML void set: `area`,
/// `base`, `br`, `col`, `embed`, `hr`, `img`, `input`, `link`, `meta`, `param`, `source`,
/// `track` and `wbr`.
pub proof fn lemma_void_elements_are_the_html_set(name: Seq<char>)
    ensures
        is_void_name(name) <==> (name == seq!['a', 'r', 'e', 'a'] || name == seq!['b', 'a', 's', 'e'] || name == seq!['b', 'r'] || name == seq!['c', 'o', 'l'] || name == seq!['e', 'm', 'b', 'e', 'd'] || name == seq!['h', 'r'] || name == seq!['i', 'm', 'g'] || name == seq!['i', 'n', 'p', 'u', 't'] || name == seq!['l', 'i', 'n', 'k'] || name == seq!['m', 'e', 't', 'a'] || name == seq!['p', 'a', 'r', 'a', 'm'] || name == seq!['s', 'o', 'u', 'r', 'c', 'e'] || name == seq!['t', 'r', 'a', 'c', 'k'] || name == seq!['w', 'b', 'r']),
{
    reveal_strlit("area");
    assert("area"@ =~= seq!['a', 'r', 'e', 'a']);
    reveal_strlit("base");
    assert("base"@ =~= seq!['b', 'a', 's', 'e']);
    reveal_strlit("br");
    assert("br"@ =~= seq!['b', 'r']);
    reveal_strlit("col");
    assert("col"@ =~= seq!['c', 'o', 'l']);
    reveal_strlit("embed");
    assert("embed"@ =~= seq!['e', 'm', 'b', 'e', 'd']);
    reveal_strlit("hr");
    assert("hr"@ =~= seq!['h', 'r']);
    reveal_strlit("img");
    assert("img"@ =~= seq!['i', 'm', 'g']);
    reveal_strlit("input");
    assert("input"@ =~= seq!['i', 'n', 'p', 'u', 't']);
    reveal_strlit("link");
    assert("link"@ =~= seq!['l', 'i', 'n', 'k']);
    reveal_strlit("meta");
    assert("meta"@ =~= seq!['m', 'e', 't', 'a']);
    reveal_strlit("param");
    assert("param"@ =~= seq!['p', 'a', 'r', 'a', 'm']);
    reveal_strlit("source");
    assert("source"@ =~= seq!['s', 'o', 'u', 'r', 'c', 'e']);
    reveal_strlit("track");
    assert("track"@ =~= seq!['t', 'r', 'a', 'c', 'k']);
    reveal_strlit("wbr");
    assert("wbr"@ =~= seq!['w', 'b', 'r']);
}


/// Plain text extraction (`text`, `get_text`) reads only text: with the options `text` uses for
/// `id`, a comment, doctype, declaration or processing instruction gives nothing, an element
/// or document node gives nothing of its own, CDATA gives its content, a template string gives
/// its content only when `id` is a `template` element, text not inside a raw text element gives
/// its content, as does text directly below `id` (the content of a `script` asked for itself),
/// text inside a `script` or `style` element below `id` gives nothing, and the subtree of a raw
/// text element (`script`, `style`, ...) below `id` is skipped.
pub proof fn lemma_plain_text_reads_only_text(d: Document, id: NodeId, x: NodeId)
    ensures
        ({
            let o = d.plain_text_options(id);
            match d.type_of(x) {
                NodeType::Comment(_) => d.own_text(id, x, o) is None,
                NodeType::Doctype(_) => d.own_text(id, x, o) is None,
                NodeType::Declaration(_) => d.own_text(id, x, o) is None,
                NodeType::ProcessingInstruction(_) => d.own_text(id, x, o) is None,
                NodeType::Element(_) => d.own_text(id, x, o) is None,
                NodeType::Document => d.own_text(id, x, o) is None,
                NodeType::CData(t) => d.own_text(id, x, o) == Some(t@),
                NodeType::TemplateString(t) => d.own_text(id, x, o) == (
                    if d.type_of(id) matches NodeType::Element(e) && e.local_name@ == seq!['t', 'e', 'm', 'p', 'l', 'a', 't', 'e'] {
                        Some(t@)
                    } else {
                        None
                    }),
                NodeType::Text(t) => {
                    &&& !(d.parent_of(x) matches Some(p) && d.raw_text_name_of(p) is Some)
                        ==> d.own_text(id, x, o) == Some(t@)
                    &&& d.parent_of(x) == Some(id) ==> d.own_text(id, x, o) == Some(t@)
                    &&& (d.parent_of(x) matches Some(p) && (p != id && (d.raw_text_name_of(p) matches Some(n)
                        && (n == seq!['s', 'c', 'r', 'i', 'p', 't'] || n == seq!['s', 't', 'y', 'l', 'e']))))
                        ==> d.own_text(id, x, o) is None
                },
            }
        }),
        x != id && d.raw_text_name_of(x) is Some ==> d.text_skipped(id, x, d.plain_text_options(id)),
{
    reveal_strlit("template");
    assert("template"@ =~= seq!['t', 'e', 'm', 'p', 'l', 'a', 't', 'e']);
    reveal_strlit("script");
    assert("script"@ =~= seq!['s', 'c', 'r', 'i', 'p', 't']);
    reveal_strlit("style");
    assert("style"@ =~= seq!['s', 't', 'y', 'l', 'e']);
}


/// Strictly below means strictly deeper.
proof fn lemma_below_is_deeper(d: Document, x: NodeId, top: NodeId)
    requires
        d.wf(),
        d.valid(x),
        d.in_subtree(x, top),
        x != top,
    ensures
        d.depth@[x@ as int] > d.depth@[top@ as int],
{
    d.lemma_in_subtree_step(x, top);
    d.lemma_wf_parent(x);
    let q = d.parent_of(x).unwrap();
    d.lemma_in_subtree_depth(q, top);
}

/// The nodes above a node lie one above the other.
proof fn lemma_ancestors_ordered(d: Document, t: NodeId, a: NodeId, b: NodeId)
    requires
        d.wf(),
        d.valid(t),
        d.in_subtree(t, a),
        d.in_subtree(t, b),
    ensures
        d.in_subtree(a, b) || d.in_subtree(b, a),
    decreases d.depth@[t@ as int],
{
    if t != a && t != b {
        d.lemma_in_subtree_step(t, a);
        d.lemma_in_subtree_step(t, b);
        d.lemma_wf_parent(t);
        let q = d.parent_of(t).unwrap();
        lemma_ancestors_ordered(d, q, a, b);
    }
}

/// `.string` walks down through nodes with exactly one child: where `tag_string_from(x)` gives
/// `t`, `t` is a text-like node strictly below `x`, and every node from `x` down to the parent
/// of `t` has exactly one child. So a node with no child, or with two or more, has no string.
pub proof fn lemma_tag_string_walks_single_children(d: Document, x: NodeId)
    requires
        d.wf(),
        d.valid(x),
    ensures
        d.tag_string_from(x) matches Some(t) ==> {
            &&& d.valid(t)
            &&& d.is_text_like_at(t)
            &&& t != x
            &&& d.in_subtree(t, x)
            &&& forall|y: NodeId| d.valid(y) && d.in_subtree(t, y) && d.in_subtree(y, x) && y != t
                ==> #[trigger] d.children(y).len() == 1
        },
        d.children(x).len() != 1 ==> d.tag_string_from(x) is None,
    decreases d.bound@ - d.depth@[x@ as int],
{
    if let Some(t) = d.tag_string_from(x) {
        let f = d.children(x)[0];
        d.lemma_wf_child(x, 0);
        d.lemma_in_subtree_refl(x);
        d.lemma_in_subtree_refl(f);
        d.lemma_in_subtree_step(f, x);
        assert(d.in_subtree(f, x));
        d.lemma_children(x);
        assert(f != x);
        if d.is_text_like_at(f) {
            assert(t == f);
            assert forall|y: NodeId| d.valid(y) && d.in_subtree(t, y) && d.in_subtree(y, x) && y != t
                implies #[trigger] d.children(y).len() == 1 by {
                d.lemma_in_subtree_step(t, y);
                if y != x {
                    lemma_below_is_deeper(d, y, x);
                    d.lemma_in_subtree_depth(x, y);
                }
            }
        } else {
            lemma_tag_string_walks_single_children(d, f);
            d.lemma_in_subtree_trans(t, f, x);
            if t == x {
                lemma_below_is_deeper(d, f, x);
                d.lemma_in_subtree_depth(t, f);
            }
            assert forall|y: NodeId| d.valid(y) && d.in_subtree(t, y) && d.in_subtree(y, x) && y != t
                implies #[trigger] d.children(y).len() == 1 by {
                if y != x {
                    lemma_ancestors_ordered(d, t, y, f);
                    if !d.in_subtree(y, f) {
                        assert(d.in_subtree(f, y));
                        assert(f != y);
                        d.lemma_in_subtree_step(f, y);
                        lemma_below_is_deeper(d, y, x);
                        d.lemma_in_subtree_depth(x, y);
                    }
                }
            }
        }
    }
}


proof fn lemma_find_from_at(s: Seq<char>, i: int, j: int, c: char)
    requires
        0 <= i <= j < s.len(),
        s[j] == c,
        forall|k: int| i <= k < j ==> s[k] != c,
    ensures
        find_from(s, i, c) == j,
    decreases j - i,
{
    if i < j {
        lemma_find_from_at(s, i + 1, j, c);
    }
}

proof fn lemma_ident_end_at(s: Seq<char>, i: int, j: int)
    requires
        0 <= i <= j < s.len(),
        forall|k: int| i <= k < j ==> is_ident_continue_char(#[trigger] s[k]),
        !is_ident_continue_char(s[j]),
    ensures
        ident_end(s, i) == j,
    decreases j - i,
{
    if i < j {
        lemma_ident_end_at(s, i + 1, j);
    }
}

/// Whether `name` is a lower-case attribute name a fast selector reads.
pub open spec fn plain_attr_name(name: Seq<char>) -> bool {
    &&& name.len() > 0
    &&& ('a' <= name[0] <= 'z' || name[0] == '_')
    &&& forall|i: int| 0 <= i < name.len() ==> ('a' <= #[trigger] name[i] <= 'z' || '0' <= name[i] <= '9' || name[i] == '-' || name[i] == '_')
}

/// A quoted attribute value in a selector stands for the characters between the quotes:
/// `[name="v"]` (or with `'`), where the quote does not occur in `v`, is the condition that
/// attribute `name` is exactly `v`, and parsing goes on after the `]`.
pub proof fn lemma_quoted_attr_value_is_between_quotes(name: Seq<char>, q: char, v: Seq<char>, rest: Seq<char>)
    requires
        plain_attr_name(name),
        q == '"' || q == '\'',
        forall|i: int| 0 <= i < v.len() ==> v[i] != q,
    ensures
        attr_selector_at(seq!['['] + name + seq!['=', q] + v + seq![q, ']'] + rest, 0)
            == Some((AttrSelectorView::Exact(name, v), name.len() + v.len() + 5int)),
{
    let s = seq!['['] + name + seq!['=', q] + v + seq![q, ']'] + rest;
    let n = name.len() as int;
    assert forall|k: int| 1 <= k <= n implies s[k] == name[k - 1] by {}
    assert(s[n + 1] == '=');
    assert(s[n + 2] == q);
    assert forall|k: int| 0 <= k < v.len() implies s[n + 3 + k] == v[k] by {}
    assert(s[n + 3 + v.len()] == q);
    assert(s[n + 4 + v.len()] == ']');
    assert forall|k: int| 2 <= k < n + 1 implies is_ident_continue_char(#[trigger] s[k]) by {
        assert(s[k] == name[k - 1]);
    }
    lemma_ident_end_at(s, 2, n + 1);
    assert(s.subrange(1, n + 1) =~= name);
    assert forall|k: int| n + 3 <= k < n + 3 + v.len() implies s[k] != q by {
        assert(s[k] == v[k - n - 3]);
    }
    lemma_find_from_at(s, n + 3, n + 3 + v.len(), q);
    assert(s.subrange(n + 3, n + 3 + v.len()) =~= v);
    if crate::matcher::has_ascii_uppercase(name) {
        let i = choose|i: int| 0 <= i < name.len() && 'A' <= #[trigger] name[i] && name[i] <= 'Z';
        assert('a' <= name[i] <= 'z' || '0' <= name[i] <= '9' || name[i] == '-' || name[i] == '_');
    }
}

/// An unquoted attribute value in a selector runs up to the `]`: `[name=v]`, where `v` is not
/// empty, does not start with a quote and holds no `]`, is the condition that attribute `name`
/// is exactly `v`.
pub proof fn lemma_unquoted_attr_value_runs_to_bracket(name: Seq<char>, v: Seq<char>, rest: Seq<char>)
    requires
        plain_attr_name(name),
        v.len() > 0,
        v[0] != '"' && v[0] != '\'',
        forall|i: int| 0 <= i < v.len() ==> v[i] != ']',
    ensures
        attr_selector_at(seq!['['] + name + seq!['='] + v + seq![']'] + rest, 0)
            == Some((AttrSelectorView::Exact(name, v), name.len() + v.len() + 3int)),
{
    let s = seq!['['] + name + seq!['='] + v + seq![']'] + rest;
    let n = name.len() as int;
    assert forall|k: int| 1 <= k <= n implies s[k] == name[k - 1] by {}
    assert(s[n + 1] == '=');
    assert forall|k: int| 0 <= k < v.len() implies s[n + 2 + k] == v[k] by {}
    assert(s[n + 2 + v.len()] == ']');
    assert forall|k: int| 2 <= k < n + 1 implies is_ident_continue_char(#[trigger] s[k]) by {
        assert(s[k] == name[k - 1]);
    }
    lemma_ident_end_at(s, 2, n + 1);
    assert(s.subrange(1, n + 1) =~= name);
    assert forall|k: int| n + 2 <= k < n + 2 + v.len() implies s[k] != ']' by {
        assert(s[k] == v[k - n - 2]);
    }
    lemma_find_from_at(s, n + 2, n + 2 + v.len(), ']');
    assert(s.subrange(n + 2, n + 2 + v.len()) =~= v);
    if crate::matcher::has_ascii_uppercase(name) {
        let i = choose|i: int| 0 <= i < name.len() && 'A' <= #[trigger] name[i] && name[i] <= 'Z';
        assert('a' <= name[i] <= 'z' || '0' <= name[i] <= '9' || name[i] == '-' || name[i] == '_');
    }
}


/// The quick parser knows no other entity names than those of
/// `lemma_named_entities_decode_as_html`: any other name is left to the full parser.
pub proof fn lemma_named_entities_known(e: Seq<char>)
    ensures
        named_entity(e) is Some <==> (e == seq!['a', 'm', 'p']
            || e == seq!['a', 'p', 'o', 's']
            || e == seq!['b', 'u', 'l', 'l']
            || e == seq!['c', 'o', 'p', 'y']
            || e == seq!['e', 'q', 'u', 'i', 'v']
            || e == seq!['f', 'j', 'l', 'i', 'g']
            || e == seq!['g', 't']
            || e == seq!['h', 'e', 'l', 'l', 'i', 'p']
            || e == seq!['l', 'e']
            || e == seq!['l', 'd', 'q', 'u', 'o']
            || e == seq!['l', 's', 'q', 'u', 'o']
            || e == seq!['l', 't']
            || e == seq!['m', 'd', 'a', 's', 'h']
            || e == seq!['m', 'i', 'd', 'd', 'o', 't']
            || e == seq!['n', 'b', 's', 'p']
            || e == seq!['n', 'd', 'a', 's', 'h']
            || e == seq!['n', 'v', 'g', 't']
            || e == seq!['n', 'v', 'l', 't']
            || e == seq!['p', 'a', 'r', 'a']
            || e == seq!['q', 'u', 'o', 't']
            || e == seq!['r', 'a', 'q', 'u', 'o']
            || e == seq!['r', 'd', 'q', 'u', 'o']
            || e == seq!['r', 's', 'q', 'u', 'o']
            || e == seq!['t', 'r', 'a', 'd', 'e']),
{
    reveal_strlit("amp");
    assert("amp"@ =~= seq!['a', 'm', 'p']);
    reveal_strlit("apos");
    assert("apos"@ =~= seq!['a', 'p', 'o', 's']);
    reveal_strlit("bull");
    assert("bull"@ =~= seq!['b', 'u', 'l', 'l']);
    reveal_strlit("copy");
    assert("copy"@ =~= seq!['c', 'o', 'p', 'y']);
    reveal_strlit("equiv");
    assert("equiv"@ =~= seq!['e', 'q', 'u', 'i', 'v']);
    reveal_strlit("fjlig");
    assert("fjlig"@ =~= seq!['f', 'j', 'l', 'i', 'g']);
    reveal_strlit("gt");
    assert("gt"@ =~= seq!['g', 't']);
    reveal_strlit("hellip");
    assert("hellip"@ =~= seq!['h', 'e', 'l', 'l', 'i', 'p']);
    reveal_strlit("le");
    assert("le"@ =~= seq!['l', 'e']);
    reveal_strlit("ldquo");
    assert("ldquo"@ =~= seq!['l', 'd', 'q', 'u', 'o']);
    reveal_strlit("lsquo");
    assert("lsquo"@ =~= seq!['l', 's', 'q', 'u', 'o']);
    reveal_strlit("lt");
    assert("lt"@ =~= seq!['l', 't']);
    reveal_strlit("mdash");
    assert("mdash"@ =~= seq!['m', 'd', 'a', 's', 'h']);
    reveal_strlit("middot");
    assert("middot"@ =~= seq!['m', 'i', 'd', 'd', 'o', 't']);
    reveal_strlit("nbsp");
    assert("nbsp"@ =~= seq!['n', 'b', 's', 'p']);
    reveal_strlit("ndash");
    assert("ndash"@ =~= seq!['n', 'd', 'a', 's', 'h']);
    reveal_strlit("nvgt");
    assert("nvgt"@ =~= seq!['n', 'v', 'g', 't']);
    reveal_strlit("nvlt");
    assert("nvlt"@ =~= seq!['n', 'v', 'l', 't']);
    reveal_strlit("para");
    assert("para"@ =~= seq!['p', 'a', 'r', 'a']);
    reveal_strlit("quot");
    assert("quot"@ =~= seq!['q', 'u', 'o', 't']);
    reveal_strlit("raquo");
    assert("raquo"@ =~= seq!['r', 'a', 'q', 'u', 'o']);
    reveal_strlit("rdquo");
    assert("rdquo"@ =~= seq!['r', 'd', 'q', 'u', 'o']);
    reveal_strlit("rsquo");
    assert("rsquo"@ =~= seq!['r', 's', 'q', 'u', 'o']);
    reveal_strlit("trade");
    assert("trade"@ =~= seq!['t', 'r', 'a', 'd', 'e']);
}

/// `.string` follows a single child: where the only child of `x` is text-like, it is the
/// string of `x`; where it is an element, the string of `x` is that of the element; where it is
/// anything else, `x` has no string.
pub proof fn lemma_tag_string_follows_single_child(d: Document, x: NodeId, f: NodeId)
    requires
        d.wf(),
        d.valid(x),
        d.children(x) == seq![f],
    ensures
        d.is_text_like_at(f) ==> d.tag_string_from(x) == Some(f),
        !d.is_text_like_at(f) && d.is_element_at(f) ==> d.tag_string_from(x) == d.tag_string_from(f),
        !d.is_text_like_at(f) && !d.is_element_at(f) ==> d.tag_string_from(x) is None,
{
    d.lemma_wf_child(x, 0);
    d.lemma_wf_basic();
}

/// A bare attribute condition `[name]` asks only that attribute `name` exists.
pub proof fn lemma_bare_attr_is_existence(name: Seq<char>, rest: Seq<char>)
    requires
        plain_attr_name(name),
    ensures
        attr_selector_at(seq!['['] + name + seq![']'] + rest, 0)
            == Some((AttrSelectorView::Exists(name), name.len() + 2int)),
{
    let s = seq!['['] + name + seq![']'] + rest;
    let n = name.len() as int;
    assert forall|k: int| 1 <= k <= n implies s[k] == name[k - 1] by {}
    assert(s[n + 1] == ']');
    assert forall|k: int| 2 <= k < n + 1 implies is_ident_continue_char(#[trigger] s[k]) by {
        assert(s[k] == name[k - 1]);
    }
    lemma_ident_end_at(s, 2, n + 1);
    assert(s.subrange(1, n + 1) =~= name);
    if crate::matcher::has_ascii_uppercase(name) {
        let i = choose|i: int| 0 <= i < name.len() && 'A' <= #[trigger] name[i] && name[i] <= 'Z';
        assert('a' <= name[i] <= 'z' || '0' <= name[i] <= '9' || name[i] == '-' || name[i] == '_');
    }
}

} // verus!
