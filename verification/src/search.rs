use vstd::prelude::*;
use crate::dom::{Attr, Document, NodeId, NodeType};
use crate::element::{last_named, lemma_last_named_bounds, str_view, value_view};
use crate::matcher::{
    ascii_ws, capped, extend_capped, has_ascii_token, has_token, is_ascii_ws, is_token_at, kept,
    lemma_extend_capped_compose, lemma_kept_split, lower_seq, select_traversal, to_ascii_lowercase,
    visited, FastQuery,
};
use crate::text::{chars_of, str_eq};

verus! {

/// A value handed to a search as a filter, by its kind.
pub enum QueryValue {
    Null,
    Flag(bool),
    Text(String),
    Other,
}

/// The tag names a simple search accepts.
pub enum SimpleNameFilter {
    Any,
    Name(String),
}

/// One attribute condition of a simple search.
pub enum SimpleAttrFilter {
    Exists(String),
    Missing(String),
    Exact(String, String),
    ContainsToken(String, String),
}

/// The filters of a simple search: a tag name and attribute conditions, all of which must hold.
pub struct FindFilters {
    pub name: SimpleNameFilter,
    pub attrs: Vec<SimpleAttrFilter>,
}

/// An attribute condition, as values.
pub enum AttrFilterView {
    Exists(Seq<char>),
    Missing(Seq<char>),
    Exact(Seq<char>, Seq<char>),
    ContainsToken(Seq<char>, Seq<char>),
}

/// The filters of a simple search, as values: `None` accepts every tag name.
pub struct FindFiltersView {
    pub name: Option<Seq<char>>,
    pub attrs: Seq<AttrFilterView>,
}

impl View for SimpleNameFilter {
    type V = Option<Seq<char>>;

    open spec fn view(&self) -> Option<Seq<char>> {
        match self {
            SimpleNameFilter::Any => None,
            SimpleNameFilter::Name(n) => Some(n@),
        }
    }
}

impl View for SimpleAttrFilter {
    type V = AttrFilterView;

    open spec fn view(&self) -> AttrFilterView {
        match self {
            SimpleAttrFilter::Exists(n) => AttrFilterView::Exists(n@),
            SimpleAttrFilter::Missing(n) => AttrFilterView::Missing(n@),
            SimpleAttrFilter::Exact(n, v) => AttrFilterView::Exact(n@, v@),
            SimpleAttrFilter::ContainsToken(n, v) => AttrFilterView::ContainsToken(n@, v@),
        }
    }
}

impl View for FindFilters {
    type V = FindFiltersView;

    open spec fn view(&self) -> FindFiltersView {
        FindFiltersView { name: self.name@, attrs: self.attrs@.map_values(|a: SimpleAttrFilter| a@) }
    }
}

/// The last attribute of `attrs` named `name`, if any: `Some` of its value.
pub open spec fn last_value(attrs: Seq<Attr>, name: Seq<char>) -> Option<Option<Seq<char>>> {
    let k = last_named(attrs, name, attrs.len() as int);
    if k >= 0 {
        Some(value_view(attrs[k].value))
    } else {
        None
    }
}

/// The value of the last attribute of `attrs` named `name`, if it has one.
pub open spec fn last_str(attrs: Seq<Attr>, name: Seq<char>) -> Option<Seq<char>> {
    match last_value(attrs, name) {
        Some(Some(v)) => Some(v),
        _ => None,
    }
}

/// Whether the attribute condition `f` holds of `attrs`.
pub open spec fn attr_filter_holds(attrs: Seq<Attr>, f: AttrFilterView) -> bool {
    match f {
        AttrFilterView::Exists(n) => last_str(attrs, n) is Some,
        AttrFilterView::Missing(n) => last_str(attrs, n) is None,
        AttrFilterView::Exact(n, e) => match last_value(attrs, n) {
            Some(Some(v)) => v == e,
            Some(None) => e.len() == 0,
            None => false,
        },
        AttrFilterView::ContainsToken(n, e) => match last_str(attrs, n) {
            Some(v) => has_token(v, e),
            None => false,
        },
    }
}

/// Whether node `id` is an element that the filters `f` accept.
pub open spec fn filters_match(document: Document, id: NodeId, f: FindFiltersView) -> bool {
    document.type_of(id) matches NodeType::Element(e) && {
        &&& (f.name matches Some(n) ==> e.local_name@ == n)
        &&& forall|i: int| 0 <= i < f.attrs.len() ==> attr_filter_holds(e.attrs@, #[trigger] f.attrs[i])
    }
}

/// Whether `v` splits at ASCII white space into exactly one piece.
pub open spec fn single_token(v: Seq<char>) -> bool {
    exists|i: int, j: int| #[trigger] is_token_at(v, i, j)
        && forall|k: int| 0 <= k < v.len() && (k < i || k >= j) ==> is_ascii_ws(#[trigger] v[k])
}

/// The condition that an attribute filter value stands for: `None` when the value is of no
/// kind that a simple search takes.
pub open spec fn attr_filter_of(name: Seq<char>, value: QueryValue) -> Option<AttrFilterView> {
    match value {
        QueryValue::Null => Some(AttrFilterView::Missing(name)),
        QueryValue::Flag(true) => Some(AttrFilterView::Exists(name)),
        QueryValue::Flag(false) => Some(AttrFilterView::Missing(name)),
        QueryValue::Text(v) => if name == "class"@ && single_token(v@) {
            Some(AttrFilterView::ContainsToken(name, v@))
        } else {
            Some(AttrFilterView::Exact(name, v@))
        },
        QueryValue::Other => None,
    }
}

/// The value of the last attribute of `attrs` named `name`, if any.
fn last_attr_value<'a>(attrs: &'a [Attr], name: &str) -> (r: Option<Option<&'a str>>)
    ensures
        match r {
            Some(v) => last_value(attrs@, name@) == Some(str_view(v)),
            None => last_value(attrs@, name@) is None,
        },
{
    let mut end = attrs.len();
    while end > 0
        invariant
            end <= attrs@.len(),
            last_named(attrs@, name@, attrs@.len() as int) == last_named(attrs@, name@, end as int),
        decreases end,
    {
        if str_eq(attrs[end - 1].name.as_str(), name) {
            let value = match &attrs[end - 1].value {
                Some(v) => Some(v.as_str()),
                None => None,
            };
            proof {
                assert(str_view(value) == value_view(attrs@[end - 1].value));
            }
            return Some(value);
        }
        end -= 1;
    }
    None
}

/// Whether `v` splits at ASCII white space into exactly one piece.
pub fn is_single_ascii_token(v: &str) -> (r: bool)
    ensures
        r == single_token(v@),
{
    let s = chars_of(v);
    let n = s.len();
    let mut i: usize = 0;
    while i < n && ascii_ws(s[i])
        invariant
            i <= n,
            n == s@.len(),
            forall|k: int| 0 <= k < i ==> is_ascii_ws(#[trigger] s@[k]),
        decreases n - i,
    {
        i += 1;
    }
    if i == n {
        proof {
            assert forall|a: int, b: int| !#[trigger] is_token_at(s@, a, b) by {
                if is_token_at(s@, a, b) {
                    assert(!is_ascii_ws(s@[a]));
                }
            }
        }
        return false;
    }
    let mut j: usize = i + 1;
    while j < n && !ascii_ws(s[j])
        invariant
            i < j <= n,
            n == s@.len(),
            forall|k: int| i <= k < j ==> !is_ascii_ws(#[trigger] s@[k]),
        decreases n - j,
    {
        j += 1;
    }
    let mut k: usize = j;
    while k < n && ascii_ws(s[k])
        invariant
            j <= k <= n,
            n == s@.len(),
            forall|m: int| j <= m < k ==> is_ascii_ws(#[trigger] s@[m]),
        decreases n - k,
    {
        k += 1;
    }
    proof {
        assert(!is_ascii_ws(s@[i as int]));
        if k == n {
            assert(is_token_at(s@, i as int, j as int));
            assert forall|m: int| 0 <= m < s@.len() && (m < i || m >= j) implies is_ascii_ws(#[trigger] s@[m]) by {
                if m < i {
                } else {
                }
            }
        } else {
            assert(!is_ascii_ws(s@[k as int]));
            assert(is_ascii_ws(s@[j as int]));
            assert forall|a: int, b: int| #[trigger] is_token_at(s@, a, b) implies
                !(forall|m: int| 0 <= m < s@.len() && (m < a || m >= b) ==> is_ascii_ws(#[trigger] s@[m])) by {
                if forall|m: int| 0 <= m < s@.len() && (m < a || m >= b) ==> is_ascii_ws(#[trigger] s@[m]) {
                    assert(!is_ascii_ws(s@[i as int]));
                    assert(a <= i < b);
                    assert(!is_ascii_ws(s@[k as int]));
                    assert(a <= k < b);
                    assert(a <= j < b);
                    assert(!is_ascii_ws(s@[j as int]));
                }
            }
        }
    }
    k == n
}

impl SimpleNameFilter {
    /// The name filter that a filter value stands for: `None` when the value is of no kind a
    /// simple search takes. A name is compared with its ASCII capitals made small.
    pub fn from_value(value: Option<&QueryValue>) -> (r: Option<SimpleNameFilter>)
        ensures
            match value {
                None | Some(QueryValue::Null) => r == Some(SimpleNameFilter::Any),
                Some(QueryValue::Text(v)) => r matches Some(f) && f@ == Some(lower_seq(v@)),
                Some(_) => r is None,
            },
    {
        match value {
            None => Some(SimpleNameFilter::Any),
            Some(QueryValue::Null) => Some(SimpleNameFilter::Any),
            Some(QueryValue::Text(v)) => Some(SimpleNameFilter::Name(to_ascii_lowercase(v.as_str()))),
            Some(_) => None,
        }
    }
}

impl SimpleAttrFilter {
    /// The conditions that the named filter values stand for, in order: `None` when one of the
    /// values is of no kind that a simple search takes.
    pub fn from_filters(filters: &[(String, QueryValue)]) -> (r: Option<Vec<SimpleAttrFilter>>)
        ensures
            match r {
                Some(v) => v@.len() == filters@.len() && forall|i: int| 0 <= i < filters@.len()
                    ==> attr_filter_of(filters@[i].0@, filters@[i].1) == Some(#[trigger] v@[i]@),
                None => exists|i: int| 0 <= i < filters@.len() && #[trigger] filters@[i].1 is Other,
            },
    {
        let mut out: Vec<SimpleAttrFilter> = Vec::new();
        let mut i: usize = 0;
        while i < filters.len()
            invariant
                i <= filters@.len(),
                out@.len() == i,
                forall|k: int| 0 <= k < i ==> attr_filter_of(filters@[k].0@, filters@[k].1) == Some(#[trigger] out@[k]@),
            decreases filters@.len() - i,
        {
            let name = &filters[i].0;
            let f = match &filters[i].1 {
                QueryValue::Null => SimpleAttrFilter::Missing(name.clone()),
                QueryValue::Flag(flag) => if *flag {
                    SimpleAttrFilter::Exists(name.clone())
                } else {
                    SimpleAttrFilter::Missing(name.clone())
                },
                QueryValue::Text(value) => {
                    proof {
                        reveal_strlit("class");
                    }
                    if str_eq(name.as_str(), "class") && is_single_ascii_token(value.as_str()) {
                        SimpleAttrFilter::ContainsToken(name.clone(), value.clone())
                    } else {
                        SimpleAttrFilter::Exact(name.clone(), value.clone())
                    }
                },
                QueryValue::Other => {
                    return None;
                },
            };
            out.push(f);
            i += 1;
        }
        Some(out)
    }

    /// Whether this condition holds of `attrs`; the last attribute of a name is the one read.
    pub fn matches(&self, attrs: &[Attr]) -> (r: bool)
        ensures
            r == attr_filter_holds(attrs@, self@),
    {
        match self {
            SimpleAttrFilter::Exists(name) => last_attr_value(attrs, name.as_str()) matches Some(Some(_)),
            SimpleAttrFilter::Missing(name) => !(last_attr_value(attrs, name.as_str()) matches Some(Some(_))),
            SimpleAttrFilter::Exact(name, expected) => match last_attr_value(attrs, name.as_str()) {
                Some(Some(value)) => str_eq(value, expected.as_str()),
                Some(None) => expected.unicode_len() == 0,
                None => false,
            },
            SimpleAttrFilter::ContainsToken(name, expected) => match last_attr_value(attrs, name.as_str()) {
                Some(Some(value)) => has_ascii_token(value, expected.as_str()),
                _ => false,
            },
        }
    }
}

/// Whether node `id` is an element that `filters` accept.
pub fn fast_matches(document: &Document, id: NodeId, filters: &FindFilters) -> (r: bool)
    requires
        document.valid(id),
    ensures
        r == filters_match(*document, id, filters@),
{
    let element = match document.element(id) {
        Some(e) => e,
        None => {
            return false;
        },
    };
    match &filters.name {
        SimpleNameFilter::Any => {},
        SimpleNameFilter::Name(name) => {
            if !str_eq(element.local_name.as_str(), name.as_str()) {
                return false;
            }
        },
    }
    let attrs = element.attrs.as_slice();
    let mut i: usize = 0;
    while i < filters.attrs.len()
        invariant
            i <= filters.attrs@.len(),
            document.type_of(id) == NodeType::Element(*element),
            attrs@ == element.attrs@,
            forall|k: int| 0 <= k < i ==> attr_filter_holds(attrs@, #[trigger] filters.attrs@[k]@),
        decreases filters.attrs@.len() - i,
    {
        if !filters.attrs[i].matches(attrs) {
            proof {
                assert(filters@.attrs[i as int] == filters.attrs@[i as int]@);
            }
            return false;
        }
        i += 1;
    }
    proof {
        assert forall|k: int| 0 <= k < filters@.attrs.len() implies attr_filter_holds(element.attrs@, #[trigger] filters@.attrs[k]) by {
            assert(filters@.attrs[k] == filters.attrs@[k]@);
        }
    }
    true
}

/// The nodes that a simple search from `root` reads, in document order: its descendants, or
/// only its children when the search is not recursive.
pub open spec fn search_scope(document: Document, root: NodeId, recursive: bool) -> Seq<NodeId> {
    if recursive {
        visited(document, root, false)
    } else {
        document.children(root)
    }
}

/// What a simple search from `root` finds: the nodes of its scope that `filters` accept, in
/// document order, the first `limit` of them when `limit` is positive.
pub open spec fn fast_found(document: Document, root: NodeId, recursive: bool, filters: FindFiltersView, limit: nat) -> Seq<NodeId> {
    capped(kept(search_scope(document, root, recursive), |x: NodeId| filters_match(document, x, filters)), limit)
}

/// The elements below `root` (or among its children when `recursive` is false) that `filters`
/// accept, in document order, the first `limit` of them when `limit` is positive.
pub fn fast_find_all(document: &Document, root: NodeId, recursive: bool, limit: usize, filters: &FindFilters) -> (out: Vec<NodeId>)
    requires
        document.wf(),
        document.valid(root),
    ensures
        out@ == fast_found(*document, root, recursive, filters@, limit as nat),
{
    let ghost keep = |x: NodeId| filters_match(*document, x, filters@);
    if recursive {
        let out = select_traversal(document, root, false, FastQuery::Find(filters), limit);
        proof {
            assert(keep == (|x: NodeId| crate::matcher::query_matches(*document, root, FastQuery::Find(filters), x)));
        }
        return out;
    }
    let kids = document.child_nodes(root);
    proof {
        document.lemma_children(root);
    }
    let mut out: Vec<NodeId> = Vec::new();
    let mut i: usize = 0;
    while i < kids.len()
        invariant_except_break
            i <= kids@.len(),
        invariant
            document.valid(root),
            kids@ == document.children(root),
            forall|k: int| 0 <= k < kids@.len() ==> document.valid(#[trigger] kids@[k]),
            keep == (|x: NodeId| filters_match(*document, x, filters@)),
            i <= kids@.len(),
            out@ == extend_capped(Seq::empty(), kept(kids@.take(i as int), keep), limit as nat),
        ensures
            limit > 0 && out@.len() >= limit || i == kids@.len(),
        decreases kids@.len() - i,
    {
        let id = kids[i];
        let hit = fast_matches(document, id, filters);
        proof {
            assert(keep(id) == hit);
            assert(kids@.take(i + 1).drop_last() =~= kids@.take(i as int));
            assert(kids@.take(i + 1).last() == id);
            lemma_extend_capped_compose(Seq::empty(), kept(kids@.take(i as int), keep), if hit { seq![id] } else { Seq::empty() }, limit as nat);
            if hit {
                assert(kept(kids@.take(i + 1), keep) =~= kept(kids@.take(i as int), keep) + seq![id]);
            } else {
                assert(kept(kids@.take(i + 1), keep) =~= kept(kids@.take(i as int), keep) + Seq::<NodeId>::empty());
            }
        }
        if hit && (limit == 0 || out.len() < limit) {
            out.push(id);
        }
        i += 1;
        if limit > 0 && out.len() >= limit {
            break;
        }
    }
    proof {
        lemma_kept_split(kids@, keep, i as int);
        lemma_extend_capped_compose(Seq::empty(), kept(kids@.take(i as int), keep), kept(kids@.skip(i as int), keep), limit as nat);
        let all = kept(kids@, keep);
        assert(extend_capped(Seq::empty(), all, limit as nat) == capped(all, limit as nat)) by {
            assert(Seq::<NodeId>::empty() + all =~= all);
        }
    }
    out
}

/// The first element below `root` (or among its children when `recursive` is false), in
/// document order, that `filters` accept.
pub fn fast_find_first(document: &Document, root: NodeId, recursive: bool, filters: &FindFilters) -> (r: Option<NodeId>)
    requires
        document.wf(),
        document.valid(root),
    ensures
        ({
            let found = kept(search_scope(*document, root, recursive), |x: NodeId| filters_match(*document, x, filters@));
            r == (if found.len() > 0 { Some(found[0]) } else { None::<NodeId> })
        }),
{
    let out = fast_find_all(document, root, recursive, 1, filters);
    if out.len() > 0 {
        Some(out[0])
    } else {
        None
    }
}

} // verus!
