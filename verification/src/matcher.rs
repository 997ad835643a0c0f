use vstd::prelude::*;
use crate::dom::{Document, NodeId, NodeType};
use crate::dom::Attr;
use crate::element::{first_named, lemma_first_named_bounds, str_view, value_view};
use crate::text::{ascii_lower, chars_of, lower_char, push_char, str_eq};

verus! {

/// `s` with ASCII capital letters made small.
pub open spec fn lower_seq(s: Seq<char>) -> Seq<char> {
    s.map_values(|c: char| lower_char(c))
}

/// `s` with ASCII capital letters made small.
pub fn to_ascii_lowercase(s: &str) -> (out: String)
    ensures
        out@ == lower_seq(s@),
{
    let chars = chars_of(s);
    let mut out = String::new();
    let mut i: usize = 0;
    while i < chars.len()
        invariant
            i <= chars@.len(),
            chars@ == s@,
            out@ == lower_seq(chars@.take(i as int)),
        decreases chars@.len() - i,
    {
        push_char(&mut out, ascii_lower(chars[i]));
        proof {
            assert(lower_seq(chars@.take(i as int + 1)) =~= lower_seq(chars@.take(i as int)).push(lower_char(chars@[i as int])));
        }
        i += 1;
    }
    proof {
        assert(chars@.take(chars@.len() as int) =~= chars@);
    }
    out
}

/// What `find` looks for: an element, with the given tag name if one is set.
#[derive(Clone, Debug, Default)]
pub struct FindCriteria {
    pub name: Option<String>,
}

impl FindCriteria {
    /// Criteria for elements named `name` (compared in lower case), or for any element.
    pub fn with_name(name: Option<&str>) -> (criteria: FindCriteria)
        ensures
            match name {
                Some(n) => criteria.name matches Some(m) && m@ == lower_seq(n@),
                None => criteria.name is None,
            },
    {
        match name {
            Some(value) => FindCriteria { name: Some(to_ascii_lowercase(value)) },
            None => FindCriteria { name: None },
        }
    }
}

/// Whether node `id` meets `criteria`.
pub open spec fn meets_criteria(document: Document, id: NodeId, criteria: FindCriteria) -> bool {
    document.type_of(id) matches NodeType::Element(e) && (criteria.name matches Some(n) ==> e.local_name@ == n@)
}

/// Whether node `id` is an element that meets `criteria`.
pub fn matches_find_criteria(document: &Document, id: NodeId, criteria: &FindCriteria) -> (r: bool)
    requires
        document.valid(id),
    ensures
        r == meets_criteria(*document, id, *criteria),
{
    match document.element(id) {
        None => false,
        Some(element) => match &criteria.name {
            Some(name) => element.local_name == *name,
            None => true,
        },
    }
}


spec fn valid_in(document: &Document, id: NodeId) -> bool {
    document.valid(id)
}

spec fn meets_criteria_at(document: &Document, id: NodeId, criteria: &FindCriteria) -> bool {
    meets_criteria(*document, id, *criteria)
}

/// `r` is the first node of `visited(document, root, include_root)` that is an element meeting
/// `criteria`, or `None` where no node there does.
pub open spec fn found_first(document: Document, root: NodeId, include_root: bool, criteria: FindCriteria, r: Option<NodeId>) -> bool {
    let v = visited(document, root, include_root);
    match r {
        Some(x) => exists|k: int| {
            &&& 0 <= k < v.len()
            &&& #[trigger] v[k] == x
            &&& meets_criteria(document, x, criteria)
            &&& forall|j: int| 0 <= j < k ==> !meets_criteria(document, #[trigger] v[j], criteria)
        },
        None => forall|j: int| 0 <= j < v.len() ==> !meets_criteria(document, #[trigger] v[j], criteria),
    }
}

/// The first node below `root` (and `root` itself when `include_root`), in document order,
/// that is an element meeting `criteria`.
pub fn find_first(document: &Document, root: NodeId, include_root: bool, criteria: &FindCriteria) -> (r: Option<NodeId>)
    requires
        document.wf(),
        document.valid(root),
    ensures
        found_first(*document, root, include_root, *criteria, r),
{
    let is_match = |id: NodeId| -> (b: bool)
        requires
            valid_in(document, id),
        ensures
            b == meets_criteria_at(document, id, criteria),
    {
        matches_find_criteria(document, id, criteria)
    };
    let r = document.find_descendant_element(root, include_root, is_match);
    proof {
        let v = visited(*document, root, include_root);
        assert forall|j: int| 0 <= j < v.len() && meets_criteria(*document, v[j], *criteria) implies document.is_element_at(v[j]) by {
        }
    }
    r
}

/// Whether an identifier of a fast selector may start with `c`.
pub open spec fn is_ident_start_char(c: char) -> bool {
    ('a' <= c && c <= 'z') || ('A' <= c && c <= 'Z') || c == '_'
}

/// Whether an identifier of a fast selector may go on with `c`.
pub open spec fn is_ident_continue_char(c: char) -> bool {
    is_ident_start_char(c) || ('0' <= c && c <= '9') || c == '-'
}

/// Whether an identifier may start with `c`.
pub fn is_ident_start(c: char) -> (r: bool)
    ensures
        r == is_ident_start_char(c),
{
    ('a' <= c && c <= 'z') || ('A' <= c && c <= 'Z') || c == '_'
}

/// Whether an identifier may go on with `c`.
pub fn is_ident_continue(c: char) -> (r: bool)
    ensures
        r == is_ident_continue_char(c),
{
    is_ident_start(c) || ('0' <= c && c <= '9') || c == '-'
}

/// Where the run of identifier characters that starts at `i` ends.
pub open spec fn ident_end(s: Seq<char>, i: int) -> int
    decreases s.len() - i,
{
    if 0 <= i < s.len() && is_ident_continue_char(s[i]) {
        ident_end(s, i + 1)
    } else {
        i
    }
}

pub proof fn lemma_ident_end(s: Seq<char>, i: int)
    requires
        0 <= i <= s.len(),
    ensures
        i <= ident_end(s, i) <= s.len(),
    decreases s.len() - i,
{
    if i < s.len() && is_ident_continue_char(s[i]) {
        lemma_ident_end(s, i + 1);
    }
}

/// The end of the identifier that starts at `start`, if one does.
pub open spec fn identifier_at(s: Seq<char>, start: int) -> Option<int> {
    if 0 <= start < s.len() && is_ident_start_char(s[start]) {
        Some(ident_end(s, start + 1))
    } else {
        None
    }
}

/// The end of the identifier that starts at `start` in `s`, if one does.
pub fn parse_identifier(s: &Vec<char>, start: usize) -> (r: Option<usize>)
    ensures
        match r {
            Some(e) => identifier_at(s@, start as int) == Some(e as int) && start < e <= s@.len(),
            None => identifier_at(s@, start as int) is None,
        },
{
    if start >= s.len() || !is_ident_start(s[start]) {
        return None;
    }
    let mut index = start + 1;
    proof {
        lemma_ident_end(s@, index as int);
    }
    while index < s.len() && is_ident_continue(s[index])
        invariant
            start < index <= s@.len(),
            ident_end(s@, start as int + 1) == ident_end(s@, index as int),
        decreases s@.len() - index,
    {
        index += 1;
    }
    Some(index)
}

/// Whether `s` holds an ASCII capital letter.
pub open spec fn has_ascii_uppercase(s: Seq<char>) -> bool {
    exists|i: int| 0 <= i < s.len() && 'A' <= #[trigger] s[i] && s[i] <= 'Z'
}

/// Whether `s[from..to]` holds an ASCII capital letter.
pub fn contains_ascii_uppercase(s: &Vec<char>, from: usize, to: usize) -> (r: bool)
    requires
        from <= to <= s@.len(),
    ensures
        r == has_ascii_uppercase(s@.subrange(from as int, to as int)),
{
    let ghost t = s@.subrange(from as int, to as int);
    let mut i = from;
    while i < to
        invariant
            from <= i <= to <= s@.len(),
            t == s@.subrange(from as int, to as int),
            forall|j: int| 0 <= j < i - from ==> !('A' <= #[trigger] t[j] && t[j] <= 'Z'),
        decreases to - i,
    {
        if 'A' <= s[i] && s[i] <= 'Z' {
            proof {
                assert(t[i - from] == s@[i as int]);
            }
            return true;
        }
        proof {
            assert(t[i - from] == s@[i as int]);
        }
        i += 1;
    }
    false
}

/// The first index at or after `i` holding `c` (`s.len()` if none).
pub open spec fn find_from(s: Seq<char>, i: int, c: char) -> int
    decreases s.len() - i,
{
    if 0 <= i < s.len() && s[i] != c {
        find_from(s, i + 1, c)
    } else if i < 0 {
        s.len() as int
    } else {
        i
    }
}

pub proof fn lemma_find_from(s: Seq<char>, i: int, c: char)
    requires
        0 <= i <= s.len(),
    ensures
        i <= find_from(s, i, c) <= s.len(),
        find_from(s, i, c) < s.len() ==> s[find_from(s, i, c)] == c,
    decreases s.len() - i,
{
    if i < s.len() && s[i] != c {
        lemma_find_from(s, i + 1, c);
    }
}

/// The first index at or after `i` holding `c` (`s.len()` if none).
pub fn find_char_from(s: &Vec<char>, i: usize, c: char) -> (r: usize)
    requires
        i <= s@.len(),
    ensures
        r == find_from(s@, i as int, c),
        i <= r <= s@.len(),
{
    let mut index = i;
    proof {
        lemma_find_from(s@, i as int, c);
    }
    while index < s.len() && s[index] != c
        invariant
            i <= index <= s@.len(),
            find_from(s@, i as int, c) == find_from(s@, index as int, c),
        decreases s@.len() - index,
    {
        index += 1;
    }
    index
}

/// An attribute value of a fast selector that starts at `start`: its bounds and where parsing goes on.
pub open spec fn attr_value_at(s: Seq<char>, start: int) -> Option<(int, int, int)> {
    if start < 0 || start >= s.len() {
        None
    } else if s[start] == '"' || s[start] == '\'' {
        let end = find_from(s, start + 1, s[start]);
        if end < s.len() {
            Some((start + 1, end, end + 1))
        } else {
            None
        }
    } else {
        let end = find_from(s, start, ']');
        if end > start {
            Some((start, end, end))
        } else {
            None
        }
    }
}

/// Parses an attribute value at `start`: quoted, or running up to `]`.
pub fn parse_attr_value(s: &Vec<char>, start: usize) -> (r: Option<(usize, usize, usize)>)
    ensures
        match r {
            Some((a, b, n)) => attr_value_at(s@, start as int) == Some((a as int, b as int, n as int)) && a <= b <= n <= s@.len(),
            None => attr_value_at(s@, start as int) is None,
        },
{
    if start >= s.len() {
        return None;
    }
    if s[start] == '"' || s[start] == '\'' {
        let quote = s[start];
        let end = find_char_from(s, start + 1, quote);
        if end < s.len() {
            Some((start + 1, end, end + 1))
        } else {
            None
        }
    } else {
        let end = find_char_from(s, start, ']');
        if end > start {
            Some((start, end, end))
        } else {
            None
        }
    }
}


/// An attribute condition of a fast selector: the attribute exists, or has exactly this value.
#[derive(Clone, Debug)]
pub enum FastAttrSelector {
    Exists(String),
    Exact(String, String),
}

/// What an attribute condition of a fast selector holds.
pub enum AttrSelectorView {
    Exists(Seq<char>),
    Exact(Seq<char>, Seq<char>),
}

impl View for FastAttrSelector {
    type V = AttrSelectorView;

    open spec fn view(&self) -> AttrSelectorView {
        match self {
            FastAttrSelector::Exists(n) => AttrSelectorView::Exists(n@),
            FastAttrSelector::Exact(n, v) => AttrSelectorView::Exact(n@, v@),
        }
    }
}

/// The attribute condition `[name]` or `[name=value]` at `start`, and where parsing goes on.
pub open spec fn attr_selector_at(s: Seq<char>, start: int) -> Option<(AttrSelectorView, int)> {
    match identifier_at(s, start + 1) {
        None => None,
        Some(e) => {
            let name = s.subrange(start + 1, e);
            if has_ascii_uppercase(name) || e >= s.len() {
                None
            } else if s[e] == ']' {
                Some((AttrSelectorView::Exists(name), e + 1))
            } else if s[e] == '=' {
                match attr_value_at(s, e + 1) {
                    Some((a, b, n)) => if n < s.len() && s[n] == ']' {
                        Some((AttrSelectorView::Exact(name, s.subrange(a, b)), n + 1))
                    } else {
                        None
                    },
                    None => None,
                }
            } else {
                None
            }
        },
    }
}

pub proof fn lemma_attr_selector_advances(s: Seq<char>, start: int)
    requires
        0 <= start,
    ensures
        attr_selector_at(s, start) matches Some((a, n)) ==> start < n <= s.len(),
{
    if let Some(e) = identifier_at(s, start + 1) {
        lemma_ident_end(s, start + 2);
        if e < s.len() && s[e] == '=' {
            if let Some((a, b, n)) = attr_value_at(s, e + 1) {
                if s[e + 1] == '"' || s[e + 1] == '\'' {
                    lemma_find_from(s, e + 2, s[e + 1]);
                } else {
                    lemma_find_from(s, e + 1, ']');
                }
            }
        }
    }
}

/// Parses the attribute condition that starts with `[` at `start`.
pub fn parse_attr_selector(s: &Vec<char>, start: usize) -> (r: Option<(FastAttrSelector, usize)>)
    requires
        start < s@.len(),
    ensures
        match r {
            Some((a, n)) => attr_selector_at(s@, start as int) == Some((a@, n as int)),
            None => attr_selector_at(s@, start as int) is None,
        },
{
    let len = s.len();
    let name_end = match parse_identifier(s, start + 1) {
        Some(e) => e,
        None => {
            return None;
        },
    };
    if contains_ascii_uppercase(s, start + 1, name_end) || name_end >= s.len() {
        return None;
    }
    let name = crate::text::string_from_range(s, start + 1, name_end);
    if s[name_end] == ']' {
        return Some((FastAttrSelector::Exists(name), name_end + 1));
    }
    if s[name_end] != '=' {
        return None;
    }
    match parse_attr_value(s, name_end + 1) {
        Some((a, b, n)) => if n < s.len() && s[n] == ']' {
            let value = crate::text::string_from_range(s, a, b);
            Some((FastAttrSelector::Exact(name, value), n + 1))
        } else {
            None
        },
        None => None,
    }
}

/// A compound selector that the library matches itself: a tag name or `*`, ids, classes
/// and attribute conditions.
#[derive(Clone, Debug)]
pub struct FastSelector {
    pub tag_name: Option<String>,
    pub id: Option<String>,
    pub classes: Vec<String>,
    pub attrs: Vec<FastAttrSelector>,
}

/// What a fast selector holds.
pub struct FastSelectorView {
    pub tag_name: Option<Seq<char>>,
    pub id: Option<Seq<char>>,
    pub classes: Seq<Seq<char>>,
    pub attrs: Seq<AttrSelectorView>,
}

impl View for FastSelector {
    type V = FastSelectorView;

    open spec fn view(&self) -> FastSelectorView {
        FastSelectorView {
            tag_name: value_view(self.tag_name),
            id: value_view(self.id),
            classes: self.classes@.map_values(|c: String| c@),
            attrs: self.attrs@.map_values(|a: FastAttrSelector| a@),
        }
    }
}

/// The rest of a compound selector from `i` on, added to what `acc` holds.
pub open spec fn compound_items(s: Seq<char>, i: int, acc: FastSelectorView) -> Option<FastSelectorView>
    decreases s.len() - i,
{
    if i < 0 || i >= s.len() {
        Some(acc)
    } else if s[i] == '.' {
        match identifier_at(s, i + 1) {
            Some(e) => {
                proof {
                    lemma_ident_end(s, i + 2);
                }
                compound_items(s, e, FastSelectorView { classes: acc.classes.push(s.subrange(i + 1, e)), ..acc })
            },
            None => None,
        }
    } else if s[i] == '#' {
        if acc.id is Some {
            None
        } else {
            match identifier_at(s, i + 1) {
                Some(e) => {
                    proof {
                        lemma_ident_end(s, i + 2);
                    }
                    compound_items(s, e, FastSelectorView { id: Some(s.subrange(i + 1, e)), ..acc })
                },
                None => None,
            }
        }
    } else if s[i] == '[' {
        match attr_selector_at(s, i) {
            Some((a, n)) => {
                proof {
                    lemma_attr_selector_advances(s, i);
                }
                compound_items(s, n, FastSelectorView { attrs: acc.attrs.push(a), ..acc })
            },
            None => None,
        }
    } else {
        None
    }
}

/// Whether a compound selector cannot hold `c` (white space, combinators, lists, pseudo-classes).
pub open spec fn breaks_compound(c: char) -> bool {
    c == ' ' || c == '\t' || c == '\n' || c == '\r' || c == '>' || c == '+' || c == '~' || c == ',' || c == ':'
}

/// The compound selector that `t` (already trimmed) is, if it is one the library matches itself.
pub open spec fn compound_of(t: Seq<char>) -> Option<FastSelectorView> {
    let empty = FastSelectorView { tag_name: None, id: None, classes: Seq::empty(), attrs: Seq::empty() };
    if t.len() == 0 || exists|i: int| 0 <= i < t.len() && breaks_compound(#[trigger] t[i]) {
        None
    } else if is_ident_start_char(t[0]) {
        let e = ident_end(t, 1);
        if has_ascii_uppercase(t.subrange(0, e)) {
            None
        } else {
            compound_items(t, e, FastSelectorView { tag_name: Some(t.subrange(0, e)), ..empty })
        }
    } else if t[0] == '*' {
        compound_items(t, 1, empty)
    } else {
        compound_items(t, 0, empty)
    }
}


/// Whether a compound selector cannot hold `c`.
fn breaks_compound_char(c: char) -> (r: bool)
    ensures
        r == breaks_compound(c),
{
    c == ' ' || c == '\t' || c == '\n' || c == '\r' || c == '>' || c == '+' || c == '~' || c == ',' || c == ':'
}

impl FastSelector {
    /// Parses `selector` (trimmed first) as a compound selector that the library matches itself.
    pub fn parse(selector: &str) -> (r: Option<FastSelector>)
        ensures
            match r {
                Some(f) => compound_of(crate::text::trimmed(selector@)) == Some(f@),
                None => compound_of(crate::text::trimmed(selector@)) is None,
            },
    {
        let trimmed = crate::text::trim(selector);
        let t = chars_of(trimmed.as_str());
        Self::parse_chars(&t)
    }

    /// Parses the trimmed selector `t` as a compound selector that the library matches itself.
    pub fn parse_chars(t: &Vec<char>) -> (r: Option<FastSelector>)
        ensures
            match r {
                Some(f) => compound_of(t@) == Some(f@),
                None => compound_of(t@) is None,
            },
    {
        let len = t.len();
        if len == 0 {
            return None;
        }
        let mut k: usize = 0;
        while k < len
            invariant
                len == t@.len(),
                k <= len,
                forall|i: int| 0 <= i < k ==> !breaks_compound(#[trigger] t@[i]),
            decreases len - k,
        {
            if breaks_compound_char(t[k]) {
                return None;
            }
            k += 1;
        }
        let mut sel = FastSelector { tag_name: None, id: None, classes: Vec::new(), attrs: Vec::new() };
        let mut index: usize = 0;
        proof {
            assert(sel@.classes =~= Seq::<Seq<char>>::empty());
            assert(sel@.attrs =~= Seq::<AttrSelectorView>::empty());
        }
        if is_ident_start(t[0]) {
            let e = parse_identifier(t, 0).unwrap();
            if contains_ascii_uppercase(t, 0, e) {
                return None;
            }
            sel.tag_name = Some(crate::text::string_from_range(t, 0, e));
            index = e;
        } else if t[0] == '*' {
            index = 1;
        }
        while index < len
            invariant
                len == t@.len(),
                index <= len,
                compound_of(t@) == compound_items(t@, index as int, sel@),
            decreases len - index,
        {
            let c = t[index];
            if c == '.' {
                let e = match parse_identifier(t, index + 1) {
                    Some(e) => e,
                    None => {
                        return None;
                    },
                };
                let ghost before = sel@;
                sel.classes.push(crate::text::string_from_range(t, index + 1, e));
                proof {
                    assert(sel@.classes =~= before.classes.push(t@.subrange(index as int + 1, e as int)));
                    assert(sel@.attrs =~= before.attrs);
                    assert(sel@ == FastSelectorView { classes: before.classes.push(t@.subrange(index as int + 1, e as int)), ..before });
                }
                index = e;
            } else if c == '#' {
                if sel.id.is_some() {
                    return None;
                }
                let e = match parse_identifier(t, index + 1) {
                    Some(e) => e,
                    None => {
                        return None;
                    },
                };
                sel.id = Some(crate::text::string_from_range(t, index + 1, e));
                index = e;
            } else if c == '[' {
                let (a, n) = match parse_attr_selector(t, index) {
                    Some(p) => p,
                    None => {
                        return None;
                    },
                };
                proof {
                    lemma_attr_selector_advances(t@, index as int);
                }
                let ghost before = sel@;
                sel.attrs.push(a);
                proof {
                    assert(sel@.attrs =~= before.attrs.push(a@));
                    assert(sel@.classes =~= before.classes);
                    assert(sel@ == FastSelectorView { attrs: before.attrs.push(a@), ..before });
                }
                index = n;
            } else {
                return None;
            }
        }
        Some(sel)
    }
}


/// ASCII white space, as `split_ascii_whitespace` splits on.
pub open spec fn is_ascii_ws(c: char) -> bool {
    c == ' ' || c == '\t' || c == '\n' || c == '\x0c' || c == '\r'
}

/// Whether `v[i..j]` is one of the pieces that `v` splits into at ASCII white space.
pub open spec fn is_token_at(v: Seq<char>, i: int, j: int) -> bool {
    &&& 0 <= i < j <= v.len()
    &&& (i == 0 || is_ascii_ws(v[i - 1]))
    &&& (j == v.len() || is_ascii_ws(v[j]))
    &&& forall|k: int| i <= k < j ==> !is_ascii_ws(#[trigger] v[k])
}

/// Whether `c` is one of the pieces that `v` splits into at ASCII white space.
pub open spec fn has_token(v: Seq<char>, c: Seq<char>) -> bool {
    exists|i: int, j: int| is_token_at(v, i, j) && v.subrange(i, j) == c
}

pub fn ascii_ws(c: char) -> (r: bool)
    ensures
        r == is_ascii_ws(c),
{
    c == ' ' || c == '\t' || c == '\n' || c == '\x0c' || c == '\r'
}

/// Whether `x[from..to]` holds exactly the characters of `c`.
pub(crate) fn range_equals(x: &Vec<char>, from: usize, to: usize, c: &Vec<char>) -> (r: bool)
    requires
        from <= to <= x@.len(),
    ensures
        r == (x@.subrange(from as int, to as int) == c@),
{
    if to - from != c.len() {
        proof {
            assert(x@.subrange(from as int, to as int).len() != c@.len());
        }
        return false;
    }
    let mut k: usize = 0;
    while k < c.len()
        invariant
            to - from == c@.len(),
            from <= to <= x@.len(),
            k <= c@.len(),
            forall|m: int| 0 <= m < k ==> x@[from + m] == c@[m],
        decreases c@.len() - k,
    {
        if x[from + k] != c[k] {
            proof {
                assert(x@.subrange(from as int, to as int)[k as int] != c@[k as int]);
            }
            return false;
        }
        k += 1;
    }
    proof {
        assert(x@.subrange(from as int, to as int) =~= c@);
    }
    true
}

/// Whether `c` is one of the pieces that `v` splits into at ASCII white space.
pub fn has_ascii_token(v: &str, c: &str) -> (r: bool)
    ensures
        r == has_token(v@, c@),
{
    let x = chars_of(v);
    let cc = chars_of(c);
    let n = x.len();
    let mut i: usize = 0;
    loop
        invariant
            n == x@.len(),
            x@ == v@,
            cc@ == c@,
            i <= n,
            i == 0 || i == n || is_ascii_ws(x@[i as int]),
            forall|a: int, b: int| is_token_at(x@, a, b) && a < i ==> x@.subrange(a, b) != c@,
        decreases n - i,
    {
        let head = i;
        while i < n && ascii_ws(x[i])
            invariant
                n == x@.len(),
                head <= i <= n,
                forall|k: int| head <= k < i ==> is_ascii_ws(#[trigger] x@[k]),
            decreases n - i,
        {
            i += 1;
        }
        if i == n {
            proof {
                assert forall|a: int, b: int| is_token_at(x@, a, b) implies x@.subrange(a, b) != c@ by {
                    if a >= head {
                        assert(is_ascii_ws(x@[a]));
                    }
                }
            }
            return false;
        }
        let start = i;
        while i < n && !ascii_ws(x[i])
            invariant
                n == x@.len(),
                start <= i <= n,
                forall|k: int| start <= k < i ==> !is_ascii_ws(#[trigger] x@[k]),
            decreases n - i,
        {
            i += 1;
        }
        proof {
            assert(start == 0 || is_ascii_ws(x@[start - 1])) by {
                if start > 0 && start == head {
                    assert(head == n || is_ascii_ws(x@[head as int]));
                }
            }
            assert(is_token_at(x@, start as int, i as int));
        }
        if range_equals(&x, start, i, &cc) {
            return true;
        }
        proof {
            assert forall|a: int, b: int| is_token_at(x@, a, b) && a < i implies x@.subrange(a, b) != c@ by {
                if a >= head && a < start {
                    assert(is_ascii_ws(x@[a]));
                } else if a > start && a < i {
                    assert(!is_ascii_ws(x@[a - 1]));
                } else if a == start {
                    if b < i {
                        assert(!is_ascii_ws(x@[b]));
                    } else if b > i {
                        assert(!is_ascii_ws(x@[i as int]));
                    }
                }
            }
        }
    }
}


/// The first attribute of `attrs` named `name`, if any: `Some` of its value.
pub open spec fn first_value(attrs: Seq<Attr>, name: Seq<char>) -> Option<Option<Seq<char>>> {
    let k = first_named(attrs, name, 0);
    if k >= 0 {
        Some(value_view(attrs[k].value))
    } else {
        None
    }
}

/// The value of the first attribute of `attrs` named `name`, if it has one.
pub open spec fn first_str(attrs: Seq<Attr>, name: Seq<char>) -> Option<Seq<char>> {
    match first_value(attrs, name) {
        Some(Some(v)) => Some(v),
        _ => None,
    }
}

/// Whether the attribute condition `a` holds of `attrs`.
pub open spec fn attr_condition_holds(attrs: Seq<Attr>, a: AttrSelectorView) -> bool {
    match a {
        AttrSelectorView::Exists(n) => exists|i: int| 0 <= i < attrs.len() && (#[trigger] attrs[i]).name@ == n,
        AttrSelectorView::Exact(n, v) => match first_value(attrs, n) {
            Some(Some(x)) => x == v,
            Some(None) => v.len() == 0,
            None => false,
        },
    }
}

/// Whether a class attribute with this value (if any) lists the class `c`.
pub open spec fn class_ok(value: Option<Seq<char>>, c: Seq<char>) -> bool {
    value matches Some(v) && has_token(v, c)
}

/// Whether node `id` matches the fast selector `f`.
pub open spec fn fast_matches(document: Document, id: NodeId, f: FastSelectorView) -> bool {
    document.type_of(id) matches NodeType::Element(e) && {
        let attrs = e.attrs@;
        &&& (f.tag_name matches Some(t) ==> e.local_name@ == t)
        &&& (f.id matches Some(x) ==> first_str(attrs, "id"@) == Some(x))
        &&& (forall|i: int| 0 <= i < f.classes.len() ==> class_ok(first_str(attrs, "class"@), #[trigger] f.classes[i]))
        &&& (forall|i: int| 0 <= i < f.attrs.len() ==> attr_condition_holds(attrs, #[trigger] f.attrs[i]))
    }
}

/// The first attribute of `attrs` named `name`, if any: `Some` of its value.
pub fn attr_value<'a>(attrs: &'a [Attr], name: &str) -> (r: Option<Option<&'a str>>)
    ensures
        match r {
            Some(v) => first_value(attrs@, name@) == Some(str_view(v)),
            None => first_value(attrs@, name@) is None,
        },
{
    let mut i: usize = 0;
    while i < attrs.len()
        invariant
            i <= attrs@.len(),
            first_named(attrs@, name@, 0) == first_named(attrs@, name@, i as int),
        decreases attrs@.len() - i,
    {
        if str_eq(attrs[i].name.as_str(), name) {
            let value = match &attrs[i].value {
                Some(v) => Some(v.as_str()),
                None => None,
            };
            proof {
                assert(str_view(value) == value_view(attrs@[i as int].value));
            }
            return Some(value);
        }
        i += 1;
    }
    None
}

/// The value of the first attribute of `attrs` named `name`, if it has one.
pub fn attr_str<'a>(attrs: &'a [Attr], name: &str) -> (r: Option<&'a str>)
    ensures
        str_view(r) == first_str(attrs@, name@),
{
    match attr_value(attrs, name) {
        Some(Some(v)) => Some(v),
        _ => None,
    }
}

/// Whether some attribute of `attrs` is named `name`.
pub fn attr_present(attrs: &[Attr], name: &str) -> (r: bool)
    ensures
        r == exists|i: int| 0 <= i < attrs@.len() && (#[trigger] attrs@[i]).name@ == name@,
{
    let r = attr_value(attrs, name).is_some();
    proof {
        lemma_first_named_bounds(attrs@, name@, 0);
    }
    r
}

/// Whether the first attribute of `attrs` named `name` has the value `expected` (no value
/// counting as the empty one).
pub fn attr_equals(attrs: &[Attr], name: &str, expected: &str) -> (r: bool)
    ensures
        r == match first_value(attrs@, name@) {
            Some(Some(x)) => x == expected@,
            Some(None) => expected@.len() == 0,
            None => false,
        },
{
    match attr_value(attrs, name) {
        Some(Some(value)) => str_eq(value, expected),
        Some(None) => expected.unicode_len() == 0,
        None => false,
    }
}

impl FastSelector {
    /// Whether node `id` matches this selector.
    pub fn matches(&self, document: &Document, id: NodeId) -> (r: bool)
        requires
            document.valid(id),
        ensures
            r == fast_matches(*document, id, self@),
    {
        let element = match document.element(id) {
            Some(e) => e,
            None => {
                return false;
            },
        };
        let attrs = element.attrs.as_slice();
        if let Some(tag_name) = &self.tag_name {
            if element.local_name != *tag_name {
                return false;
            }
        }
        if let Some(expected) = &self.id {
            match attr_str(attrs, "id") {
                Some(value) => if !str_eq(value, expected.as_str()) {
                    return false;
                },
                None => {
                    return false;
                },
            }
        }
        let ghost f = self@;
        let ghost class_name = "class"@;
        let ghost id_name = "id"@;
        proof {
            assert(document.type_of(id) == NodeType::Element(*element));
            assert(f.tag_name matches Some(t) ==> element.local_name@ == t);
            assert(f.id matches Some(x) ==> first_str(attrs@, id_name) == Some(x));
        }
        let class_value = attr_str(attrs, "class");
        let mut i: usize = 0;
        while i < self.classes.len()
            invariant
                f == self@,
                class_name == "class"@,
                id_name == "id"@,
                attrs@ == element.attrs@,
                document.type_of(id) == NodeType::Element(*element),
                f.tag_name matches Some(t) ==> element.local_name@ == t,
                f.id matches Some(x) ==> first_str(attrs@, id_name) == Some(x),
                i <= self.classes@.len(),
                str_view(class_value) == first_str(attrs@, class_name),
                forall|j: int| 0 <= j < i ==> class_ok(first_str(attrs@, class_name), #[trigger] f.classes[j]),
            decreases self.classes@.len() - i,
        {
            let found = match class_value {
                Some(v) => has_ascii_token(v, self.classes[i].as_str()),
                None => false,
            };
            proof {
                assert(f.classes[i as int] == self.classes@[i as int]@);
            }
            if !found {
                proof {
                    assert(!class_ok(first_str(attrs@, class_name), f.classes[i as int]));
                    assert(class_name == "class"@);
                }
                return false;
            }
            i += 1;
        }
        let mut j: usize = 0;
        while j < self.attrs.len()
            invariant
                f == self@,
                class_name == "class"@,
                id_name == "id"@,
                attrs@ == element.attrs@,
                document.type_of(id) == NodeType::Element(*element),
                f.tag_name matches Some(t) ==> element.local_name@ == t,
                f.id matches Some(x) ==> first_str(attrs@, id_name) == Some(x),
                forall|k: int| 0 <= k < f.classes.len() ==> class_ok(first_str(attrs@, class_name), #[trigger] f.classes[k]),
                j <= self.attrs@.len(),
                forall|m: int| 0 <= m < j ==> attr_condition_holds(attrs@, #[trigger] f.attrs[m]),
            decreases self.attrs@.len() - j,
        {
            let holds = match &self.attrs[j] {
                FastAttrSelector::Exists(name) => attr_present(attrs, name.as_str()),
                FastAttrSelector::Exact(name, value) => attr_equals(attrs, name.as_str(), value.as_str()),
            };
            proof {
                assert(f.attrs[j as int] == self.attrs@[j as int]@);
            }
            if !holds {
                return false;
            }
            j += 1;
        }
        true
    }
}


/// How two compound selectors of a chain relate.
#[derive(Clone, Copy, Debug, PartialEq, Eq, Structural)]
pub enum FastCombinator {
    Descendant,
    Child,
}

/// Where a chain parse stands: the next index, the parts found (as bounds), the combinators
/// between them, the pending combinator, an open quote, the bracket depth and where the
/// current part started.
pub struct ChainState {
    pub index: int,
    pub parts: Seq<(int, int)>,
    pub combinators: Seq<FastCombinator>,
    pub pending: FastCombinator,
    pub quote: Option<char>,
    pub depth: nat,
    pub part_start: Option<int>,
}

/// The first index at or after `i` that is not ASCII white space.
pub open spec fn skip_ascii_ws(s: Seq<char>, i: int) -> int
    decreases s.len() - i,
{
    if 0 <= i < s.len() && is_ascii_ws(s[i]) {
        skip_ascii_ws(s, i + 1)
    } else {
        i
    }
}

pub proof fn lemma_skip_ascii_ws(s: Seq<char>, i: int)
    requires
        0 <= i <= s.len(),
    ensures
        i <= skip_ascii_ws(s, i) <= s.len(),
    decreases s.len() - i,
{
    if i < s.len() && is_ascii_ws(s[i]) {
        lemma_skip_ascii_ws(s, i + 1);
    }
}

/// Closes the part that started at `st.part_start` (if any) at `end`: `None` when it is blank.
pub open spec fn close_part(s: Seq<char>, st: ChainState, end: int) -> Option<ChainState> {
    match st.part_start {
        None => Some(st),
        Some(start) => if crate::text::trimmed(s.subrange(start, end)).len() == 0 {
            None
        } else {
            Some(ChainState {
                combinators: if st.parts.len() > 0 { st.combinators.push(st.pending) } else { st.combinators },
                parts: st.parts.push((start, end)),
                pending: FastCombinator::Descendant,
                part_start: None,
                ..st
            })
        },
    }
}

/// `st` with the current part started at `i` unless one already is.
pub open spec fn start_part(st: ChainState, i: int) -> ChainState {
    ChainState { part_start: if st.part_start is Some { st.part_start } else { Some(i) }, ..st }
}

/// One step of the chain parse at `st.index`.
pub open spec fn chain_step(s: Seq<char>, st: ChainState) -> Option<ChainState> {
    let i = st.index;
    let c = s[i];
    if st.quote is Some {
        Some(ChainState { quote: if Some(c) == st.quote { None } else { st.quote }, index: i + 1, ..st })
    } else if (c == '"' || c == '\'') && st.depth > 0 {
        Some(ChainState { quote: Some(c), index: i + 1, ..start_part(st, i) })
    } else if c == '[' {
        Some(ChainState { depth: st.depth + 1, index: i + 1, ..start_part(st, i) })
    } else if c == ']' && st.depth > 0 {
        Some(ChainState { depth: (st.depth - 1) as nat, index: i + 1, ..st })
    } else if c == '>' && st.depth == 0 {
        match close_part(s, st, i) {
            None => None,
            Some(t) => if t.parts.len() == 0 || t.pending == FastCombinator::Child {
                None
            } else {
                Some(ChainState { pending: FastCombinator::Child, index: skip_ascii_ws(s, i + 1), ..t })
            },
        }
    } else if st.depth == 0 && is_ascii_ws(c) {
        match close_part(s, st, i) {
            None => None,
            Some(t) => {
                let j = skip_ascii_ws(s, i + 1);
                Some(ChainState {
                    pending: if !(j < s.len() && s[j] == '>') && t.parts.len() > 0 { FastCombinator::Descendant } else { t.pending },
                    index: j,
                    ..t
                })
            },
        }
    } else {
        Some(ChainState { index: i + 1, ..start_part(st, i) })
    }
}

/// Whether a chain cannot hold `c` (sibling combinators, lists, pseudo-classes).
pub open spec fn breaks_chain(c: char) -> bool {
    c == '+' || c == '~' || c == ',' || c == ':'
}

/// The chain parse from `st` to the end of `s`.
pub open spec fn chain_run(s: Seq<char>, st: ChainState) -> Option<ChainState>
    decreases s.len() - st.index,
{
    if st.index < 0 || st.index >= s.len() {
        Some(st)
    } else {
        match chain_step(s, st) {
            None => None,
            Some(t) => if st.index < t.index <= s.len() {
                chain_run(s, t)
            } else {
                None
            },
        }
    }
}

/// The parts and combinators of the trimmed selector `t` read as a chain of at least two
/// compound selectors joined by descendant and child combinators.
pub open spec fn chain_parts(t: Seq<char>) -> Option<(Seq<(int, int)>, Seq<FastCombinator>)> {
    let init = ChainState {
        index: 0,
        parts: Seq::empty(),
        combinators: Seq::empty(),
        pending: FastCombinator::Descendant,
        quote: None,
        depth: 0,
        part_start: None,
    };
    if t.len() == 0 || exists|i: int| 0 <= i < t.len() && breaks_chain(#[trigger] t[i]) {
        None
    } else {
        match chain_run(t, init) {
            None => None,
            Some(st) => if st.quote is Some || st.depth != 0 {
                None
            } else {
                match close_part(t, st, t.len() as int) {
                    None => None,
                    Some(fin) => if fin.parts.len() < 2 || fin.pending == FastCombinator::Child {
                        None
                    } else {
                        Some((fin.parts, fin.combinators))
                    },
                }
            },
        }
    }
}


/// A chain of compound selectors joined by descendant and child combinators.
#[derive(Clone, Debug)]
pub struct FastSelectorChain {
    pub selectors: Vec<FastSelector>,
    pub combinators: Vec<FastCombinator>,
}

/// What a chain of fast selectors holds.
pub struct ChainView {
    pub selectors: Seq<FastSelectorView>,
    pub combinators: Seq<FastCombinator>,
}

impl View for FastSelectorChain {
    type V = ChainView;

    open spec fn view(&self) -> ChainView {
        ChainView {
            selectors: self.selectors@.map_values(|f: FastSelector| f@),
            combinators: self.combinators@,
        }
    }
}

/// The compound selector that part `p` of `t` is, trimmed.
pub open spec fn part_selector(t: Seq<char>, p: (int, int)) -> Option<FastSelectorView> {
    compound_of(crate::text::trimmed(t.subrange(p.0, p.1)))
}

/// The chain that the trimmed selector `t` is, if the library matches it itself.
pub open spec fn chain_of(t: Seq<char>) -> Option<ChainView> {
    match chain_parts(t) {
        None => None,
        Some((parts, combinators)) => if forall|k: int| 0 <= k < parts.len() ==> (#[trigger] part_selector(t, parts[k])) is Some {
            Some(ChainView { selectors: parts.map_values(|p: (int, int)| part_selector(t, p)->0), combinators })
        } else {
            None
        },
    }
}

/// The characters `t[a..b]` as a vector.
pub fn range_vec(t: &Vec<char>, a: usize, b: usize) -> (r: Vec<char>)
    requires
        a <= b <= t@.len(),
    ensures
        r@ == t@.subrange(a as int, b as int),
{
    let mut r: Vec<char> = Vec::new();
    let mut i = a;
    while i < b
        invariant
            a <= i <= b <= t@.len(),
            r@ == t@.subrange(a as int, i as int),
        decreases b - i,
    {
        r.push(t[i]);
        i += 1;
        proof {
            assert(r@ =~= t@.subrange(a as int, i as int));
        }
    }
    r
}

/// The characters of `t[a..b]` without leading and trailing white space.
fn trimmed_range(t: &Vec<char>, a: usize, b: usize) -> (r: Vec<char>)
    requires
        a <= b <= t@.len(),
    ensures
        r@ == crate::text::trimmed(t@.subrange(a as int, b as int)),
{
    let sub = range_vec(t, a, b);
    let (x, y) = crate::text::trim_bounds(&sub);
    range_vec(&sub, x, y)
}

/// The ghost state of a chain parse held in its executable parts.
pub open spec fn chain_state(
    index: usize,
    parts: Seq<(usize, usize)>,
    combinators: Seq<FastCombinator>,
    pending: FastCombinator,
    quote: Option<char>,
    depth: usize,
    part_start: Option<usize>,
) -> ChainState {
    ChainState {
        index: index as int,
        parts: parts.map_values(|p: (usize, usize)| (p.0 as int, p.1 as int)),
        combinators,
        pending,
        quote,
        depth: depth as nat,
        part_start: match part_start {
            Some(x) => Some(x as int),
            None => None,
        },
    }
}

/// Closes the current part at `end`; `false` when it is blank.
fn close_part_exec(
    t: &Vec<char>,
    parts: &mut Vec<(usize, usize)>,
    combinators: &mut Vec<FastCombinator>,
    pending: &mut FastCombinator,
    part_start: &mut Option<usize>,
    index: usize,
    quote: Option<char>,
    depth: usize,
    end: usize,
) -> (ok: bool)
    requires
        end <= t@.len(),
        *old(part_start) matches Some(x) ==> x <= end,
        forall|k: int| 0 <= k < old(parts)@.len() ==> (#[trigger] old(parts)@[k]).0 <= old(parts)@[k].1 <= t@.len(),
    ensures
        ok == (close_part(t@, chain_state(index, old(parts)@, old(combinators)@, *old(pending), quote, depth, *old(part_start)), end as int) is Some),
        ok ==> close_part(t@, chain_state(index, old(parts)@, old(combinators)@, *old(pending), quote, depth, *old(part_start)), end as int)
            == Some(chain_state(index, final(parts)@, final(combinators)@, *final(pending), quote, depth, *final(part_start))),
        forall|k: int| 0 <= k < final(parts)@.len() ==> (#[trigger] final(parts)@[k]).0 <= final(parts)@[k].1 <= t@.len(),
        *final(part_start) is None || *final(part_start) == *old(part_start),
{
    let ghost before = chain_state(index, parts@, combinators@, *pending, quote, depth, *part_start);
    match *part_start {
        None => true,
        Some(start) => {
            let trimmed = trimmed_range(t, start, end);
            if trimmed.len() == 0 {
                return false;
            }
            if parts.len() > 0 {
                combinators.push(*pending);
            }
            let ghost p0 = parts@;
            parts.push((start, end));
            *pending = FastCombinator::Descendant;
            *part_start = None;
            proof {
                assert(parts@.map_values(|p: (usize, usize)| (p.0 as int, p.1 as int))
                    =~= p0.map_values(|p: (usize, usize)| (p.0 as int, p.1 as int)).push((start as int, end as int)));
            }
            true
        },
    }
}


/// The first index at or after `i` that is not ASCII white space.
fn skip_ws_from(t: &Vec<char>, i: usize) -> (r: usize)
    requires
        i <= t@.len(),
    ensures
        r == skip_ascii_ws(t@, i as int),
        i <= r <= t@.len(),
{
    let mut j = i;
    proof {
        lemma_skip_ascii_ws(t@, i as int);
    }
    while j < t.len() && ascii_ws(t[j])
        invariant
            i <= j <= t@.len(),
            skip_ascii_ws(t@, i as int) == skip_ascii_ws(t@, j as int),
        decreases t@.len() - j,
    {
        j += 1;
    }
    j
}

impl FastSelectorChain {
    /// Parses `selector` (trimmed first) as a chain of at least two compound selectors joined by
    /// descendant and child combinators.
    pub fn parse(selector: &str) -> (r: Option<FastSelectorChain>)
        ensures
            match r {
                Some(c) => chain_of(crate::text::trimmed(selector@)) == Some(c@),
                None => chain_of(crate::text::trimmed(selector@)) is None,
            },
    {
        let trimmed = crate::text::trim(selector);
        let t = chars_of(trimmed.as_str());
        Self::parse_chars(&t)
    }

    /// Parses the trimmed selector `t` as a chain of compound selectors.
    #[verifier::rlimit(50)]
    pub fn parse_chars(t: &Vec<char>) -> (r: Option<FastSelectorChain>)
        ensures
            match r {
                Some(c) => chain_of(t@) == Some(c@),
                None => chain_of(t@) is None,
            },
    {
        let len = t.len();
        if len == 0 {
            return None;
        }
        let mut k: usize = 0;
        while k < len
            invariant
                len == t@.len(),
                k <= len,
                forall|i: int| 0 <= i < k ==> !breaks_chain(#[trigger] t@[i]),
            decreases len - k,
        {
            if t[k] == '+' || t[k] == '~' || t[k] == ',' || t[k] == ':' {
                return None;
            }
            k += 1;
        }
        let mut parts: Vec<(usize, usize)> = Vec::new();
        let mut combinators: Vec<FastCombinator> = Vec::new();
        let mut pending = FastCombinator::Descendant;
        let mut quote: Option<char> = None;
        let mut depth: usize = 0;
        let mut part_start: Option<usize> = None;
        let mut index: usize = 0;
        let ghost init = chain_state(0, parts@, combinators@, pending, quote, depth, part_start);
        proof {
            assert(parts@.map_values(|p: (usize, usize)| (p.0 as int, p.1 as int)) =~= Seq::<(int, int)>::empty());
            assert(init == ChainState {
                index: 0,
                parts: Seq::empty(),
                combinators: Seq::empty(),
                pending: FastCombinator::Descendant,
                quote: None,
                depth: 0,
                part_start: None,
            });
        }
        while index < len
            invariant
                len == t@.len(),
                forall|i: int| 0 <= i < len ==> !breaks_chain(#[trigger] t@[i]),
                init == (ChainState {
                    index: 0,
                    parts: Seq::empty(),
                    combinators: Seq::empty(),
                    pending: FastCombinator::Descendant,
                    quote: None,
                    depth: 0,
                    part_start: None,
                }),
                index <= len,
                depth <= index,
                part_start matches Some(x) ==> x <= index,
                forall|m: int| 0 <= m < parts@.len() ==> (#[trigger] parts@[m]).0 <= parts@[m].1 <= t@.len(),
                chain_run(t@, init) == chain_run(t@, chain_state(index, parts@, combinators@, pending, quote, depth, part_start)),
            decreases len - index,
        {
            let ghost st = chain_state(index, parts@, combinators@, pending, quote, depth, part_start);
            let c = t[index];
            if quote.is_some() {
                if Some(c) == quote {
                    quote = None;
                }
                index += 1;
            } else if (c == '"' || c == '\'') && depth > 0 {
                quote = Some(c);
                if part_start.is_none() {
                    part_start = Some(index);
                }
                index += 1;
            } else if c == '[' {
                depth += 1;
                if part_start.is_none() {
                    part_start = Some(index);
                }
                index += 1;
            } else if c == ']' && depth > 0 {
                depth -= 1;
                index += 1;
            } else if c == '>' && depth == 0 {
                if !close_part_exec(t, &mut parts, &mut combinators, &mut pending, &mut part_start, index, quote, depth, index) {
                    proof {
                        assert(chain_step(t@, st) is None);
                    }
                    return None;
                }
                if parts.len() == 0 || pending == FastCombinator::Child {
                    proof {
                        assert(chain_step(t@, st) is None);
                    }
                    return None;
                }
                pending = FastCombinator::Child;
                index = skip_ws_from(t, index + 1);
            } else if depth == 0 && ascii_ws(c) {
                if !close_part_exec(t, &mut parts, &mut combinators, &mut pending, &mut part_start, index, quote, depth, index) {
                    proof {
                        assert(chain_step(t@, st) is None);
                    }
                    return None;
                }
                let j = skip_ws_from(t, index + 1);
                if !(j < len && t[j] == '>') && parts.len() > 0 {
                    pending = FastCombinator::Descendant;
                }
                index = j;
            } else {
                if part_start.is_none() {
                    part_start = Some(index);
                }
                index += 1;
            }
            proof {
                let nt = chain_state(index, parts@, combinators@, pending, quote, depth, part_start);
                assert(chain_step(t@, st) == Some(nt));
                assert(chain_run(t@, st) == chain_run(t@, nt));
            }
        }
        let ghost last = chain_state(index, parts@, combinators@, pending, quote, depth, part_start);
        if quote.is_some() || depth != 0 {
            return None;
        }
        if !close_part_exec(t, &mut parts, &mut combinators, &mut pending, &mut part_start, index, quote, depth, len) {
            return None;
        }
        if parts.len() < 2 || pending == FastCombinator::Child {
            return None;
        }
        let ghost gparts = parts@.map_values(|p: (usize, usize)| (p.0 as int, p.1 as int));
        proof {
            assert(chain_parts(t@) == Some((gparts, combinators@)));
        }
        let mut selectors: Vec<FastSelector> = Vec::new();
        let mut m: usize = 0;
        while m < parts.len()
            invariant
                chain_parts(t@) == Some((gparts, combinators@)),
                m <= parts@.len(),
                forall|q: int| 0 <= q < parts@.len() ==> (#[trigger] parts@[q]).0 <= parts@[q].1 <= t@.len(),
                gparts == parts@.map_values(|p: (usize, usize)| (p.0 as int, p.1 as int)),
                selectors@.len() == m,
                forall|q: int| 0 <= q < m ==> part_selector(t@, #[trigger] gparts[q]) == Some(selectors@[q]@),
            decreases parts@.len() - m,
        {
            let (a, b) = parts[m];
            let tc = trimmed_range(t, a, b);
            match FastSelector::parse_chars(&tc) {
                Some(f) => {
                    selectors.push(f);
                },
                None => {
                    proof {
                        assert(part_selector(t@, gparts[m as int]) is None);
                    }
                    return None;
                },
            }
            m += 1;
        }
        let chain = FastSelectorChain { selectors, combinators };
        proof {
            assert(forall|q: int| 0 <= q < gparts.len() ==> (#[trigger] part_selector(t@, gparts[q])) is Some);
            assert(chain@.selectors =~= gparts.map_values(|p: (int, int)| part_selector(t@, p)->0));
        }
        Some(chain)
    }
}


/// The element parent of `x`, if its parent is an element.
pub open spec fn parent_element_of(document: Document, x: NodeId) -> Option<NodeId> {
    match document.parent_of(x) {
        Some(p) => if document.is_element_at(p) { Some(p) } else { None },
        None => None,
    }
}

/// The nearest ancestor of `x` matching `f`, walking up through element parents and stopping
/// after `root`.
pub open spec fn matching_ancestor_of(document: Document, root: NodeId, x: NodeId, f: FastSelectorView) -> Option<NodeId>
    decreases document.depth@[x@ as int],
{
    match parent_element_of(document, x) {
        Some(p) => if fast_matches(document, p, f) {
            Some(p)
        } else if p == root {
            None
        } else if document.depth@[p@ as int] < document.depth@[x@ as int] {
            matching_ancestor_of(document, root, p, f)
        } else {
            None
        },
        None => None,
    }
}

/// Whether the combinators `c.combinators[..=k]` and the selectors before them hold, walking up
/// from `current`.
pub open spec fn chain_holds(document: Document, root: NodeId, c: ChainView, k: int, current: NodeId) -> bool
    decreases k + 1,
{
    if k < 0 {
        true
    } else {
        match c.combinators[k] {
            FastCombinator::Child => match parent_element_of(document, current) {
                Some(p) => fast_matches(document, p, c.selectors[k]) && chain_holds(document, root, c, k - 1, p),
                None => false,
            },
            FastCombinator::Descendant => match matching_ancestor_of(document, root, current, c.selectors[k]) {
                Some(p) => chain_holds(document, root, c, k - 1, p),
                None => false,
            },
        }
    }
}

/// Whether node `id` matches the chain `c`, ancestors searched up to `root`.
pub open spec fn chain_matches(document: Document, id: NodeId, root: NodeId, c: ChainView) -> bool {
    c.selectors.len() > 0 && fast_matches(document, id, c.selectors.last())
        && chain_holds(document, root, c, c.combinators.len() - 1, id)
}

/// The nearest ancestor of `id` that `selector` matches, walking up through element parents and
/// stopping after `root`.
pub fn matching_ancestor(document: &Document, root: NodeId, id: NodeId, selector: &FastSelector) -> (r: Option<NodeId>)
    requires
        document.wf(),
        document.valid(id),
    ensures
        r == matching_ancestor_of(*document, root, id, selector@),
        r matches Some(p) ==> document.valid(p),
{
    let mut current = id;
    loop
        invariant
            document.wf(),
            document.valid(current),
            matching_ancestor_of(*document, root, id, selector@) == matching_ancestor_of(*document, root, current, selector@),
        decreases document.depth@[current@ as int],
    {
        proof {
            document.lemma_wf_parent(current);
        }
        let parent = match document.parent_element(current) {
            Some(p) => p,
            None => {
                return None;
            },
        };
        if selector.matches(document, parent) {
            return Some(parent);
        }
        if parent == root {
            return None;
        }
        current = parent;
    }
}

impl FastSelectorChain {
    /// Whether node `id` matches the chain, ancestors searched up to `root`.
    pub fn matches(&self, document: &Document, id: NodeId, root: NodeId) -> (r: bool)
        requires
            document.wf(),
            document.valid(id),
            self.combinators@.len() < self.selectors@.len(),
        ensures
            r == chain_matches(*document, id, root, self@),
    {
        let n = self.selectors.len();
        if n == 0 {
            return false;
        }
        let last = &self.selectors[n - 1];
        proof {
            assert(self@.selectors.last() == last@);
        }
        if !last.matches(document, id) {
            return false;
        }
        let ghost c = self@;
        let mut current = id;
        let mut index = self.combinators.len();
        while index > 0
            invariant
                document.wf(),
                document.valid(current),
                c == self@,
                index <= self.combinators@.len() < self.selectors@.len(),
                chain_holds(*document, root, c, c.combinators.len() - 1, id) == chain_holds(*document, root, c, index - 1, current),
            decreases index,
        {
            let k = index - 1;
            proof {
                assert(c.selectors[k as int] == self.selectors@[k as int]@);
            }
            match self.combinators[k] {
                FastCombinator::Child => {
                    proof {
                        document.lemma_wf_parent(current);
                    }
                    let parent = match document.parent_element(current) {
                        Some(p) => p,
                        None => {
                            return false;
                        },
                    };
                    if !self.selectors[k].matches(document, parent) {
                        return false;
                    }
                    current = parent;
                },
                FastCombinator::Descendant => {
                    let parent = match matching_ancestor(document, root, current, &self.selectors[k]) {
                        Some(p) => p,
                        None => {
                            return false;
                        },
                    };
                    current = parent;
                },
            }
            index = k;
        }
        true
    }
}


/// `o` followed by `l`, cut to `limit` entries when `limit` is positive; `o` stays as it is when
/// it already holds `limit` entries.
pub open spec fn extend_capped(o: Seq<NodeId>, l: Seq<NodeId>, limit: nat) -> Seq<NodeId> {
    if limit > 0 && o.len() >= limit {
        o
    } else if limit > 0 && o.len() + l.len() > limit {
        (o + l).take(limit as int)
    } else {
        o + l
    }
}

/// `s` cut to its first `limit` entries when `limit` is positive.
pub open spec fn capped(s: Seq<NodeId>, limit: nat) -> Seq<NodeId> {
    if limit > 0 && s.len() > limit {
        s.take(limit as int)
    } else {
        s
    }
}

pub proof fn lemma_extend_capped_compose(o: Seq<NodeId>, l1: Seq<NodeId>, l2: Seq<NodeId>, limit: nat)
    ensures
        extend_capped(extend_capped(o, l1, limit), l2, limit) == extend_capped(o, l1 + l2, limit),
{
    let o1 = extend_capped(o, l1, limit);
    if limit > 0 && o.len() < limit && o.len() + l1.len() > limit {
        assert(o1.len() == limit);
        assert((o + l1).take(limit as int) =~= (o + (l1 + l2)).take(limit as int));
    } else if limit > 0 && o.len() < limit {
        assert(o1 + l2 =~= o + (l1 + l2));
        if o1.len() + l2.len() > limit {
            assert((o1 + l2).take(limit as int) =~= (o + (l1 + l2)).take(limit as int));
        }
    } else if limit == 0 {
        assert(o1 + l2 =~= o + (l1 + l2));
    }
}

/// The nodes of `s` that satisfy `keep`, in order.
pub open spec fn kept(s: Seq<NodeId>, keep: spec_fn(NodeId) -> bool) -> Seq<NodeId>
    decreases s.len(),
{
    if s.len() == 0 {
        Seq::empty()
    } else if keep(s.last()) {
        kept(s.drop_last(), keep).push(s.last())
    } else {
        kept(s.drop_last(), keep)
    }
}

/// The nodes visited from `root`, in document order, with or without `root` itself.
pub open spec fn visited(document: Document, root: NodeId, include_root: bool) -> Seq<NodeId> {
    if include_root {
        document.subtree_nodes(root)
    } else {
        document.subtree_nodes(root).drop_first()
    }
}

/// A fast selector or chain, as the traversal matches it.
pub enum FastQuery<'a> {
    Simple(&'a FastSelector),
    Chain(&'a FastSelectorChain),
    Find(&'a crate::search::FindFilters),
}

/// Whether the query matches node `x` (chains search ancestors up to `root`).
pub open spec fn query_matches(document: Document, root: NodeId, q: FastQuery, x: NodeId) -> bool {
    match q {
        FastQuery::Simple(f) => fast_matches(document, x, f@),
        FastQuery::Chain(c) => chain_matches(document, x, root, c@),
        FastQuery::Find(f) => crate::search::filters_match(document, x, f@),
    }
}

/// The nodes from `root` (in document order) that `q` matches, the first `limit` of them when
/// `limit` is positive.
#[verifier::rlimit(40)]
pub fn select_traversal(document: &Document, root: NodeId, include_root: bool, q: FastQuery, limit: usize) -> (out: Vec<NodeId>)
    requires
        document.wf(),
        document.valid(root),
        q matches FastQuery::Chain(c) ==> c.combinators@.len() < c.selectors@.len(),
    ensures
        out@ == capped(kept(visited(*document, root, include_root), |x: NodeId| query_matches(*document, root, q, x)), limit as nat),
{
    let ghost keep = |x: NodeId| query_matches(*document, root, q, x);
    let ghost p = document.subtree_nodes(root);
    let ghost start: int = if include_root { 0 } else { 1 };
    proof {
        document.lemma_traversal_start(root);
        document.lemma_subtree_valid(root);
    }
    let mut out: Vec<NodeId> = Vec::new();
    let mut count: usize = 0;
    let mut current = if include_root { Some(root) } else { document.nodes[root.index()].first_child };
    let ghost mut k: int = start;
    proof {
        assert(p.subrange(start, k) =~= Seq::<NodeId>::empty());
    }
    while current.is_some()
        invariant_except_break
            current == (if k < p.len() { Some(p[k]) } else { None::<NodeId> }),
        invariant
            document.wf(),
            document.valid(root),
            keep == (|x: NodeId| query_matches(*document, root, q, x)),
            q matches FastQuery::Chain(c) ==> c.combinators@.len() < c.selectors@.len(),
            p == document.subtree_nodes(root),
            forall|i: int| 0 <= i < p.len() ==> document.valid(#[trigger] p[i]),
            start == (if include_root { 0int } else { 1int }),
            start <= k <= p.len(),
            out@ == extend_capped(Seq::empty(), kept(p.subrange(start, k), keep), limit as nat),
            count == out@.len(),
            current matches Some(c) ==> document.placed(root, c) && document.order_pos(root, c) == k,
        ensures
            limit > 0 && count >= limit || k == p.len(),
        decreases p.len() - k,
    {
        let id = current.unwrap();
        let hit = match q {
            FastQuery::Simple(f) => f.matches(document, id),
            FastQuery::Chain(c) => c.matches(document, id, root),
            FastQuery::Find(f) => crate::search::fast_matches(document, id, f),
        };
        proof {
            assert(keep(id) == hit);
            assert(p.subrange(start, k + 1).drop_last() =~= p.subrange(start, k));
            assert(p.subrange(start, k + 1).last() == id);
            lemma_extend_capped_compose(Seq::empty(), kept(p.subrange(start, k), keep), if hit { seq![id] } else { Seq::empty() }, limit as nat);
            if hit {
                assert(kept(p.subrange(start, k + 1), keep) =~= kept(p.subrange(start, k), keep) + seq![id]);
            } else {
                assert(kept(p.subrange(start, k + 1), keep) =~= kept(p.subrange(start, k), keep) + Seq::<NodeId>::empty());
            }
        }
        if hit {
            if limit == 0 || count < limit {
                out.push(id);
                count = out.len();
            }
        }
        current = document.next_in_subtree(root, id);
        proof {
            k = k + 1;
        }
        if limit > 0 && count >= limit {
            break;
        }
    }
    proof {
        lemma_kept_split(p.subrange(start, p.len() as int), keep, k - start);
        assert(p.subrange(start, p.len() as int).take(k - start) =~= p.subrange(start, k));
        lemma_extend_capped_compose(Seq::empty(), kept(p.subrange(start, k), keep), kept(p.subrange(start, p.len() as int).skip(k - start), keep), limit as nat);
        if include_root {
            assert(p.subrange(start, p.len() as int) =~= p);
        } else {
            assert(p.subrange(start, p.len() as int) =~= p.drop_first());
        }
        let all = kept(visited(*document, root, include_root), keep);
        assert(extend_capped(Seq::empty(), all, limit as nat) == capped(all, limit as nat)) by {
            assert(Seq::<NodeId>::empty() + all =~= all);
        }
    }
    out
}

/// What a sequence keeps splits at any point.
pub proof fn lemma_kept_split(s: Seq<NodeId>, keep: spec_fn(NodeId) -> bool, i: int)
    requires
        0 <= i <= s.len(),
    ensures
        kept(s, keep) == kept(s.take(i), keep) + kept(s.skip(i), keep),
    decreases s.len() - i,
{
    if i < s.len() {
        lemma_kept_split(s, keep, i + 1);
        let a = s.take(i + 1);
        assert(a.drop_last() =~= s.take(i));
        assert(a.last() == s[i]);
        let b = s.skip(i);
        lemma_kept_front(b, keep);
        assert(b.drop_first() =~= s.skip(i + 1));
        assert(b[0] == s[i]);
    } else {
        assert(s.take(i) =~= s);
        assert(s.skip(i) =~= Seq::<NodeId>::empty());
    }
}

/// What a sequence keeps, taken from its front.
pub proof fn lemma_kept_front(s: Seq<NodeId>, keep: spec_fn(NodeId) -> bool)
    requires
        s.len() > 0,
    ensures
        kept(s, keep) == (if keep(s[0]) { seq![s[0]] } else { Seq::empty() }) + kept(s.drop_first(), keep),
    decreases s.len(),
{
    if s.len() == 1 {
        assert(s.drop_last() =~= Seq::<NodeId>::empty());
        assert(s.drop_first() =~= Seq::<NodeId>::empty());
    } else {
        lemma_kept_front(s.drop_last(), keep);
        assert(s.drop_last().drop_first() =~= s.drop_first().drop_last());
        assert(s.drop_last()[0] == s[0]);
        assert(s.drop_first().last() == s.last());
    }
}


/// What a sequence of two parts keeps is what each part keeps, one after the other.
pub proof fn lemma_kept_concat(a: Seq<NodeId>, b: Seq<NodeId>, keep: spec_fn(NodeId) -> bool)
    ensures
        kept(a + b, keep) == kept(a, keep) + kept(b, keep),
{
    lemma_kept_split(a + b, keep, a.len() as int);
    assert((a + b).take(a.len() as int) =~= a);
    assert((a + b).skip(a.len() as int) =~= b);
}

/// Whether `y` is selected by an ancestor and target pair searched from `root`: `target`
/// matches it and an ancestor does `ancestor`, as the generic chain match finds it.
pub open spec fn pair_matches(document: Document, root: NodeId, ancestor: FastSelectorView, target: FastSelectorView, y: NodeId) -> bool {
    fast_matches(document, y, target) && matching_ancestor_of(document, root, y, ancestor) is Some
}

/// Whether each node below `root` that has children is an element.
pub open spec fn inner_nodes_elements(document: Document, root: NodeId) -> bool {
    forall|y: NodeId| document.valid(y) && #[trigger] document.in_subtree(y, root) && y != root && document.children(y).len() > 0
        ==> document.is_element_at(y)
}

proof fn lemma_child_flag(document: Document, root: NodeId, ancestor: FastSelectorView, x: NodeId, flag: bool, c: NodeId)
    requires
        document.wf(),
        document.valid(x),
        document.in_subtree(x, root),
        inner_nodes_elements(document, root),
        if x == root { !flag } else { flag == (matching_ancestor_of(document, root, x, ancestor) is Some) },
        document.children(x).contains(c),
    ensures
        (matching_ancestor_of(document, root, c, ancestor) is Some)
            == (if document.is_element_at(x) { flag || fast_matches(document, x, ancestor) } else { flag }),
{
    document.lemma_children(x);
    document.lemma_wf_parent(c);
    assert(document.parent_of(c) == Some(x));
    if x != root {
        assert(document.children(x).len() > 0);
        assert(document.is_element_at(x));
    }
}

pub(crate) proof fn lemma_pair_tree(document: Document, root: NodeId, ancestor: FastSelectorView, target: FastSelectorView, x: NodeId, flag: bool)
    requires
        document.wf(),
        document.valid(x),
        document.in_subtree(x, root),
        inner_nodes_elements(document, root),
        flag == (matching_ancestor_of(document, root, x, ancestor) is Some),
        x == root ==> !flag,
    ensures
        document.pair_list(ancestor, target, x, flag)
            == kept(document.subtree_nodes(x), |y: NodeId| pair_matches(document, root, ancestor, target, y)),
    decreases document.bound@ - document.depth@[x@ as int], 1int, 0int,
{
    let keep = |y: NodeId| pair_matches(document, root, ancestor, target, y);
    document.lemma_subtree_unfold(x);
    document.lemma_wf_basic();
    document.lemma_forest_end(x);
    let d = document.depth@[x@ as int] as int;
    let f = document.forest_nodes(document.kids@[x@ as int], 0, d);
    assert(document.subtree_nodes(x).drop_first() =~= f);
    lemma_kept_front(document.subtree_nodes(x), keep);
    let child_flag = if document.is_element_at(x) { flag || fast_matches(document, x, ancestor) } else { flag };
    lemma_pair_forest(document, root, ancestor, target, x, 0, child_flag, flag);
}

pub(crate) proof fn lemma_pair_forest(document: Document, root: NodeId, ancestor: FastSelectorView, target: FastSelectorView, x: NodeId, i: int, child_flag: bool, flag: bool)
    requires
        document.wf(),
        document.valid(x),
        document.in_subtree(x, root),
        inner_nodes_elements(document, root),
        if x == root { !flag } else { flag == (matching_ancestor_of(document, root, x, ancestor) is Some) },
        child_flag == (if document.is_element_at(x) { flag || fast_matches(document, x, ancestor) } else { flag }),
        0 <= i <= document.children(x).len(),
    ensures
        document.forest_pair(ancestor, target, document.children(x), i, document.depth@[x@ as int] as int, child_flag)
            == kept(document.forest_nodes(document.kids@[x@ as int], i, document.depth@[x@ as int] as int),
                |y: NodeId| pair_matches(document, root, ancestor, target, y)),
    decreases document.bound@ - document.depth@[x@ as int], 0int, document.children(x).len() - i,
{
    let keep = |y: NodeId| pair_matches(document, root, ancestor, target, y);
    let d = document.depth@[x@ as int] as int;
    document.lemma_forest_end(x);
    let s = document.children(x);
    if i < s.len() {
        let c = s[i];
        document.lemma_forest_step(x, i);
        document.lemma_wf_child(x, i);
        document.lemma_children(x);
        assert(s.contains(c));
        lemma_child_flag(document, root, ancestor, x, flag, c);
        document.lemma_in_subtree_step(c, root);
        assert(document.in_subtree(c, root)) by {
            document.lemma_in_subtree_refl(root);
            if c == root {
                document.lemma_in_subtree_depth(x, root);
            }
        }
        document.lemma_in_subtree_depth(x, root);
        assert(c != root);
        lemma_pair_tree(document, root, ancestor, target, c, child_flag);
        lemma_pair_forest(document, root, ancestor, target, x, i + 1, child_flag, flag);
        lemma_kept_concat(document.subtree_nodes(c), document.forest_nodes(document.kids@[x@ as int], i + 1, d), keep);
    }
}

impl Document {
    /// The elements of the subtree of `x` that `target` matches and that have an ancestor matching
    /// `anc` at or below the start of the search; `flag` says whether `x` already has one.
    pub open spec fn pair_list(self, anc: FastSelectorView, target: FastSelectorView, x: NodeId, flag: bool) -> Seq<NodeId>
        decreases self.bound@ - self.depth@[x@ as int], 0int,
    {
        let el = self.is_element_at(x);
        let here = if el && flag && fast_matches(self, x, target) { seq![x] } else { Seq::empty() };
        let child_flag = if el { flag || fast_matches(self, x, anc) } else { flag };
        if self.valid(x) && self.depth@[x@ as int] < self.bound@ {
            here + self.forest_pair(anc, target, self.children(x), 0, self.depth@[x@ as int] as int, child_flag)
        } else {
            here
        }
    }

    /// `pair_list` over the subtrees of `s[i..]`, whose parent has depth `d`.
    pub open spec fn forest_pair(self, anc: FastSelectorView, target: FastSelectorView, s: Seq<NodeId>, i: int, d: int, flag: bool) -> Seq<NodeId>
        decreases self.bound@ - d - 1, s.len() - i + 1,
    {
        if i < 0 || i >= s.len() {
            Seq::empty()
        } else if self.valid(s[i]) && self.depth@[s[i]@ as int] == d + 1 && d + 1 < self.bound@ {
            self.pair_list(anc, target, s[i], flag) + self.forest_pair(anc, target, s, i + 1, d, flag)
        } else {
            self.forest_pair(anc, target, s, i + 1, d, flag)
        }
    }

    /// Appends, up to `limit`, the nodes of `pair_list` for `x`.
    fn pair_into(&self, anc: &FastSelector, target: &FastSelector, x: NodeId, flag: bool, limit: usize, out: &mut Vec<NodeId>)
        requires
            self.wf(),
            self.valid(x),
        ensures
            final(out)@ == extend_capped(old(out)@, self.pair_list(anc@, target@, x, flag), limit as nat),
        decreases self.bound@ - self.depth@[x@ as int], 1int,
    {
        let ghost l = self.pair_list(anc@, target@, x, flag);
        if limit > 0 && out.len() >= limit {
            return;
        }
        proof {
            self.lemma_wf_basic();
        }
        let el = self.is_element(x);
        let ghost o = out@;
        let here = el && flag && target.matches(self, x);
        if here {
            out.push(x);
        }
        let ghost here_seq = if here { seq![x] } else { Seq::<NodeId>::empty() };
        proof {
            assert(out@ == extend_capped(o, here_seq, limit as nat)) by {
                if here {
                    assert(out@ =~= o + seq![x]);
                } else {
                    assert(out@ =~= o + Seq::<NodeId>::empty());
                }
            }
        }
        let child_flag = if el { flag || anc.matches(self, x) } else { flag };
        let ghost f = self.forest_pair(anc@, target@, self.children(x), 0, self.depth@[x@ as int] as int, child_flag);
        self.forest_pair_into(anc, target, x, child_flag, limit, out);
        proof {
            assert(l == here_seq + f);
            lemma_extend_capped_compose(o, here_seq, f, limit as nat);
        }
    }

    /// Appends, up to `limit`, the nodes of `forest_pair` for the children of `x`.
    fn forest_pair_into(&self, anc: &FastSelector, target: &FastSelector, x: NodeId, flag: bool, limit: usize, out: &mut Vec<NodeId>)
        requires
            self.wf(),
            self.valid(x),
        ensures
            final(out)@ == extend_capped(old(out)@, self.forest_pair(anc@, target@, self.children(x), 0, self.depth@[x@ as int] as int, flag), limit as nat),
        decreases self.bound@ - self.depth@[x@ as int], 0int,
    {
        let children = self.child_nodes(x);
        let ghost s = children@;
        let ghost d = self.depth@[x@ as int] as int;
        let ghost o = out@;
        let mut i: usize = 0;
        while i < children.len()
            invariant
                self.wf(),
                self.valid(x),
                s == children@,
                s == self.children(x),
                d == self.depth@[x@ as int],
                i <= s.len(),
                extend_capped(out@, self.forest_pair(anc@, target@, s, i as int, d, flag), limit as nat)
                    == extend_capped(o, self.forest_pair(anc@, target@, s, 0, d, flag), limit as nat),
            decreases s.len() - i,
        {
            let child = children[i];
            proof {
                self.lemma_wf_child(x, i as int);
            }
            let ghost before = out@;
            self.pair_into(anc, target, child, flag, limit, out);
            proof {
                lemma_extend_capped_compose(
                    before,
                    self.pair_list(anc@, target@, child, flag),
                    self.forest_pair(anc@, target@, s, i as int + 1, d, flag),
                    limit as nat,
                );
            }
            i += 1;
        }
        proof {
            let fe = self.forest_pair(anc@, target@, s, s.len() as int, d, flag);
            assert(fe == Seq::<NodeId>::empty());
            assert(out@ + fe =~= out@);
        }
    }
}

/// The elements from `root` that `target` matches and that have an ancestor, at or below
/// `root`, that `ancestor` matches; the first `limit` of them when `limit` is positive.
pub fn select_descendant_pair(
    document: &Document,
    root: NodeId,
    include_root: bool,
    ancestor: &FastSelector,
    target: &FastSelector,
    limit: usize,
) -> (out: Vec<NodeId>)
    requires
        document.wf(),
        document.valid(root),
    ensures
        out@ == capped(
            if include_root {
                document.pair_list(ancestor@, target@, root, false)
            } else {
                document.forest_pair(ancestor@, target@, document.children(root), 0, document.depth@[root@ as int] as int, fast_matches(*document, root, ancestor@))
            },
            limit as nat,
        ),
{
    let mut out: Vec<NodeId> = Vec::new();
    if include_root {
        document.pair_into(ancestor, target, root, false, limit, &mut out);
    } else {
        let root_matches = ancestor.matches(document, root);
        document.forest_pair_into(ancestor, target, root, root_matches, limit, &mut out);
    }
    proof {
        let l = if include_root {
            document.pair_list(ancestor@, target@, root, false)
        } else {
            document.forest_pair(ancestor@, target@, document.children(root), 0, document.depth@[root@ as int] as int, fast_matches(*document, root, ancestor@))
        };
        assert(Seq::<NodeId>::empty() + l =~= l);
    }
    out
}


impl FastSelector {
    /// The nodes from `root` (in document order) that this selector matches, the first `limit`
    /// of them when `limit` is positive.
    pub fn select_into(&self, document: &Document, root: NodeId, include_root: bool, limit: usize) -> (out: Vec<NodeId>)
        requires
            document.wf(),
            document.valid(root),
        ensures
            out@ == capped(kept(visited(*document, root, include_root), |x: NodeId| fast_matches(*document, x, self@)), limit as nat),
    {
        let out = select_traversal(document, root, include_root, FastQuery::Simple(self), limit);
        proof {
            assert((|x: NodeId| query_matches(*document, root, FastQuery::Simple(self), x)) =~= (|x: NodeId| fast_matches(*document, x, self@)));
        }
        out
    }
}

/// The nodes that a chain selects from `root`: a descendant pair by ancestor flags, any other
/// chain by matching each node.
pub open spec fn chain_selection(document: Document, root: NodeId, include_root: bool, c: ChainView, limit: nat) -> Seq<NodeId> {
    if c.selectors.len() == 2 && c.combinators == seq![FastCombinator::Descendant] {
        capped(
            if include_root {
                document.pair_list(c.selectors[0], c.selectors[1], root, false)
            } else {
                document.forest_pair(c.selectors[0], c.selectors[1], document.children(root), 0, document.depth@[root@ as int] as int, fast_matches(document, root, c.selectors[0]))
            },
            limit,
        )
    } else {
        capped(kept(visited(document, root, include_root), |x: NodeId| chain_matches(document, x, root, c)), limit)
    }
}

impl FastSelectorChain {
    /// The nodes from `root` (in document order) that this chain matches, the first `limit` of
    /// them when `limit` is positive.
    pub fn select_into(&self, document: &Document, root: NodeId, include_root: bool, limit: usize) -> (out: Vec<NodeId>)
        requires
            document.wf(),
            document.valid(root),
            self.combinators@.len() < self.selectors@.len(),
        ensures
            out@ == chain_selection(*document, root, include_root, self@, limit as nat),
    {
        if self.selectors.len() == 2 && self.combinators.len() == 1 && self.combinators[0] == FastCombinator::Descendant {
            proof {
                assert(self@.combinators =~= seq![FastCombinator::Descendant]);
                assert(self@.selectors[0] == self.selectors@[0]@);
                assert(self@.selectors[1] == self.selectors@[1]@);
            }
            return select_descendant_pair(document, root, include_root, &self.selectors[0], &self.selectors[1], limit);
        }
        let out = select_traversal(document, root, include_root, FastQuery::Chain(self), limit);
        proof {
            assert((|x: NodeId| query_matches(*document, root, FastQuery::Chain(self), x)) =~= (|x: NodeId| chain_matches(*document, x, root, self@)));
            if self@.selectors.len() == 2 && self@.combinators == seq![FastCombinator::Descendant] {
                assert(self@.combinators[0] == FastCombinator::Descendant);
            }
        }
        out
    }
}

/// What the library selects itself from `root` for `selector`: `None` when the selector is
/// neither a compound selector nor a chain that it matches itself.
pub open spec fn fast_selection(document: Document, root: NodeId, include_root: bool, selector: Seq<char>, limit: nat) -> Option<Seq<NodeId>> {
    let t = crate::text::trimmed(selector);
    match compound_of(t) {
        Some(f) => Some(capped(kept(visited(document, root, include_root), |x: NodeId| fast_matches(document, x, f)), limit)),
        None => match chain_of(t) {
            Some(c) => if c.combinators.len() < c.selectors.len() {
                Some(chain_selection(document, root, include_root, c, limit))
            } else {
                None
            },
            None => None,
        },
    }
}

/// Selects from `root` for `selector` when the library matches the selector itself.
pub fn select_fast(document: &Document, root: NodeId, include_root: bool, selector: &str, limit: usize) -> (r: Option<Vec<NodeId>>)
    requires
        document.wf(),
        document.valid(root),
    ensures
        match r {
            Some(v) => fast_selection(*document, root, include_root, selector@, limit as nat) == Some(v@),
            None => fast_selection(*document, root, include_root, selector@, limit as nat) is None,
        },
{
    if let Some(simple) = FastSelector::parse(selector) {
        return Some(simple.select_into(document, root, include_root, limit));
    }
    if let Some(chain) = FastSelectorChain::parse(selector) {
        if chain.combinators.len() < chain.selectors.len() {
            return Some(chain.select_into(document, root, include_root, limit));
        }
    }
    None
}


/// How a selector is matched: by the library itself, or compiled, with the filters that the
/// library applies afterwards.
pub enum Selection {
    Simple(FastSelector),
    Chain(FastSelectorChain),
    Compiled(CompiledPlan),
}

/// A selector to compile and the filters to apply to what it matches.
pub struct CompiledPlan {
    pub selector: String,
    pub contains: Option<crate::pseudo::ContainsFilter>,
    pub has: Option<crate::pseudo::HasFilter>,
    pub not_has: Option<crate::pseudo::NotHasFilter>,
}

/// What a compiled plan holds.
pub struct PlanView {
    pub selector: Seq<char>,
    pub contains: Option<(Seq<char>, Seq<Seq<char>>)>,
    pub has: Option<(Seq<char>, Seq<char>)>,
    pub not_has: Option<(Seq<char>, Seq<char>)>,
}

/// What a selection holds.
pub enum SelectionView {
    Simple(FastSelectorView),
    Chain(ChainView),
    Compiled(PlanView),
}

impl View for CompiledPlan {
    type V = PlanView;

    open spec fn view(&self) -> PlanView {
        PlanView {
            selector: self.selector@,
            contains: match self.contains {
                Some(f) => Some((f.selector@, f.needles@.map_values(|v: String| v@))),
                None => None,
            },
            has: match self.has {
                Some(f) => Some((f.selector@, f.inner_selector@)),
                None => None,
            },
            not_has: match self.not_has {
                Some(f) => Some((f.selector@, f.inner_selector@)),
                None => None,
            },
        }
    }
}

impl View for Selection {
    type V = SelectionView;

    open spec fn view(&self) -> SelectionView {
        match self {
            Selection::Simple(f) => SelectionView::Simple(f@),
            Selection::Chain(c) => SelectionView::Chain(c@),
            Selection::Compiled(p) => SelectionView::Compiled(p@),
        }
    }
}

/// The filters taken out of the expanded selector `e` and what is left to compile; `None` when
/// refused.
pub open spec fn compiled_plan_of(e: Seq<char>) -> Option<PlanView> {
    match crate::pseudo::not_has_filter_of(e) {
        None => None,
        Some(nh) => {
            let after_not_has = match nh { Some((sel, _)) => sel, None => e };
            match crate::pseudo::has_filter_of(after_not_has) {
                None => None,
                Some(h) => {
                    let after_has = match h { Some((sel, _)) => sel, None => after_not_has };
                    match crate::pseudo::contains_filter_of(after_has) {
                        None => None,
                        Some(c) => Some(PlanView {
                            selector: match c { Some((sel, _)) => sel, None => after_has },
                            contains: c,
                            has: h,
                            not_has: nh,
                        }),
                    }
                },
            }
        },
    }
}

/// How `s` is matched: aliases expanded, then as a compound selector or a chain the library
/// matches itself, or else compiled with filters; `None` when the selector is refused.
pub open spec fn selection_of(s: Seq<char>) -> Option<SelectionView> {
    match crate::pseudo::expanded_selector(s) {
        None => None,
        Some(e) => match compound_of(crate::text::trimmed(e)) {
            Some(f) => Some(SelectionView::Simple(f)),
            None => match chain_of(crate::text::trimmed(e)) {
                Some(c) => Some(SelectionView::Chain(c)),
                None => match compiled_plan_of(e) {
                    Some(p) => Some(SelectionView::Compiled(p)),
                    None => None,
                },
            },
        },
    }
}

/// Decides how `selector` is matched; refused when it is malformed.
pub fn prepare_selection(selector: &str) -> (r: Result<Selection, ()>)
    ensures
        match r {
            Ok(sel) => selection_of(selector@) == Some(sel@),
            Err(()) => selection_of(selector@) is None,
        },
{
    let expanded = match crate::pseudo::expand_selector_aliases(selector) {
        Ok(e) => e,
        Err(()) => {
            return Err(());
        },
    };
    if let Some(simple) = FastSelector::parse(expanded.as_str()) {
        return Ok(Selection::Simple(simple));
    }
    if let Some(chain) = FastSelectorChain::parse(expanded.as_str()) {
        return Ok(Selection::Chain(chain));
    }
    let not_has = match crate::pseudo::extract_not_has_filter(expanded.as_str()) {
        Ok(f) => f,
        Err(()) => {
            return Err(());
        },
    };
    let after_not_has = match &not_has {
        Some(f) => f.selector.clone(),
        None => expanded.clone(),
    };
    let has = match crate::pseudo::extract_has_filter(after_not_has.as_str()) {
        Ok(f) => f,
        Err(()) => {
            return Err(());
        },
    };
    let after_has = match &has {
        Some(f) => f.selector.clone(),
        None => after_not_has.clone(),
    };
    let contains = match crate::pseudo::extract_contains_filter(after_has.as_str()) {
        Ok(f) => f,
        Err(()) => {
            return Err(());
        },
    };
    let to_compile = match &contains {
        Some(f) => f.selector.clone(),
        None => after_has.clone(),
    };
    Ok(Selection::Compiled(CompiledPlan { selector: to_compile, contains, has, not_has }))
}


/// The nodes of `order` whose outcome in `admitted` (by position) is true, in order.
pub open spec fn admitted_nodes(order: Seq<NodeId>, admitted: Seq<bool>) -> Seq<NodeId>
    decreases order.len(),
{
    if order.len() == 0 {
        Seq::empty()
    } else {
        let rest = admitted_nodes(order.drop_last(), admitted);
        if admitted[order.len() - 1] {
            rest.push(order.last())
        } else {
            rest
        }
    }
}

/// Admitting more positions only adds nodes at the end.
proof fn lemma_admitted_prefix(order: Seq<NodeId>, admitted: Seq<bool>, i: int, j: int)
    requires
        0 <= i <= j <= order.len(),
    ensures
        admitted_nodes(order.take(i), admitted).len() <= admitted_nodes(order.take(j), admitted).len(),
        admitted_nodes(order.take(j), admitted).take(admitted_nodes(order.take(i), admitted).len() as int)
            == admitted_nodes(order.take(i), admitted),
    decreases j - i,
{
    let a = admitted_nodes(order.take(i), admitted);
    if i < j {
        lemma_admitted_prefix(order, admitted, i, j - 1);
        assert(order.take(j).drop_last() =~= order.take(j - 1));
        let b = admitted_nodes(order.take(j - 1), admitted);
        assert(b.push(order[j - 1]).take(a.len() as int) =~= b.take(a.len() as int));
    } else {
        assert(a.take(a.len() as int) =~= a);
    }
}

/// A node of `order` that occurs there once is selected just when its own outcome admits it.
pub proof fn lemma_selected_iff_admitted(order: Seq<NodeId>, admitted: Seq<bool>, k: int)
    requires
        0 <= k < order.len(),
        order.no_duplicates(),
    ensures
        admitted_nodes(order, admitted).contains(order[k]) == admitted[k],
    decreases order.len(),
{
    let n = order.len() - 1;
    let d = order.drop_last();
    if k < n {
        assert(d[k] == order[k]);
        lemma_selected_iff_admitted(d, admitted, k);
        if admitted[n] {
            assert(order[n] != order[k]);
            let r = admitted_nodes(d, admitted);
            if r.contains(order[k]) {
                let m = choose|m: int| 0 <= m < r.len() && r[m] == order[k];
                assert(r.push(order[n])[m] == order[k]);
            }
        }
    } else {
        lemma_admitted_subset(d, admitted);
        if admitted[n] {
            let r = admitted_nodes(d, admitted);
            assert(r.push(order[n])[r.len() as int] == order[n]);
        } else {
            assert forall|x: NodeId| admitted_nodes(d, admitted).contains(x) implies x != order[n] by {
                let m = choose|m: int| 0 <= m < admitted_nodes(d, admitted).len() && admitted_nodes(d, admitted)[m] == x;
                assert(d.contains(admitted_nodes(d, admitted)[m]));
                let p = choose|p: int| 0 <= p < d.len() && d[p] == x;
                assert(d[p] == order[p]);
            }
        }
    }
}

/// Every selected node is one of `order`.
proof fn lemma_admitted_subset(order: Seq<NodeId>, admitted: Seq<bool>)
    ensures
        forall|m: int| 0 <= m < admitted_nodes(order, admitted).len() ==> order.contains(#[trigger] admitted_nodes(order, admitted)[m]),
    decreases order.len(),
{
    if order.len() > 0 {
        let d = order.drop_last();
        lemma_admitted_subset(d, admitted);
        let r = admitted_nodes(d, admitted);
        assert forall|m: int| 0 <= m < admitted_nodes(order, admitted).len() implies order.contains(#[trigger] admitted_nodes(order, admitted)[m]) by {
            if m < r.len() {
                assert(admitted_nodes(order, admitted)[m] == r[m]);
                assert(d.contains(r[m]));
                let p = choose|p: int| 0 <= p < d.len() && d[p] == r[m];
                assert(order[p] == d[p]);
            } else {
                assert(order[order.len() - 1] == admitted_nodes(order, admitted)[m]);
            }
        }
    }
}

/// One step of a selection that decides node by node: an admitted `id` joins `found`; the
/// answer says whether to go on, which is no longer once a positive `limit` is reached.
pub fn selection_step(found: &mut Vec<NodeId>, id: NodeId, admitted: bool, limit: usize) -> (go_on: bool)
    ensures
        final(found)@ == (if admitted { old(found)@.push(id) } else { old(found)@ }),
        go_on == !(limit > 0 && final(found)@.len() >= limit),
{
    if admitted {
        found.push(id);
    }
    !(limit > 0 && found.len() >= limit)
}

/// The nodes of `order` that their outcomes admit, in order, the first `limit` of them when
/// `limit` is positive.
pub fn select_by_outcomes(order: &Vec<NodeId>, admitted: &Vec<bool>, limit: usize) -> (out: Vec<NodeId>)
    requires
        admitted@.len() == order@.len(),
    ensures
        out@ == capped(admitted_nodes(order@, admitted@), limit as nat),
{
    let mut out: Vec<NodeId> = Vec::new();
    let mut i: usize = 0;
    proof {
        assert(order@.take(0) =~= Seq::<NodeId>::empty());
    }
    while i < order.len()
        invariant
            i <= order@.len(),
            admitted@.len() == order@.len(),
            out@ == admitted_nodes(order@.take(i as int), admitted@),
            limit == 0 || out@.len() < limit,
        decreases order@.len() - i,
    {
        proof {
            assert(order@.take(i as int + 1).drop_last() =~= order@.take(i as int));
        }
        let go_on = selection_step(&mut out, order[i], admitted[i], limit);
        i += 1;
        if !go_on {
            proof {
                lemma_admitted_prefix(order@, admitted@, i as int, order@.len() as int);
                assert(order@.take(order@.len() as int) =~= order@);
            }
            return out;
        }
    }
    proof {
        assert(order@.take(order@.len() as int) =~= order@);
    }
    out
}

} // verus!
