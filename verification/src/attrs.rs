use vstd::prelude::*;
use crate::element::value_view;
use crate::dom::Attr;

verus! {

impl Attr {
    /// An attribute named `name` with the value `value`.
    pub fn new(name: String, value: String) -> (attr: Attr)
        ensures
            attr.name == name,
            attr.value == Some(value),
    {
        Attr { name, value: Some(value) }
    }

    /// An attribute named `name` with an optional value.
    pub fn with_optional_dynamic_name(name: &str, value: Option<String>) -> (attr: Attr)
        ensures
            attr.name@ == name@,
            attr.value == value,
    {
        Attr { name: name.to_owned(), value }
    }

    /// The attribute's name.
    pub fn name(&self) -> (name: &str)
        ensures
            name@ == self.name@,
    {
        self.name.as_str()
    }

    /// The attribute's namespace: attributes here carry none.
    pub fn namespace(&self) -> (namespace: &str)
        ensures
            namespace@ == Seq::<char>::empty(),
    {
        proof {
            reveal_strlit("");
        }
        ""
    }
}

/// Whether no attribute after position `i` has the name of the one at `i`.
pub open spec fn is_last_of_name(s: Seq<Attr>, i: int) -> bool {
    forall|j: int| i < j < s.len() ==> #[trigger] s[j].name@ != s[i].name@
}

/// The attributes among `s[..i]` that no later attribute of `s` shares a name with, in order.
pub open spec fn last_wins_upto(s: Seq<Attr>, i: int) -> Seq<Attr>
    decreases i,
{
    if i <= 0 || i > s.len() {
        Seq::empty()
    } else if is_last_of_name(s, i - 1) {
        last_wins_upto(s, i - 1).push(s[i - 1])
    } else {
        last_wins_upto(s, i - 1)
    }
}

/// Keeps, of the attributes that share a name, the last one; the kept ones stay in order.
pub fn dedupe_attrs_last_wins(attrs: Vec<Attr>) -> (out: Vec<Attr>)
    ensures
        out@ == last_wins_upto(attrs@, attrs@.len() as int),
{
    let n = attrs.len();
    let mut keep: Vec<bool> = Vec::new();
    let mut i: usize = 0;
    while i < n
        invariant
            n == attrs@.len(),
            i <= n,
            keep@.len() == i,
            forall|k: int| 0 <= k < i ==> #[trigger] keep@[k] == is_last_of_name(attrs@, k),
        decreases n - i,
    {
        let mut j: usize = i + 1;
        let mut last = true;
        while j < n
            invariant
                n == attrs@.len(),
                i < j <= n,
                last == forall|m: int| i < m < j ==> #[trigger] attrs@[m].name@ != attrs@[i as int].name@,
            decreases n - j,
        {
            if attrs[j].name == attrs[i].name {
                last = false;
            }
            j += 1;
        }
        keep.push(last);
        i += 1;
    }
    let mut out: Vec<Attr> = Vec::new();
    let ghost s = attrs@;
    let mut k: usize = 0;
    for attr in it: attrs.into_iter()
        invariant
            it.seq() == s,
            n == s.len(),
            k == it.index(),
            keep@.len() == s.len(),
            forall|m: int| 0 <= m < s.len() ==> #[trigger] keep@[m] == is_last_of_name(s, m),
            out@ == last_wins_upto(s, k as int),
    {
        if keep[k] {
            out.push(attr);
        }
        k += 1;
    }
    out
}

/// A copy of `a`.
pub(crate) fn copy_attr(a: &Attr) -> (r: Attr)
    ensures
        r == *a,
{
    let value = match &a.value {
        Some(v) => Some(v.clone()),
        None => None,
    };
    Attr { name: a.name.clone(), value }
}

/// An attribute as a name and its value.
pub open spec fn attr_entry(a: Attr) -> (Seq<char>, Option<Seq<char>>) {
    (a.name@, value_view(a.value))
}

/// Name and value pairs as plain values.
pub open spec fn entries_view(v: Seq<(String, Option<String>)>) -> Seq<(Seq<char>, Option<Seq<char>>)> {
    v.map_values(|e: (String, Option<String>)| (e.0@, value_view(e.1)))
}

/// The attributes `attrs` as a map from name to value: one entry per name, the value of the
/// last attribute of that name, the entries in the order of those attributes.
pub fn attrs_to_map(attrs: &[Attr]) -> (out: Vec<(String, Option<String>)>)
    ensures
        entries_view(out@) == last_wins_upto(attrs@, attrs@.len() as int).map_values(|a: Attr| attr_entry(a)),
{
    let mut copies: Vec<Attr> = Vec::new();
    let mut i: usize = 0;
    while i < attrs.len()
        invariant
            i <= attrs@.len(),
            copies@ == attrs@.take(i as int),
        decreases attrs@.len() - i,
    {
        copies.push(copy_attr(&attrs[i]));
        proof {
            assert(copies@ =~= attrs@.take(i + 1));
        }
        i += 1;
    }
    proof {
        assert(copies@ =~= attrs@);
    }
    let kept = dedupe_attrs_last_wins(copies);
    let mut out: Vec<(String, Option<String>)> = Vec::new();
    let mut j: usize = 0;
    while j < kept.len()
        invariant
            j <= kept@.len(),
            out@.len() == j,
            entries_view(out@) == kept@.take(j as int).map_values(|a: Attr| attr_entry(a)),
        decreases kept@.len() - j,
    {
        let a = copy_attr(&kept[j]);
        let ghost before = out@;
        out.push((a.name, a.value));
        proof {
            let want = kept@.take(j + 1).map_values(|a: Attr| attr_entry(a));
            assert(out@ == before.push((a.name, a.value)));
            assert(before.len() == j);
            assert forall|t: int| 0 <= t < want.len() implies #[trigger] entries_view(out@)[t] == want[t] by {
                assert(kept@.take(j + 1)[t] == kept@[t]);
                if t < j {
                    assert(out@[t] == before[t]);
                    assert(kept@.take(j as int)[t] == kept@[t]);
                    assert(entries_view(before)[t] == kept@.take(j as int).map_values(|a: Attr| attr_entry(a))[t]);
                } else {
                    assert(out@[t] == (a.name, a.value));
                }
            }
            assert(entries_view(out@) =~= want);
        }
        j += 1;
    }
    proof {
        assert(kept@.take(kept@.len() as int) =~= kept@);
    }
    out
}

} // verus!
