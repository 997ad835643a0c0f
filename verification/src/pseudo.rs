use vstd::prelude::*;
use crate::element::value_view;
use crate::text::{is_white_space, string_from_range, trimmed, white_space};

verus! {

/// Whether `p` occurs in `s` at `start`.
pub open spec fn starts_at(s: Seq<char>, start: int, p: Seq<char>) -> bool {
    0 <= start && start + p.len() <= s.len() && s.subrange(start, start + p.len()) == p
}

/// Whether `p` occurs in `s` at `start`.
pub fn starts_with_at(s: &Vec<char>, start: usize, p: &Vec<char>) -> (r: bool)
    ensures
        r == starts_at(s@, start as int, p@),
{
    let n = s.len();
    if start > n || p.len() > n - start {
        return false;
    }
    let mut k: usize = 0;
    while k < p.len()
        invariant
            n == s@.len(),
            start + p@.len() <= s@.len(),
            k <= p@.len(),
            forall|m: int| 0 <= m < k ==> s@[start + m] == p@[m],
        decreases p@.len() - k,
    {
        if s[start + k] != p[k] {
            proof {
                assert(s@.subrange(start as int, start + p@.len())[k as int] != p@[k as int]);
            }
            return false;
        }
        k += 1;
    }
    proof {
        assert(s@.subrange(start as int, start + p@.len()) =~= p@);
    }
    true
}

/// Scanning the arguments of a pseudo-class call from `i`, inside `depth` open parentheses, with
/// an open quote and a pending escape: the index just past the parenthesis that closes the call.
pub open spec fn call_close(s: Seq<char>, i: int, quote: Option<char>, escape: bool, depth: nat) -> Option<int>
    decreases s.len() - i,
{
    if i < 0 || i >= s.len() {
        None
    } else {
        let c = s[i];
        if escape {
            call_close(s, i + 1, quote, false, depth)
        } else if c == '\\' {
            call_close(s, i + 1, quote, true, depth)
        } else if quote is Some {
            call_close(s, i + 1, if Some(c) == quote { None } else { quote }, false, depth)
        } else if c == '"' || c == '\'' {
            call_close(s, i + 1, Some(c), false, depth)
        } else if c == '(' {
            call_close(s, i + 1, None, false, depth + 1)
        } else if c == ')' {
            if depth <= 1 {
                Some(i + 1)
            } else {
                call_close(s, i + 1, None, false, (depth - 1) as nat)
            }
        } else {
            call_close(s, i + 1, quote, false, depth)
        }
    }
}

pub proof fn lemma_call_close(s: Seq<char>, i: int, quote: Option<char>, escape: bool, depth: nat)
    requires
        0 <= i,
    ensures
        call_close(s, i, quote, escape, depth) matches Some(e) ==> i < e <= s.len(),
    decreases s.len() - i,
{
    if i < s.len() {
        let c = s[i];
        if escape {
            lemma_call_close(s, i + 1, quote, false, depth);
        } else if c == '\\' {
            lemma_call_close(s, i + 1, quote, true, depth);
        } else if quote is Some {
            lemma_call_close(s, i + 1, if Some(c) == quote { None } else { quote }, false, depth);
        } else if c == '"' || c == '\'' {
            lemma_call_close(s, i + 1, Some(c), false, depth);
        } else if c == '(' {
            lemma_call_close(s, i + 1, None, false, depth + 1);
        } else if c == ')' {
            if depth > 1 {
                lemma_call_close(s, i + 1, None, false, (depth - 1) as nat);
            }
        } else {
            lemma_call_close(s, i + 1, quote, false, depth);
        }
    }
}

/// The pseudo-class call `prefix(...)` at `start`: where it ends, and its trimmed argument,
/// which must not be empty.
pub open spec fn pseudo_call(s: Seq<char>, start: int, prefix: Seq<char>) -> Option<(int, Seq<char>)> {
    if !starts_at(s, start, prefix) {
        None
    } else {
        let args = start + prefix.len();
        match call_close(s, args, None, false, 1) {
            Some(next) => {
                let inner = trimmed(s.subrange(args, next - 1));
                if inner.len() == 0 {
                    None
                } else {
                    Some((next, inner))
                }
            },
            None => None,
        }
    }
}

/// Parses the pseudo-class call `prefix(...)` at `start`: where it ends and its trimmed argument.
pub fn parse_pseudo_call(s: &Vec<char>, start: usize, prefix: &Vec<char>) -> (r: Result<(usize, String), ()>)
    requires
        prefix@.len() > 0,
    ensures
        match r {
            Ok((next, inner)) => pseudo_call(s@, start as int, prefix@) == Some((next as int, inner@)) && next <= s@.len(),
            Err(()) => pseudo_call(s@, start as int, prefix@) is None,
        },
{
    if !starts_with_at(s, start, prefix) {
        return Err(());
    }
    let n = s.len();
    let args_start = start + prefix.len();
    let mut quote: Option<char> = None;
    let mut escape = false;
    let mut depth: usize = 1;
    let mut i = args_start;
    while i < s.len()
        invariant
            n == s@.len(),
            args_start == start + prefix@.len(),
            prefix@.len() > 0,
            starts_at(s@, start as int, prefix@),
            args_start <= i <= s@.len(),
            1 <= depth <= i - args_start + 1,
            call_close(s@, args_start as int, None, false, 1) == call_close(s@, i as int, quote, escape, depth as nat),
        decreases s@.len() - i,
    {
        let c = s[i];
        i += 1;
        if escape {
            escape = false;
        } else if c == '\\' {
            escape = true;
        } else if quote.is_some() {
            if Some(c) == quote {
                quote = None;
            }
        } else if c == '"' || c == '\'' {
            quote = Some(c);
        } else if c == '(' {
            depth += 1;
        } else if c == ')' {
            if depth <= 1 {
                let end = i - 1;
                let sub = crate::text::string_from_range(s, args_start, end);
                let inner = crate::text::trim(sub.as_str());
                if inner.as_str().unicode_len() == 0 {
                    return Err(());
                }
                return Ok((i, inner));
            }
            depth -= 1;
        }
    }
    Err(())
}

/// Whether what was written so far ends inside a compound selector (so a pseudo-class attaches
/// to it rather than standing alone).
pub open spec fn ends_in_compound(output: Seq<char>) -> bool {
    output.len() > 0 && !is_white_space(output.last()) && !(output.last() == '>' || output.last() == '+'
        || output.last() == '~' || output.last() == ',')
}

/// Whether `output` ends inside a compound selector.
pub fn current_compound_has_selector(output: &Vec<char>) -> (r: bool)
    ensures
        r == ends_in_compound(output@),
{
    if output.len() == 0 {
        return false;
    }
    let c = output[output.len() - 1];
    !white_space(c) && !(c == '>' || c == '+' || c == '~' || c == ',')
}

/// A CSS string whose opening quote is at `i - 1`, read from `i` with a pending escape: where it
/// ends (just past the closing quote) and its value, escapes taken out.
pub open spec fn css_string_from(s: Seq<char>, i: int, quote: char, escape: bool) -> Option<(int, Seq<char>)>
    decreases s.len() - i,
{
    if i < 0 || i >= s.len() {
        None
    } else if escape {
        match css_string_from(s, i + 1, quote, false) {
            Some((e, v)) => Some((e, seq![s[i]] + v)),
            None => None,
        }
    } else if s[i] == '\\' {
        css_string_from(s, i + 1, quote, true)
    } else if s[i] == quote {
        Some((i + 1, Seq::empty()))
    } else {
        match css_string_from(s, i + 1, quote, false) {
            Some((e, v)) => Some((e, seq![s[i]] + v)),
            None => None,
        }
    }
}

/// Reads the CSS string quoted with `quote` at `start`.
pub fn parse_css_string(s: &Vec<char>, start: usize, quote: char) -> (r: Result<(usize, String), ()>)
    requires
        start < s@.len(),
    ensures
        match r {
            Ok((next, value)) => css_string_from(s@, start + 1, quote, false) == Some((next as int, value@)) && next <= s@.len(),
            Err(()) => css_string_from(s@, start + 1, quote, false) is None,
        },
{
    let n = s.len();
    let mut value = String::new();
    let mut i = start + 1;
    let mut escape = false;
    let ghost target = css_string_from(s@, start + 1, quote, false);
    while i < s.len()
        invariant
            n == s@.len(),
            start + 1 <= i <= s@.len(),
            target == css_string_from(s@, start + 1, quote, false),
            target == match css_string_from(s@, i as int, quote, escape) {
                Some((e, v)) => Some((e, value@ + v)),
                None => None,
            },
        decreases s@.len() - i,
    {
        let c = s[i];
        let ghost v0 = value@;
        if escape {
            crate::text::push_char(&mut value, c);
            escape = false;
            i += 1;
            proof {
                match css_string_from(s@, i as int, quote, false) {
                    Some((e, v)) => assert(v0 + (seq![c] + v) =~= value@ + v),
                    None => {},
                }
            }
        } else if c == '\\' {
            escape = true;
            i += 1;
        } else if c == quote {
            proof {
                assert(value@ + Seq::<char>::empty() =~= value@);
            }
            return Ok((i + 1, value));
        } else {
            crate::text::push_char(&mut value, c);
            i += 1;
            proof {
                match css_string_from(s@, i as int, quote, false) {
                    Some((e, v)) => assert(v0 + (seq![c] + v) =~= value@ + v),
                    None => {},
                }
            }
        }
    }
    Err(())
}


/// Whether `c` separates the arguments of `:contains(...)`.
pub open spec fn is_css_separator(c: char) -> bool {
    c == ',' || is_white_space(c)
}

/// The first index at or after `i` that is not a separator.
pub open spec fn skip_separators(s: Seq<char>, i: int) -> int
    decreases s.len() - i,
{
    if 0 <= i < s.len() && is_css_separator(s[i]) {
        skip_separators(s, i + 1)
    } else {
        i
    }
}

pub proof fn lemma_skip_separators(s: Seq<char>, i: int)
    requires
        0 <= i <= s.len(),
    ensures
        i <= skip_separators(s, i) <= s.len(),
    decreases s.len() - i,
{
    if i < s.len() && is_css_separator(s[i]) {
        lemma_skip_separators(s, i + 1);
    }
}

/// Moves `i` past separators.
pub fn skip_css_separators(s: &Vec<char>, i: &mut usize)
    requires
        *old(i) <= s@.len(),
    ensures
        *final(i) == skip_separators(s@, *old(i) as int),
        *old(i) <= *final(i) <= s@.len(),
{
    proof {
        lemma_skip_separators(s@, *i as int);
    }
    let ghost i0 = *i;
    while *i < s.len() && (s[*i] == ',' || white_space(s[*i]))
        invariant
            i0 <= *i <= s@.len(),
            skip_separators(s@, i0 as int) == skip_separators(s@, *i as int),
        decreases s@.len() - *i,
    {
        *i = *i + 1;
    }
}

pub proof fn lemma_css_string(s: Seq<char>, i: int, quote: char, escape: bool)
    requires
        0 <= i,
    ensures
        css_string_from(s, i, quote, escape) matches Some((e, v)) ==> i < e <= s.len(),
    decreases s.len() - i,
{
    if i < s.len() {
        if escape {
            lemma_css_string(s, i + 1, quote, false);
        } else if s[i] == '\\' {
            lemma_css_string(s, i + 1, quote, true);
        } else if s[i] != quote {
            lemma_css_string(s, i + 1, quote, false);
        }
    }
}

/// The arguments of `:contains(...)` from `i` on: quoted strings, or runs up to a comma, trimmed.
pub open spec fn contains_args_from(s: Seq<char>, i: int) -> Option<Seq<Seq<char>>>
    decreases s.len() - i,
{
    let j = skip_separators(s, i);
    if i < 0 || j < i || j >= s.len() {
        Some(Seq::empty())
    } else if s[j] == '"' || s[j] == '\'' {
        match css_string_from(s, j + 1, s[j], false) {
            Some((next, v)) => if j < next <= s.len() {
                match contains_args_from(s, next) {
                    Some(rest) => Some(seq![v] + rest),
                    None => None,
                }
            } else {
                None
            },
            None => None,
        }
    } else {
        let next = crate::matcher::find_from(s, j, ',');
        let v = trimmed(s.subrange(j, next));
        if v.len() == 0 || next <= j || next > s.len() {
            None
        } else {
            match contains_args_from(s, next) {
                Some(rest) => Some(seq![v] + rest),
                None => None,
            }
        }
    }
}

/// The arguments of `:contains(...)`, of which there must be one at least.
pub open spec fn contains_args(s: Seq<char>) -> Option<Seq<Seq<char>>> {
    match contains_args_from(s, 0) {
        Some(vs) => if vs.len() == 0 { None } else { Some(vs) },
        None => None,
    }
}

/// Reads the arguments of `:contains(...)`.
pub fn parse_contains_args(s: &Vec<char>) -> (r: Result<Vec<String>, ()>)
    ensures
        match r {
            Ok(vs) => contains_args(s@) == Some(vs@.map_values(|v: String| v@)),
            Err(()) => contains_args(s@) is None,
        },
{
    let n = s.len();
    let mut values: Vec<String> = Vec::new();
    let mut i: usize = 0;
    let ghost target = contains_args_from(s@, 0);
    while i < n
        invariant
            n == s@.len(),
            i <= n,
            target == contains_args_from(s@, 0),
            target == match contains_args_from(s@, i as int) {
                Some(rest) => Some(values@.map_values(|v: String| v@) + rest),
                None => None,
            },
        ensures
            target == Some(values@.map_values(|v: String| v@)),
        decreases n - i,
    {
        let ghost i0 = i;
        skip_css_separators(s, &mut i);
        if i >= n {
            proof {
                assert(contains_args_from(s@, i0 as int) == Some(Seq::<Seq<char>>::empty()));
                assert(values@.map_values(|v: String| v@) + Seq::<Seq<char>>::empty() =~= values@.map_values(|v: String| v@));
            }
            break;
        }
        let c = s[i];
        let ghost before = values@.map_values(|v: String| v@);
        if c == '"' || c == '\'' {
            match parse_css_string(s, i, c) {
                Ok((next, value)) => {
                    proof {
                        lemma_css_string(s@, i as int + 1, c, false);
                    }
                    values.push(value);
                    i = next;
                },
                Err(()) => {
                    return Err(());
                },
            }
        } else {
            let start = i;
            let next = crate::matcher::find_char_from(s, i, ',');
            let sub = string_from_range(s, start, next);
            let value = crate::text::trim(sub.as_str());
            if value.as_str().unicode_len() == 0 {
                return Err(());
            }
            proof {
                assert(next > start) by {
                    assert(s@[start as int] != ',');
                }
            }
            values.push(value);
            i = next;
        }
        proof {
            match contains_args_from(s@, i as int) {
                Some(rest) => {
                    assert(values@.map_values(|v: String| v@) =~= before.push(values@.last()@));
                    assert(before + (seq![values@.last()@] + rest) =~= values@.map_values(|v: String| v@) + rest);
                },
                None => {},
            }
        }
    }
    if values.len() == 0 {
        return Err(());
    }
    Ok(values)
}


/// Scanning the arguments of `:contains(...)` from `i`: the index of the closing parenthesis.
pub open spec fn contains_close(s: Seq<char>, i: int, quote: Option<char>, escape: bool) -> Option<int>
    decreases s.len() - i,
{
    if i < 0 || i >= s.len() {
        None
    } else {
        let c = s[i];
        if escape {
            contains_close(s, i + 1, quote, false)
        } else if c == '\\' {
            contains_close(s, i + 1, quote, true)
        } else if quote is Some {
            contains_close(s, i + 1, if Some(c) == quote { None } else { quote }, false)
        } else if c == '"' || c == '\'' {
            contains_close(s, i + 1, Some(c), false)
        } else if c == ')' {
            Some(i)
        } else {
            contains_close(s, i + 1, quote, false)
        }
    }
}

pub proof fn lemma_contains_close(s: Seq<char>, i: int, quote: Option<char>, escape: bool)
    requires
        0 <= i,
    ensures
        contains_close(s, i, quote, escape) matches Some(e) ==> i <= e < s.len(),
    decreases s.len() - i,
{
    if i < s.len() {
        let c = s[i];
        if escape {
            lemma_contains_close(s, i + 1, quote, false);
        } else if c == '\\' {
            lemma_contains_close(s, i + 1, quote, true);
        } else if quote is Some {
            lemma_contains_close(s, i + 1, if Some(c) == quote { None } else { quote }, false);
        } else if c == '"' || c == '\'' {
            lemma_contains_close(s, i + 1, Some(c), false);
        } else if c != ')' {
            lemma_contains_close(s, i + 1, quote, false);
        }
    }
}

/// The call `:contains(...)` whose arguments start at `args`: where it ends and its arguments.
pub open spec fn contains_call(s: Seq<char>, args: int) -> Option<(int, Seq<Seq<char>>)> {
    match contains_close(s, args, None, false) {
        Some(e) => match contains_args(s.subrange(args, e)) {
            Some(vs) => Some((e + 1, vs)),
            None => None,
        },
        None => None,
    }
}

/// Reads the call `:contains(...)` or `:-soup-contains(...)` at `start`, whose prefix is
/// `prefix_len` characters long.
pub fn parse_contains_call(s: &Vec<char>, start: usize, prefix_len: usize) -> (r: Result<(usize, Vec<String>), ()>)
    requires
        start + prefix_len <= s@.len(),
    ensures
        match r {
            Ok((next, vs)) => contains_call(s@, start + prefix_len) == Some((next as int, vs@.map_values(|v: String| v@))) && next <= s@.len(),
            Err(()) => contains_call(s@, start + prefix_len) is None,
        },
{
    let n = s.len();
    let args_start = start + prefix_len;
    let mut quote: Option<char> = None;
    let mut escape = false;
    let mut i = args_start;
    proof {
        lemma_contains_close(s@, args_start as int, None, false);
    }
    while i < n
        invariant
            n == s@.len(),
            args_start == start + prefix_len,
            args_start <= i <= n,
            contains_close(s@, args_start as int, None, false) == contains_close(s@, i as int, quote, escape),
        decreases n - i,
    {
        let c = s[i];
        if escape {
            escape = false;
        } else if c == '\\' {
            escape = true;
        } else if quote.is_some() {
            if Some(c) == quote {
                quote = None;
            }
        } else if c == '"' || c == '\'' {
            quote = Some(c);
        } else if c == ')' {
            proof {
                assert(contains_close(s@, i as int, quote, escape) == Some(i as int));
            }
            let inner = crate::matcher::range_vec(s, args_start, i);
            proof {
                assert(contains_close(s@, args_start as int, None, false) == Some(i as int));
                assert(inner@ == s@.subrange(args_start as int, i as int));
                assert(contains_call(s@, args_start as int) == match contains_args(inner@) {
                    Some(vs) => Some((i + 1, vs)),
                    None => None,
                });
            }
            match parse_contains_args(&inner) {
                Ok(args) => {
                    return Ok((i + 1, args));
                },
                Err(()) => {
                    return Err(());
                },
            }
        }
        i += 1;
    }
    Err(())
}


pub proof fn lemma_pseudo_call_advances(s: Seq<char>, start: int, prefix: Seq<char>)
    requires
        0 <= start,
    ensures
        pseudo_call(s, start, prefix) matches Some((next, inner)) ==> start < next <= s.len() || (prefix.len() == 0 && start <= next <= s.len()),
{
    if starts_at(s, start, prefix) {
        lemma_call_close(s, start + prefix.len(), None, false, 1);
    }
}

/// The state of a scan for `:has(...)` after `s[i..]`: what is written, the argument found,
/// an open quote and the bracket depth; `None` when the selector is refused.
pub open spec fn has_scan(
    s: Seq<char>,
    i: int,
    output: Seq<char>,
    inner: Option<Seq<char>>,
    quote: Option<char>,
    depth: nat,
) -> Option<(Seq<char>, Option<Seq<char>>, Option<char>, nat)>
    decreases s.len() - i,
{
    if i < 0 || i >= s.len() {
        Some((output, inner, quote, depth))
    } else {
        let c = s[i];
        if quote is Some {
            has_scan(s, i + 1, output.push(c), inner, if Some(c) == quote { None } else { quote }, depth)
        } else if c == '"' || c == '\'' {
            has_scan(s, i + 1, output.push(c), inner, Some(c), depth)
        } else if c == '[' {
            has_scan(s, i + 1, output.push(c), inner, quote, depth + 1)
        } else if c == ']' {
            has_scan(s, i + 1, output.push(c), inner, quote, if depth > 0 { (depth - 1) as nat } else { 0 })
        } else if depth == 0 && starts_at(s, i, ":has("@) {
            if inner is Some {
                None
            } else {
                let out2 = if ends_in_compound(output) { output } else { output.push('*') };
                match pseudo_call(s, i, ":has("@) {
                    Some((next, parsed)) => if i < next <= s.len() {
                        has_scan(s, next, out2, Some(parsed), quote, depth)
                    } else {
                        None
                    },
                    None => None,
                }
            }
        } else {
            has_scan(s, i + 1, output.push(c), inner, quote, depth)
        }
    }
}

/// What is left of a selector once a filter is taken out of it: `*` when nothing is.
pub open spec fn rest_selector(output: Seq<char>) -> Seq<char> {
    if trimmed(output).len() == 0 {
        "*"@
    } else {
        output
    }
}

/// The `:has(...)` filter of `s`: `None` when refused, `Some(None)` when there is none, else
/// the selector left and the argument.
pub open spec fn has_filter_of(s: Seq<char>) -> Option<Option<(Seq<char>, Seq<char>)>> {
    match has_scan(s, 0, Seq::empty(), None, None, 0) {
        None => None,
        Some((out, inner, q, d)) => if q is Some || d != 0 {
            None
        } else {
            match inner {
                None => Some(None),
                Some(x) => Some(Some((rest_selector(out), x))),
            }
        },
    }
}

/// A `:has(...)` filter taken out of a selector: the selector left and the argument.
#[derive(Clone, Debug)]
pub struct HasFilter {
    pub selector: String,
    pub inner_selector: String,
}

/// The selector left once a filter is taken out: `*` when nothing is.
fn rest_selector_exec(output: String) -> (r: String)
    ensures
        r@ == rest_selector(output@),
{
    let trimmed = crate::text::trim(output.as_str());
    if trimmed.as_str().unicode_len() == 0 {
        let chars = crate::text::chars_of("*");
        crate::text::string_from_chars(&chars)
    } else {
        output
    }
}

/// Takes the `:has(...)` pseudo-class out of `selector` (there may be one), writing `*` for the
/// compound selector it stood alone in.
pub fn extract_has_filter(selector: &str) -> (r: Result<Option<HasFilter>, ()>)
    ensures
        match r {
            Ok(Some(f)) => has_filter_of(selector@) == Some(Some((f.selector@, f.inner_selector@))),
            Ok(None) => has_filter_of(selector@) == Some(None::<(Seq<char>, Seq<char>)>),
            Err(()) => has_filter_of(selector@) is None,
        },
{
    let s = crate::text::chars_of(selector);
    let prefix = crate::text::chars_of(":has(");
    let n = s.len();
    let mut output: Vec<char> = Vec::new();
    let mut inner: Option<String> = None;
    let mut quote: Option<char> = None;
    let mut depth: usize = 0;
    let mut i: usize = 0;
    let ghost target = has_scan(s@, 0, Seq::empty(), None, None, 0);
    proof {
        reveal_strlit(":has(");
        assert(output@ =~= Seq::<char>::empty());
    }
    while i < n
        invariant
            n == s@.len(),
            s@ == selector@,
            prefix@ == ":has("@,
            prefix@.len() == 5,
            i <= n,
            depth <= i,
            target == has_scan(s@, 0, Seq::empty(), None, None, 0),
            target == has_scan(s@, i as int, output@, value_view(inner), quote, depth as nat),
        decreases n - i,
    {
        let c = s[i];
        if quote.is_some() {
            output.push(c);
            if Some(c) == quote {
                quote = None;
            }
            i += 1;
        } else if c == '"' || c == '\'' {
            quote = Some(c);
            output.push(c);
            i += 1;
        } else if c == '[' {
            depth += 1;
            output.push(c);
            i += 1;
        } else if c == ']' {
            if depth > 0 {
                depth -= 1;
            }
            output.push(c);
            i += 1;
        } else if depth == 0 && starts_with_at(&s, i, &prefix) {
            if inner.is_some() {
                return Err(());
            }
            if !current_compound_has_selector(&output) {
                output.push('*');
            }
            match parse_pseudo_call(&s, i, &prefix) {
                Ok((next, parsed)) => {
                    proof {
                        lemma_pseudo_call_advances(s@, i as int, prefix@);
                    }
                    inner = Some(parsed);
                    i = next;
                },
                Err(()) => {
                    return Err(());
                },
            }
        } else {
            output.push(c);
            i += 1;
        }
    }
    if quote.is_some() || depth != 0 {
        return Err(());
    }
    match inner {
        None => Ok(None),
        Some(x) => {
            let out = crate::text::string_from_chars(&output);
            Ok(Some(HasFilter { selector: rest_selector_exec(out), inner_selector: x }))
        },
    }
}


/// The state of a scan for `:not(:has(...))` after `s[i..]`; `None` when refused.
pub open spec fn not_has_scan(
    s: Seq<char>,
    i: int,
    output: Seq<char>,
    inner: Option<Seq<char>>,
    quote: Option<char>,
    depth: nat,
) -> Option<(Seq<char>, Option<Seq<char>>, Option<char>, nat)>
    decreases s.len() - i,
{
    if i < 0 || i >= s.len() {
        Some((output, inner, quote, depth))
    } else {
        let c = s[i];
        if quote is Some {
            not_has_scan(s, i + 1, output.push(c), inner, if Some(c) == quote { None } else { quote }, depth)
        } else if c == '"' || c == '\'' {
            not_has_scan(s, i + 1, output.push(c), inner, Some(c), depth)
        } else if c == '[' {
            not_has_scan(s, i + 1, output.push(c), inner, quote, depth + 1)
        } else if c == ']' {
            not_has_scan(s, i + 1, output.push(c), inner, quote, if depth > 0 { (depth - 1) as nat } else { 0 })
        } else if depth == 0 && starts_at(s, i, ":not("@) {
            if inner is Some {
                None
            } else {
                match pseudo_call(s, i, ":not("@) {
                    Some((next, parsed_not)) => if i < next <= s.len() {
                        let inn = trimmed(parsed_not);
                        let plain = output + ":not("@ + parsed_not + ")"@;
                        if !starts_at(inn, 0, ":has("@) {
                            not_has_scan(s, next, plain, inner, quote, depth)
                        } else {
                            match pseudo_call(inn, 0, ":has("@) {
                                Some((has_end, parsed_has)) => if has_end != inn.len() {
                                    not_has_scan(s, next, plain, inner, quote, depth)
                                } else {
                                    let out2 = if ends_in_compound(output) { output } else { output.push('*') };
                                    not_has_scan(s, next, out2, Some(parsed_has), quote, depth)
                                },
                                None => None,
                            }
                        }
                    } else {
                        None
                    },
                    None => None,
                }
            }
        } else {
            not_has_scan(s, i + 1, output.push(c), inner, quote, depth)
        }
    }
}

/// The `:not(:has(...))` filter of `s`: `None` when refused, `Some(None)` when there is none,
/// else the selector left and the argument of `:has`.
pub open spec fn not_has_filter_of(s: Seq<char>) -> Option<Option<(Seq<char>, Seq<char>)>> {
    match not_has_scan(s, 0, Seq::empty(), None, None, 0) {
        None => None,
        Some((out, inner, q, d)) => if q is Some || d != 0 {
            None
        } else {
            match inner {
                None => Some(None),
                Some(x) => Some(Some((rest_selector(out), x))),
            }
        },
    }
}

/// A `:not(:has(...))` filter taken out of a selector: the selector left and the argument of `:has`.
#[derive(Clone, Debug)]
pub struct NotHasFilter {
    pub selector: String,
    pub inner_selector: String,
}

/// Appends the characters of `s` to `out`.
fn append_chars(out: &mut Vec<char>, s: &str)
    ensures
        final(out)@ == old(out)@ + s@,
{
    let chars = crate::text::chars_of(s);
    let mut k: usize = 0;
    while k < chars.len()
        invariant
            k <= chars@.len(),
            chars@ == s@,
            out@ == old(out)@ + chars@.take(k as int),
        decreases chars@.len() - k,
    {
        out.push(chars[k]);
        k += 1;
        proof {
            assert(out@ =~= old(out)@ + chars@.take(k as int));
        }
    }
    proof {
        assert(chars@.take(chars@.len() as int) =~= chars@);
    }
}

/// Takes the `:not(:has(...))` pseudo-class out of `selector` (there may be one), keeping any
/// other `:not(...)`, and writing `*` for the compound selector it stood alone in.
#[verifier::rlimit(50)]
pub fn extract_not_has_filter(selector: &str) -> (r: Result<Option<NotHasFilter>, ()>)
    ensures
        match r {
            Ok(Some(f)) => not_has_filter_of(selector@) == Some(Some((f.selector@, f.inner_selector@))),
            Ok(None) => not_has_filter_of(selector@) == Some(None::<(Seq<char>, Seq<char>)>),
            Err(()) => not_has_filter_of(selector@) is None,
        },
{
    let s = crate::text::chars_of(selector);
    let not_prefix = crate::text::chars_of(":not(");
    let has_prefix = crate::text::chars_of(":has(");
    let n = s.len();
    let mut output: Vec<char> = Vec::new();
    let mut inner: Option<String> = None;
    let mut quote: Option<char> = None;
    let mut depth: usize = 0;
    let mut i: usize = 0;
    let ghost target = not_has_scan(s@, 0, Seq::empty(), None, None, 0);
    proof {
        reveal_strlit(":not(");
        reveal_strlit(":has(");
        assert(output@ =~= Seq::<char>::empty());
    }
    while i < n
        invariant
            n == s@.len(),
            s@ == selector@,
            not_prefix@ == ":not("@,
            has_prefix@ == ":has("@,
            not_prefix@.len() == 5,
            has_prefix@.len() == 5,
            i <= n,
            depth <= i,
            target == not_has_scan(s@, 0, Seq::empty(), None, None, 0),
            target == not_has_scan(s@, i as int, output@, value_view(inner), quote, depth as nat),
        decreases n - i,
    {
        let c = s[i];
        if quote.is_some() {
            output.push(c);
            if Some(c) == quote {
                quote = None;
            }
            i += 1;
        } else if c == '"' || c == '\'' {
            quote = Some(c);
            output.push(c);
            i += 1;
        } else if c == '[' {
            depth += 1;
            output.push(c);
            i += 1;
        } else if c == ']' {
            if depth > 0 {
                depth -= 1;
            }
            output.push(c);
            i += 1;
        } else if depth == 0 && starts_with_at(&s, i, &not_prefix) {
            if inner.is_some() {
                return Err(());
            }
            let (next, parsed_not) = match parse_pseudo_call(&s, i, &not_prefix) {
                Ok(p) => p,
                Err(()) => {
                    return Err(());
                },
            };
            proof {
                lemma_pseudo_call_advances(s@, i as int, not_prefix@);
            }
            let inn_string = crate::text::trim(parsed_not.as_str());
            let inn = crate::text::chars_of(inn_string.as_str());
            let mut plain = false;
            let mut parsed_inner: Option<String> = None;
            if !starts_with_at(&inn, 0, &has_prefix) {
                plain = true;
            } else {
                match parse_pseudo_call(&inn, 0, &has_prefix) {
                    Ok((has_end, parsed_has)) => {
                        if has_end != inn.len() {
                            plain = true;
                        } else {
                            parsed_inner = Some(parsed_has);
                        }
                    },
                    Err(()) => {
                        return Err(());
                    },
                }
            }
            if plain {
                append_chars(&mut output, ":not(");
                append_chars(&mut output, parsed_not.as_str());
                append_chars(&mut output, ")");
            } else {
                if !current_compound_has_selector(&output) {
                    output.push('*');
                }
                inner = parsed_inner;
            }
            i = next;
        } else {
            output.push(c);
            i += 1;
        }
    }
    if quote.is_some() || depth != 0 {
        return Err(());
    }
    match inner {
        None => Ok(None),
        Some(x) => {
            let out = crate::text::string_from_chars(&output);
            Ok(Some(NotHasFilter { selector: rest_selector_exec(out), inner_selector: x }))
        },
    }
}

/// The state of a scan for `:contains(...)` and `:-soup-contains(...)` after `s[i..]`: what is
/// written, whether one was found, the strings gathered, an open quote and the bracket depth.
pub open spec fn contains_scan(
    s: Seq<char>,
    i: int,
    output: Seq<char>,
    found: bool,
    needles: Seq<Seq<char>>,
    quote: Option<char>,
    depth: nat,
) -> Option<(Seq<char>, bool, Seq<Seq<char>>, Option<char>, nat)>
    decreases s.len() - i,
{
    if i < 0 || i >= s.len() {
        Some((output, found, needles, quote, depth))
    } else {
        let c = s[i];
        if quote is Some {
            contains_scan(s, i + 1, output.push(c), found, needles, if Some(c) == quote { None } else { quote }, depth)
        } else if c == '"' || c == '\'' {
            contains_scan(s, i + 1, output.push(c), found, needles, Some(c), depth)
        } else if c == '[' {
            contains_scan(s, i + 1, output.push(c), found, needles, quote, depth + 1)
        } else if c == ']' {
            contains_scan(s, i + 1, output.push(c), found, needles, quote, if depth > 0 { (depth - 1) as nat } else { 0 })
        } else if depth == 0 && (starts_at(s, i, ":-soup-contains("@) || starts_at(s, i, ":contains("@)) {
            let plen = if starts_at(s, i, ":-soup-contains("@) { ":-soup-contains("@.len() } else { ":contains("@.len() };
            let out2 = if ends_in_compound(output) { output } else { output.push('*') };
            match contains_call(s, i + plen) {
                Some((next, vs)) => if i < next <= s.len() {
                    contains_scan(s, next, out2, true, needles + vs, quote, depth)
                } else {
                    None
                },
                None => None,
            }
        } else {
            contains_scan(s, i + 1, output.push(c), found, needles, quote, depth)
        }
    }
}

/// The `:contains(...)` filter of `s`: `None` when refused, `Some(None)` when there is none,
/// else the selector left and the strings to look for.
pub open spec fn contains_filter_of(s: Seq<char>) -> Option<Option<(Seq<char>, Seq<Seq<char>>)>> {
    match contains_scan(s, 0, Seq::empty(), false, Seq::empty(), None, 0) {
        None => None,
        Some((out, found, needles, q, d)) => if q is Some || d != 0 {
            None
        } else if !found {
            Some(None)
        } else if needles.len() == 0 {
            None
        } else {
            Some(Some((rest_selector(out), needles)))
        },
    }
}

/// A `:contains(...)` filter taken out of a selector: the selector left and the strings to look for.
#[derive(Clone, Debug)]
pub struct ContainsFilter {
    pub selector: String,
    pub needles: Vec<String>,
}

/// Takes the `:contains(...)` and `:-soup-contains(...)` pseudo-classes out of `selector`,
/// gathering their strings, and writing `*` for the compound selector one stood alone in.
#[verifier::rlimit(50)]
pub fn extract_contains_filter(selector: &str) -> (r: Result<Option<ContainsFilter>, ()>)
    ensures
        match r {
            Ok(Some(f)) => contains_filter_of(selector@) == Some(Some((f.selector@, f.needles@.map_values(|v: String| v@)))),
            Ok(None) => contains_filter_of(selector@) == Some(None::<(Seq<char>, Seq<Seq<char>>)>),
            Err(()) => contains_filter_of(selector@) is None,
        },
{
    let s = crate::text::chars_of(selector);
    let soup_prefix = crate::text::chars_of(":-soup-contains(");
    let plain_prefix = crate::text::chars_of(":contains(");
    let n = s.len();
    let mut output: Vec<char> = Vec::new();
    let mut needles: Vec<String> = Vec::new();
    let mut found = false;
    let mut quote: Option<char> = None;
    let mut depth: usize = 0;
    let mut i: usize = 0;
    let ghost target = contains_scan(s@, 0, Seq::empty(), false, Seq::empty(), None, 0);
    proof {
        reveal_strlit(":-soup-contains(");
        reveal_strlit(":contains(");
        assert(output@ =~= Seq::<char>::empty());
        assert(needles@.map_values(|v: String| v@) =~= Seq::<Seq<char>>::empty());
    }
    while i < n
        invariant
            n == s@.len(),
            s@ == selector@,
            soup_prefix@ == ":-soup-contains("@,
            plain_prefix@ == ":contains("@,
            soup_prefix@.len() == 16,
            plain_prefix@.len() == 10,
            i <= n,
            depth <= i,
            target == contains_scan(s@, 0, Seq::empty(), false, Seq::empty(), None, 0),
            target == contains_scan(s@, i as int, output@, found, needles@.map_values(|v: String| v@), quote, depth as nat),
        decreases n - i,
    {
        let c = s[i];
        if quote.is_some() {
            output.push(c);
            if Some(c) == quote {
                quote = None;
            }
            i += 1;
        } else if c == '"' || c == '\'' {
            quote = Some(c);
            output.push(c);
            i += 1;
        } else if c == '[' {
            depth += 1;
            output.push(c);
            i += 1;
        } else if c == ']' {
            if depth > 0 {
                depth -= 1;
            }
            output.push(c);
            i += 1;
        } else if depth == 0 && (starts_with_at(&s, i, &soup_prefix) || starts_with_at(&s, i, &plain_prefix)) {
            let plen: usize = if starts_with_at(&s, i, &soup_prefix) { 16 } else { 10 };
            found = true;
            if !current_compound_has_selector(&output) {
                output.push('*');
            }
            let (next, mut parsed) = match parse_contains_call(&s, i, plen) {
                Ok(p) => p,
                Err(()) => {
                    return Err(());
                },
            };
            proof {
                lemma_contains_close(s@, i + plen, None, false);
            }
            let ghost before = needles@.map_values(|v: String| v@);
            let ghost added = parsed@.map_values(|v: String| v@);
            needles.append(&mut parsed);
            proof {
                assert(needles@.map_values(|v: String| v@) =~= before + added);
            }
            i = next;
        } else {
            output.push(c);
            i += 1;
        }
    }
    if quote.is_some() || depth != 0 {
        return Err(());
    }
    if !found {
        return Ok(None);
    }
    if needles.len() == 0 {
        proof {
            assert(needles@.map_values(|v: String| v@).len() == 0);
        }
        return Err(());
    }
    let out = crate::text::string_from_chars(&output);
    Ok(Some(ContainsFilter { selector: rest_selector_exec(out), needles }))
}


/// The alias pseudo-classes that a selector list stands in for.
pub open spec fn alias_prefix_at(s: Seq<char>, i: int) -> Option<Seq<char>> {
    if starts_at(s, i, ":is("@) {
        Some(":is("@)
    } else if starts_at(s, i, ":where("@) {
        Some(":where("@)
    } else if starts_at(s, i, ":matches("@) {
        Some(":matches("@)
    } else {
        None
    }
}

/// `d - 1`, or 0.
pub open spec fn sat_dec(d: nat) -> nat {
    if d > 0 { (d - 1) as nat } else { 0 }
}

/// The first alias call (`:is(...)`, `:where(...)`, `:matches(...)`) at the top level of
/// `s[i..]`: its start, its end and its argument; `None` when the selector is refused.
pub open spec fn alias_scan(s: Seq<char>, i: int, quote: Option<char>, bd: nat, pd: nat) -> Option<Option<(int, int, Seq<char>)>>
    decreases s.len() - i,
{
    if i < 0 || i >= s.len() {
        if quote is Some || bd != 0 || pd != 0 { None } else { Some(None) }
    } else {
        let c = s[i];
        if quote is Some {
            alias_scan(s, i + 1, if Some(c) == quote { None } else { quote }, bd, pd)
        } else if bd == 0 && pd == 0 && alias_prefix_at(s, i) is Some {
            match pseudo_call(s, i, alias_prefix_at(s, i)->0) {
                Some((end, inner)) => Some(Some((i, end, inner))),
                None => None,
            }
        } else if c == '"' || c == '\'' {
            alias_scan(s, i + 1, Some(c), bd, pd)
        } else if c == '[' {
            alias_scan(s, i + 1, quote, bd + 1, pd)
        } else if c == ']' {
            alias_scan(s, i + 1, quote, sat_dec(bd), pd)
        } else if c == '(' && bd == 0 {
            alias_scan(s, i + 1, quote, bd, pd + 1)
        } else if c == ')' && bd == 0 {
            alias_scan(s, i + 1, quote, bd, sat_dec(pd))
        } else {
            alias_scan(s, i + 1, quote, bd, pd)
        }
    }
}

/// Finds the first alias call at the top level of `s`.
pub fn find_selector_alias_call(s: &Vec<char>) -> (r: Result<Option<(usize, usize, String)>, ()>)
    ensures
        match r {
            Ok(Some((a, b, inner))) => alias_scan(s@, 0, None, 0, 0) == Some(Some((a as int, b as int, inner@))) && a < b <= s@.len(),
            Ok(None) => alias_scan(s@, 0, None, 0, 0) == Some(None::<(int, int, Seq<char>)>),
            Err(()) => alias_scan(s@, 0, None, 0, 0) is None,
        },
{
    let is_prefix = crate::text::chars_of(":is(");
    let where_prefix = crate::text::chars_of(":where(");
    let matches_prefix = crate::text::chars_of(":matches(");
    proof {
        reveal_strlit(":is(");
        reveal_strlit(":where(");
        reveal_strlit(":matches(");
    }
    let n = s.len();
    let mut quote: Option<char> = None;
    let mut bd: usize = 0;
    let mut pd: usize = 0;
    let mut i: usize = 0;
    while i < n
        invariant
            n == s@.len(),
            is_prefix@ == ":is("@,
            where_prefix@ == ":where("@,
            matches_prefix@ == ":matches("@,
            is_prefix@.len() == 4,
            where_prefix@.len() == 7,
            matches_prefix@.len() == 9,
            i <= n,
            bd <= i,
            pd <= i,
            alias_scan(s@, 0, None, 0, 0) == alias_scan(s@, i as int, quote, bd as nat, pd as nat),
        decreases n - i,
    {
        let c = s[i];
        if quote.is_some() {
            if Some(c) == quote {
                quote = None;
            }
            i += 1;
            continue;
        }
        if bd == 0 && pd == 0 {
            let prefix = if starts_with_at(s, i, &is_prefix) {
                Some(&is_prefix)
            } else if starts_with_at(s, i, &where_prefix) {
                Some(&where_prefix)
            } else if starts_with_at(s, i, &matches_prefix) {
                Some(&matches_prefix)
            } else {
                None
            };
            if let Some(p) = prefix {
                match parse_pseudo_call(s, i, p) {
                    Ok((end, inner)) => {
                        proof {
                            lemma_pseudo_call_advances(s@, i as int, p@);
                        }
                        return Ok(Some((i, end, inner)));
                    },
                    Err(()) => {
                        return Err(());
                    },
                }
            }
        }
        if c == '"' || c == '\'' {
            quote = Some(c);
        } else if c == '[' {
            bd += 1;
        } else if c == ']' {
            if bd > 0 {
                bd -= 1;
            }
        } else if c == '(' && bd == 0 {
            pd += 1;
        } else if c == ')' && bd == 0 {
            if pd > 0 {
                pd -= 1;
            }
        }
        i += 1;
    }
    if quote.is_some() || bd != 0 || pd != 0 {
        return Err(());
    }
    Ok(None)
}

/// What reading `s` leaves open: the quote, if any, the depth of brackets, and the depth of
/// parentheses outside brackets (a closing mark with nothing open is ignored).
pub open spec fn nesting(s: Seq<char>) -> (Option<char>, nat, nat)
    decreases s.len(),
{
    if s.len() == 0 {
        (None, 0, 0)
    } else {
        let (quote, bd, pd) = nesting(s.drop_last());
        let c = s.last();
        if quote is Some {
            (if Some(c) == quote { None } else { quote }, bd, pd)
        } else if c == '"' || c == '\'' {
            (Some(c), bd, pd)
        } else if c == '[' {
            (quote, bd + 1, pd)
        } else if c == ']' {
            (quote, sat_dec(bd), pd)
        } else if c == '(' && bd == 0 {
            (quote, bd, pd + 1)
        } else if c == ')' && bd == 0 {
            (quote, bd, sat_dec(pd))
        } else {
            (quote, bd, pd)
        }
    }
}

/// Nothing is left open.
pub open spec fn closed_nesting(n: (Option<char>, nat, nat)) -> bool {
    n.0 is None && n.1 == 0 && n.2 == 0
}

/// Whether `s[i]` is a comma outside every quote, bracket and parenthesis.
pub open spec fn top_comma(s: Seq<char>, i: int) -> bool {
    s[i] == ',' && closed_nesting(nesting(s.take(i)))
}

/// The positions of the top-level commas of `s` before `i`, in order.
pub open spec fn commas_before(s: Seq<char>, i: int) -> Seq<int>
    decreases i,
{
    if i <= 0 {
        Seq::empty()
    } else if top_comma(s, i - 1) {
        commas_before(s, i - 1).push(i - 1)
    } else {
        commas_before(s, i - 1)
    }
}

/// Part `k` of `s` cut at the commas `c`, trimmed.
pub open spec fn list_part(s: Seq<char>, c: Seq<int>, k: int) -> Seq<char> {
    trimmed(s.subrange(if k == 0 { 0 } else { c[k - 1] + 1 }, if k == c.len() { s.len() as int } else { c[k] }))
}

/// The selector list `s` cut at its top-level commas, each part trimmed; `None` where a quote,
/// bracket or parenthesis is left open or a part is empty.
pub open spec fn split_list(s: Seq<char>) -> Option<Seq<Seq<char>>> {
    let c = commas_before(s, s.len() as int);
    let parts = Seq::new((c.len() + 1) as nat, |k: int| list_part(s, c, k));
    if closed_nesting(nesting(s)) && forall|k: int| 0 <= k < parts.len() ==> #[trigger] parts[k].len() > 0 {
        Some(parts)
    } else {
        None
    }
}

/// The commas before `i` are the first of those before any later `j`.
proof fn lemma_commas_prefix(s: Seq<char>, i: int, j: int)
    requires
        0 <= i <= j,
    ensures
        commas_before(s, i).len() <= commas_before(s, j).len(),
        commas_before(s, j).take(commas_before(s, i).len() as int) == commas_before(s, i),
    decreases j,
{
    if j > i {
        lemma_commas_prefix(s, i, j - 1);
        let a = commas_before(s, i);
        let b = commas_before(s, j - 1);
        if top_comma(s, j - 1) {
            assert(b.push(j - 1).take(a.len() as int) =~= b.take(a.len() as int));
        }
    } else {
        assert(commas_before(s, i).take(commas_before(s, i).len() as int) =~= commas_before(s, i));
    }
}

/// Splits the selector list `s` at its top-level commas; each part trimmed and none empty.
pub fn split_selector_list(s: &Vec<char>) -> (r: Result<Vec<String>, ()>)
    ensures
        match r {
            Ok(parts) => split_list(s@) == Some(parts@.map_values(|p: String| p@)),
            Err(()) => split_list(s@) is None,
        },
{
    let n = s.len();
    let mut parts: Vec<String> = Vec::new();
    let mut quote: Option<char> = None;
    let mut bd: usize = 0;
    let mut pd: usize = 0;
    let mut start: usize = 0;
    let mut i: usize = 0;
    proof {
        assert(s@.take(0) =~= Seq::<char>::empty());
    }
    while i < n
        invariant
            n == s@.len(),
            start <= i <= n,
            bd <= i,
            pd <= i,
            nesting(s@.take(i as int)) == (quote, bd as nat, pd as nat),
            parts@.len() == commas_before(s@, i as int).len(),
            start == (if commas_before(s@, i as int).len() == 0 { 0 } else { commas_before(s@, i as int).last() + 1 }),
            forall|k: int| 0 <= k < parts@.len() ==> #[trigger] parts@[k]@ == list_part(s@, commas_before(s@, i as int), k),
            forall|k: int| 0 <= k < parts@.len() ==> (#[trigger] parts@[k])@.len() > 0,
            forall|k: int| 0 <= k < commas_before(s@, i as int).len() ==> #[trigger] commas_before(s@, i as int)[k] < i,
        decreases n - i,
    {
        let c = s[i];
        let ghost cs = commas_before(s@, i as int);
        proof {
            assert(s@.take(i as int + 1).drop_last() =~= s@.take(i as int));
            assert(s@.take(i as int + 1).last() == s@[i as int]);
        }
        if quote.is_some() {
            if Some(c) == quote {
                quote = None;
            }
        } else if c == '"' || c == '\'' {
            quote = Some(c);
        } else if c == '[' {
            bd += 1;
        } else if c == ']' {
            if bd > 0 {
                bd -= 1;
            }
        } else if c == '(' && bd == 0 {
            pd += 1;
        } else if c == ')' && bd == 0 {
            if pd > 0 {
                pd -= 1;
            }
        } else if c == ',' && bd == 0 && pd == 0 {
            let sub = string_from_range(s, start, i);
            let part = crate::text::trim(sub.as_str());
            proof {
                assert(top_comma(s@, i as int));
                assert(commas_before(s@, i as int + 1) == cs.push(i as int));
                assert(part@ == list_part(s@, cs.push(i as int), cs.len() as int));
            }
            if part.as_str().unicode_len() == 0 {
                proof {
                    let all = commas_before(s@, n as int);
                    lemma_commas_prefix(s@, i as int + 1, n as int);
                    assert(all.take(cs.len() + 1int) == cs.push(i as int));
                    assert(all[cs.len() as int] == i as int);
                    if cs.len() > 0 {
                        assert(all[cs.len() - 1] == cs[cs.len() - 1]);
                    }
                    assert(list_part(s@, all, cs.len() as int) == part@);
                    let whole = Seq::new((all.len() + 1) as nat, |k: int| list_part(s@, all, k));
                    assert(whole[cs.len() as int].len() == 0);
                }
                return Err(());
            }
            parts.push(part);
            proof {
                let c2 = cs.push(i as int);
                assert forall|k: int| 0 <= k < parts@.len() implies #[trigger] parts@[k]@ == list_part(s@, c2, k) by {
                    if k < cs.len() {
                        assert(c2[k] == cs[k]);
                        if k > 0 {
                            assert(c2[k - 1] == cs[k - 1]);
                        }
                    }
                }
            }
            start = i + 1;
        }
        i += 1;
    }
    proof {
        assert(s@.take(n as int) =~= s@);
    }
    let ghost all = commas_before(s@, n as int);
    let ghost whole = Seq::new((all.len() + 1) as nat, |k: int| list_part(s@, all, k));
    if quote.is_some() || bd != 0 || pd != 0 {
        return Err(());
    }
    let sub = string_from_range(s, start, n);
    let part = crate::text::trim(sub.as_str());
    proof {
        assert(part@ == list_part(s@, all, all.len() as int));
    }
    if part.as_str().unicode_len() == 0 {
        proof {
            assert(whole[all.len() as int].len() == 0);
        }
        return Err(());
    }
    parts.push(part);
    proof {
        assert(parts@.map_values(|p: String| p@) =~= whole);
    }
    Ok(parts)
}


/// What one selector becomes in a round of alias expansion, and whether it changed.
pub open spec fn expand_one(sel: Seq<char>) -> Option<(Seq<Seq<char>>, bool)> {
    match alias_scan(sel, 0, None, 0, 0) {
        None => None,
        Some(None) => Some((seq![sel], false)),
        Some(Some((a, b, inner))) => match split_list(inner) {
            None => None,
            Some(branches) => Some((branches.map_values(|br: Seq<char>| sel.take(a) + br + sel.skip(b)), true)),
        },
    }
}

/// A round of alias expansion over a list of selectors, and whether any changed.
pub open spec fn expand_round(list: Seq<Seq<char>>) -> Option<(Seq<Seq<char>>, bool)>
    decreases list.len(),
{
    if list.len() == 0 {
        Some((Seq::empty(), false))
    } else {
        match expand_round(list.drop_last()) {
            None => None,
            Some((l, ch)) => match expand_one(list.last()) {
                None => None,
                Some((m, c2)) => Some((l + m, ch || c2)),
            },
        }
    }
}

/// The strings of `list` joined by `sep`.
pub open spec fn join(list: Seq<Seq<char>>, sep: Seq<char>) -> Seq<char>
    decreases list.len(),
{
    if list.len() == 0 {
        Seq::empty()
    } else if list.len() == 1 {
        list[0]
    } else {
        join(list.drop_last(), sep) + sep + list.last()
    }
}

/// Alias expansion from `list` with `rounds` rounds left: the selector list once a round
/// changes nothing (`orig` when none ever did), or `None` when refused or out of rounds.
pub open spec fn expand_rounds(orig: Seq<char>, list: Seq<Seq<char>>, rounds: nat, changed: bool) -> Option<Seq<char>>
    decreases rounds,
{
    if rounds == 0 {
        None
    } else {
        match expand_round(list) {
            None => None,
            Some((l2, ch)) => if !ch {
                Some(if changed { join(l2, ", "@) } else { orig })
            } else {
                expand_rounds(orig, l2, (rounds - 1) as nat, true)
            },
        }
    }
}

/// `s` with its alias calls (`:is(...)`, `:where(...)`, `:matches(...)`) expanded into a list of
/// selectors, in at most sixteen rounds.
pub open spec fn expanded_selector(s: Seq<char>) -> Option<Seq<char>> {
    expand_rounds(s, seq![s], 16, false)
}

/// What one selector becomes in a round of alias expansion, and whether it changed.
fn expand_one_exec(sel: &String) -> (r: Result<(Vec<String>, bool), ()>)
    ensures
        match r {
            Ok((v, ch)) => expand_one(sel@) == Some((v@.map_values(|x: String| x@), ch)),
            Err(()) => expand_one(sel@) is None,
        },
{
    let s = crate::text::chars_of(sel.as_str());
    match find_selector_alias_call(&s) {
        Err(()) => Err(()),
        Ok(None) => {
            let mut v: Vec<String> = Vec::new();
            v.push(sel.clone());
            proof {
                assert(v@.map_values(|x: String| x@) =~= seq![sel@]);
            }
            Ok((v, false))
        },
        Ok(Some((start, end, inner))) => {
            let inner_chars = crate::text::chars_of(inner.as_str());
            let branches = match split_selector_list(&inner_chars) {
                Ok(b) => b,
                Err(()) => {
                    return Err(());
                },
            };
            let ghost bv = branches@.map_values(|p: String| p@);
            let mut out: Vec<String> = Vec::new();
            let mut k: usize = 0;
            while k < branches.len()
                invariant
                    k <= branches@.len(),
                    s@ == sel@,
                    start < end <= s@.len(),
                    bv == branches@.map_values(|p: String| p@),
                    out@.len() == k,
                    out@.map_values(|x: String| x@) == bv.take(k as int).map_values(|br: Seq<char>| sel@.take(start as int) + br + sel@.skip(end as int)),
                decreases branches@.len() - k,
            {
                let mut next = string_from_range(&s, 0, start);
                crate::text::push_str(&mut next, branches[k].as_str());
                let rest = string_from_range(&s, end, s.len());
                crate::text::push_str(&mut next, rest.as_str());
                let ghost before = out@.map_values(|x: String| x@);
                proof {
                    assert(next@ == s@.subrange(0, start as int) + branches@[k as int]@ + s@.subrange(end as int, s@.len() as int));
                }
                out.push(next);
                proof {
                    assert(s@.subrange(0, start as int) =~= sel@.take(start as int));
                    assert(s@.subrange(end as int, s@.len() as int) =~= sel@.skip(end as int));
                    assert(bv[k as int] == branches@[k as int]@);
                    let f = |br: Seq<char>| sel@.take(start as int) + br + sel@.skip(end as int);
                    assert(out@[k as int]@ == f(bv[k as int]));
                    assert(out@.map_values(|x: String| x@) =~= before.push(f(bv[k as int])));
                    assert(bv.take(k as int + 1).map_values(f) =~= bv.take(k as int).map_values(f).push(f(bv[k as int])));
                    assert(out@.map_values(|x: String| x@) =~= bv.take(k as int + 1).map_values(|br: Seq<char>| sel@.take(start as int) + br + sel@.skip(end as int)));
                }
                k += 1;
            }
            proof {
                assert(bv.take(branches@.len() as int) =~= bv);
            }
            Ok((out, true))
        },
    }
}

/// A round of alias expansion over `list`, and whether any selector changed.
fn expand_round_exec(list: &Vec<String>) -> (r: Result<(Vec<String>, bool), ()>)
    ensures
        match r {
            Ok((v, ch)) => expand_round(list@.map_values(|x: String| x@)) == Some((v@.map_values(|x: String| x@), ch)),
            Err(()) => expand_round(list@.map_values(|x: String| x@)) is None,
        },
{
    let ghost lv = list@.map_values(|x: String| x@);
    let mut out: Vec<String> = Vec::new();
    let mut changed = false;
    let mut k: usize = 0;
    proof {
        assert(lv.take(0) =~= Seq::<Seq<char>>::empty());
        assert(out@.map_values(|x: String| x@) =~= Seq::<Seq<char>>::empty());
    }
    while k < list.len()
        invariant
            k <= list@.len(),
            lv == list@.map_values(|x: String| x@),
            expand_round(lv.take(k as int)) == Some((out@.map_values(|x: String| x@), changed)),
        decreases list@.len() - k,
    {
        proof {
            assert(lv.take(k as int + 1).drop_last() =~= lv.take(k as int));
            assert(lv.take(k as int + 1).last() == list@[k as int]@);
        }
        match expand_one_exec(&list[k]) {
            Err(()) => {
                proof {
                    assert(expand_round(lv.take(k as int + 1)) is None);
                    lemma_expand_round_prefix_err(lv, k as int + 1);
                }
                return Err(());
            },
            Ok((mut v, ch)) => {
                let ghost before = out@.map_values(|x: String| x@);
                let ghost added = v@.map_values(|x: String| x@);
                out.append(&mut v);
                proof {
                    assert(out@.map_values(|x: String| x@) =~= before + added);
                }
                changed = changed || ch;
            },
        }
        k += 1;
    }
    proof {
        assert(lv.take(list@.len() as int) =~= lv);
    }
    Ok((out, changed))
}

/// Once a prefix of a list is refused, the whole list is.
proof fn lemma_expand_round_prefix_err(l: Seq<Seq<char>>, k: int)
    requires
        0 <= k <= l.len(),
        expand_round(l.take(k)) is None,
    ensures
        expand_round(l) is None,
    decreases l.len() - k,
{
    if k < l.len() {
        assert(l.take(k + 1).drop_last() =~= l.take(k));
        lemma_expand_round_prefix_err(l, k + 1);
    } else {
        assert(l.take(k) =~= l);
    }
}

/// The strings of `list` joined by `sep`.
pub fn join_strings(list: &Vec<String>, sep: &str) -> (out: String)
    ensures
        out@ == join(list@.map_values(|x: String| x@), sep@),
{
    let ghost lv = list@.map_values(|x: String| x@);
    let mut out = String::new();
    let mut k: usize = 0;
    while k < list.len()
        invariant
            k <= list@.len(),
            lv == list@.map_values(|x: String| x@),
            out@ == join(lv.take(k as int), sep@),
        decreases list@.len() - k,
    {
        if k > 0 {
            crate::text::push_str(&mut out, sep);
        }
        crate::text::push_str(&mut out, list[k].as_str());
        proof {
            assert(lv.take(k as int + 1).drop_last() =~= lv.take(k as int));
            if k == 0 {
                assert(lv.take(1)[0] == lv[0]);
                assert(out@ =~= lv.take(1)[0]);
            }
        }
        k += 1;
    }
    proof {
        assert(lv.take(list@.len() as int) =~= lv);
    }
    out
}

/// Expands the alias calls of `selector` (`:is(...)`, `:where(...)`, `:matches(...)`) into a
/// list of selectors joined by `, `; refused when a call is malformed or expansion takes more
/// than sixteen rounds.
pub fn expand_selector_aliases(selector: &str) -> (r: Result<String, ()>)
    ensures
        match r {
            Ok(s) => expanded_selector(selector@) == Some(s@),
            Err(()) => expanded_selector(selector@) is None,
        },
{
    let first = crate::text::string_from_chars(&crate::text::chars_of(selector));
    let mut selectors: Vec<String> = Vec::new();
    selectors.push(first);
    let mut changed = false;
    let mut round: usize = 0;
    proof {
        assert(selectors@.map_values(|x: String| x@) =~= seq![selector@]);
    }
    while round < 16
        invariant
            round <= 16,
            expanded_selector(selector@) == expand_rounds(selector@, selectors@.map_values(|x: String| x@), (16 - round) as nat, changed),
        decreases 16 - round,
    {
        let (expanded, changed_this_round) = match expand_round_exec(&selectors) {
            Ok(p) => p,
            Err(()) => {
                return Err(());
            },
        };
        selectors = expanded;
        if changed_this_round {
            changed = true;
        } else {
            if changed {
                return Ok(join_strings(&selectors, ", "));
            } else {
                return Ok(crate::text::string_from_chars(&crate::text::chars_of(selector)));
            }
        }
        round += 1;
    }
    Err(())
}


/// Whether `needle` occurs in `hay`.
pub open spec fn occurs_in(hay: Seq<char>, needle: Seq<char>) -> bool {
    exists|i: int| 0 <= i && i + needle.len() <= hay.len() && #[trigger] hay.subrange(i, i + needle.len()) == needle
}

/// Whether `needle` occurs in `hay`.
pub fn str_contains(hay: &str, needle: &str) -> (r: bool)
    ensures
        r == occurs_in(hay@, needle@),
{
    let h = crate::text::chars_of(hay);
    let nd = crate::text::chars_of(needle);
    let n = h.len();
    let m = nd.len();
    if m > n {
        return false;
    }
    let mut i: usize = 0;
    loop
        invariant
            n == h@.len(),
            m == nd@.len(),
            m <= n,
            h@ == hay@,
            nd@ == needle@,
            i <= n - m,
            forall|k: int| 0 <= k < i ==> #[trigger] h@.subrange(k, k + m) != nd@,
        decreases n - m - i,
    {
        if starts_with_at(&h, i, &nd) {
            return true;
        }
        if i == n - m {
            proof {
                assert forall|k: int| 0 <= k && k + needle@.len() <= hay@.len() implies #[trigger] hay@.subrange(k, k + needle@.len()) != needle@ by {
                    assert(k <= i);
                }
            }
            return false;
        }
        i += 1;
    }
}

impl ContainsFilter {
    /// Whether the text of node `id` holds one of the strings.
    pub fn matches(&self, document: &crate::dom::Document, id: crate::dom::NodeId) -> (r: bool)
        requires
            document.wf(),
            document.valid(id),
        ensures
            r == exists|k: int| 0 <= k < self.needles@.len() && occurs_in(
                document.text_state((Seq::empty(), true), id, id, document.plain_text_options(id), ""@, false).0,
                #[trigger] self.needles@[k]@,
            ),
    {
        let text = document.text(id, "", false);
        let ghost t = document.text_state((Seq::empty(), true), id, id, document.plain_text_options(id), ""@, false).0;
        let mut k: usize = 0;
        while k < self.needles.len()
            invariant
                k <= self.needles@.len(),
                text@ == t,
                t == document.text_state((Seq::empty(), true), id, id, document.plain_text_options(id), ""@, false).0,
                forall|j: int| 0 <= j < k ==> !occurs_in(t, #[trigger] self.needles@[j]@),
            decreases self.needles@.len() - k,
        {
            if str_contains(text.as_str(), self.needles[k].as_str()) {
                proof {
                    assert(occurs_in(t, self.needles@[k as int]@));
                }
                return true;
            }
            k += 1;
        }
        false
    }
}

/// How the inner selector of a `:has()` is matched against an element.
pub enum InnerSelector {
    /// A `>` with nothing after it: no element matches.
    Nothing,
    /// A `>` and a selector: some child element of the element must match the selector.
    Children(String),
    /// Any other selector: some node below the element must match it.
    Descendants(String),
}

/// What an `InnerSelector` holds.
pub enum InnerSelectorView {
    Nothing,
    Children(Seq<char>),
    Descendants(Seq<char>),
}

impl View for InnerSelector {
    type V = InnerSelectorView;

    open spec fn view(&self) -> InnerSelectorView {
        match self {
            InnerSelector::Nothing => InnerSelectorView::Nothing,
            InnerSelector::Children(s) => InnerSelectorView::Children(s@),
            InnerSelector::Descendants(s) => InnerSelectorView::Descendants(s@),
        }
    }
}

/// How `inner` is matched: trimmed, a leading `>` asks for a child matching the trimmed
/// rest; otherwise `inner`, as it stands, is matched below.
pub open spec fn inner_selector_of(inner: Seq<char>) -> InnerSelectorView {
    let t = trimmed(inner);
    if t.len() > 0 && t[0] == '>' {
        let rest = trimmed(t.drop_first());
        if rest.len() == 0 {
            InnerSelectorView::Nothing
        } else {
            InnerSelectorView::Children(rest)
        }
    } else {
        InnerSelectorView::Descendants(inner)
    }
}

/// How the inner selector `inner` of a `:has()` is matched.
pub fn classify_inner_selector(inner: &str) -> (r: InnerSelector)
    ensures
        r@ == inner_selector_of(inner@),
{
    let t = crate::text::trim(inner);
    let chars = crate::text::chars_of(t.as_str());
    if chars.len() > 0 && chars[0] == '>' {
        let tail = crate::matcher::range_vec(&chars, 1, chars.len());
        proof {
            assert(tail@ =~= chars@.drop_first());
        }
        let (a, b) = crate::text::trim_bounds(&tail);
        if a == b {
            InnerSelector::Nothing
        } else {
            InnerSelector::Children(string_from_range(&tail, a, b))
        }
    } else {
        InnerSelector::Descendants(inner.to_string())
    }
}

} // verus!
