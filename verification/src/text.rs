use vstd::prelude::*;

verus! {

/// Whether `a` and `b` hold the same characters.
pub fn str_eq(a: &str, b: &str) -> (r: bool)
    ensures
        r == (a@ == b@),
{
    let x = chars_of(a);
    let y = chars_of(b);
    if x.len() != y.len() {
        return false;
    }
    let mut i: usize = 0;
    while i < x.len()
        invariant
            x@ == a@,
            y@ == b@,
            x@.len() == y@.len(),
            i <= x@.len(),
            forall|j: int| 0 <= j < i ==> x@[j] == y@[j],
        decreases x@.len() - i,
    {
        if x[i] != y[i] {
            return false;
        }
        i += 1;
    }
    proof {
        assert(x@ =~= y@);
    }
    true
}

/// Appends `c` to `out`: `String::push` from std, which adds the character at the end.
#[verifier::external_body]
pub fn push_char(out: &mut String, c: char)
    ensures
        final(out)@ == old(out)@.push(c),
{
    out.push(c)
}

/// Appends `s` to `out`.
pub fn push_str(out: &mut String, s: &str)
    ensures
        final(out)@ == old(out)@ + s@,
{
    out.append(s);
}

/// The characters of `s`, in order.
pub fn chars_of(s: &str) -> (out: Vec<char>)
    ensures
        out@ == s@,
{
    let mut out: Vec<char> = Vec::new();
    for c in it: s.chars()
        invariant
            out@ == it.seq().take(it.index() as int),
    {
        out.push(c);
    }
    out
}

/// The string made of `chars[from..to]`.
pub fn string_from_range(chars: &Vec<char>, from: usize, to: usize) -> (out: String)
    requires
        from <= to <= chars@.len(),
    ensures
        out@ == chars@.subrange(from as int, to as int),
{
    let mut out = String::new();
    let mut i = from;
    while i < to
        invariant
            from <= i <= to <= chars@.len(),
            out@ == chars@.subrange(from as int, i as int),
        decreases to - i,
    {
        push_char(&mut out, chars[i]);
        i += 1;
        proof {
            assert(out@ =~= chars@.subrange(from as int, i as int));
        }
    }
    out
}

/// The string made of all of `chars`.
pub fn string_from_chars(chars: &Vec<char>) -> (out: String)
    ensures
        out@ == chars@,
{
    let out = string_from_range(chars, 0, chars.len());
    proof {
        assert(chars@.subrange(0, chars@.len() as int) =~= chars@);
    }
    out
}

/// Unicode's White_Space property, which `char::is_whitespace` and `str::trim` use.
pub open spec fn is_white_space(c: char) -> bool {
    ||| ('\t' <= c && c <= '\r')
    ||| c == ' '
    ||| c == '\u{85}'
    ||| c == '\u{a0}'
    ||| c == '\u{1680}'
    ||| ('\u{2000}' <= c && c <= '\u{200a}')
    ||| c == '\u{2028}'
    ||| c == '\u{2029}'
    ||| c == '\u{202f}'
    ||| c == '\u{205f}'
    ||| c == '\u{3000}'
}

/// Whether `c` is white space in Unicode's sense.
pub fn white_space(c: char) -> (r: bool)
    ensures
        r == is_white_space(c),
{
    ('\t' <= c && c <= '\r') || c == ' ' || c == '\u{85}' || c == '\u{a0}' || c == '\u{1680}'
        || ('\u{2000}' <= c && c <= '\u{200a}') || c == '\u{2028}' || c == '\u{2029}'
        || c == '\u{202f}' || c == '\u{205f}' || c == '\u{3000}'
}

/// The index of the first character at or after `i` that is not white space (`s.len()` if none).
pub open spec fn trim_start_from(s: Seq<char>, i: int) -> int
    decreases s.len() - i,
{
    if i < 0 || i >= s.len() {
        s.len() as int
    } else if is_white_space(s[i]) {
        trim_start_from(s, i + 1)
    } else {
        i
    }
}

/// The end of `s[..j]` with its trailing white space taken off.
pub open spec fn trim_end_to(s: Seq<char>, j: int) -> int
    decreases j,
{
    if j <= 0 || j > s.len() {
        0
    } else if is_white_space(s[j - 1]) {
        trim_end_to(s, j - 1)
    } else {
        j
    }
}

/// `s` without its leading and trailing white space, as `str::trim` gives it.
pub open spec fn trimmed(s: Seq<char>) -> Seq<char> {
    let a = trim_start_from(s, 0);
    let b = trim_end_to(s, s.len() as int);
    if a < b {
        s.subrange(a, b)
    } else {
        Seq::empty()
    }
}

proof fn lemma_trim_start_bounds(s: Seq<char>, i: int)
    requires
        0 <= i <= s.len(),
    ensures
        i <= trim_start_from(s, i) <= s.len(),
    decreases s.len() - i,
{
    if i < s.len() && is_white_space(s[i]) {
        lemma_trim_start_bounds(s, i + 1);
    }
}

proof fn lemma_trim_end_bounds(s: Seq<char>, j: int)
    requires
        0 <= j <= s.len(),
    ensures
        0 <= trim_end_to(s, j) <= j,
    decreases j,
{
    if j > 0 && is_white_space(s[j - 1]) {
        lemma_trim_end_bounds(s, j - 1);
    }
}

/// The bounds `(a, b)` of `chars` with leading and trailing white space taken off.
pub fn trim_bounds(chars: &Vec<char>) -> (r: (usize, usize))
    ensures
        r.0 == trim_start_from(chars@, 0),
        r.1 == (if trim_start_from(chars@, 0) < trim_end_to(chars@, chars@.len() as int) { trim_end_to(chars@, chars@.len() as int) } else { trim_start_from(chars@, 0) }),
        r.0 <= r.1 <= chars@.len(),
        chars@.subrange(r.0 as int, r.1 as int) == trimmed(chars@),
{
    let mut a: usize = 0;
    while a < chars.len() && white_space(chars[a])
        invariant
            a <= chars@.len(),
            trim_start_from(chars@, 0) == trim_start_from(chars@, a as int),
        decreases chars@.len() - a,
    {
        a += 1;
    }
    let mut b: usize = chars.len();
    while b > 0 && white_space(chars[b - 1])
        invariant
            b <= chars@.len(),
            trim_end_to(chars@, chars@.len() as int) == trim_end_to(chars@, b as int),
        decreases b,
    {
        b -= 1;
    }
    proof {
        lemma_trim_start_bounds(chars@, 0);
        lemma_trim_end_bounds(chars@, chars@.len() as int);
    }
    if a < b {
        (a, b)
    } else {
        proof {
            assert(chars@.subrange(a as int, a as int) =~= Seq::<char>::empty());
        }
        (a, a)
    }
}

/// `s` with leading and trailing white space taken off.
pub fn trim(s: &str) -> (out: String)
    ensures
        out@ == trimmed(s@),
{
    let chars = chars_of(s);
    let (a, b) = trim_bounds(&chars);
    string_from_range(&chars, a, b)
}

/// What `c` becomes in escaped text.
pub open spec fn text_escape_of(c: char) -> Seq<char> {
    if c == '&' {
        seq!['&', 'a', 'm', 'p', ';']
    } else if c == '<' {
        seq!['&', 'l', 't', ';']
    } else if c == '>' {
        seq!['&', 'g', 't', ';']
    } else {
        seq![c]
    }
}

/// What `c` becomes in an escaped attribute value.
pub open spec fn attr_escape_of(c: char) -> Seq<char> {
    if c == '"' {
        seq!['&', 'q', 'u', 'o', 't', ';']
    } else {
        text_escape_of(c)
    }
}

/// `s` with `&`, `<` and `>` escaped.
pub open spec fn escaped_text(s: Seq<char>) -> Seq<char>
    decreases s.len(),
{
    if s.len() == 0 {
        Seq::empty()
    } else {
        escaped_text(s.drop_last()) + text_escape_of(s.last())
    }
}

/// `s` with `&`, `"`, `<` and `>` escaped.
pub open spec fn escaped_attr(s: Seq<char>) -> Seq<char>
    decreases s.len(),
{
    if s.len() == 0 {
        Seq::empty()
    } else {
        escaped_attr(s.drop_last()) + attr_escape_of(s.last())
    }
}

fn push_entity_amp(out: &mut String)
    ensures
        final(out)@ == old(out)@ + seq!['&', 'a', 'm', 'p', ';'],
{
    push_char(out, '&');
    push_char(out, 'a');
    push_char(out, 'm');
    push_char(out, 'p');
    push_char(out, ';');
    proof {
        assert(out@ =~= old(out)@ + seq!['&', 'a', 'm', 'p', ';']);
    }
}

fn push_entity_lt_gt(out: &mut String, c: char)
    requires
        c == 'l' || c == 'g',
    ensures
        final(out)@ == old(out)@ + seq!['&', c, 't', ';'],
{
    push_char(out, '&');
    push_char(out, c);
    push_char(out, 't');
    push_char(out, ';');
    proof {
        assert(out@ =~= old(out)@ + seq!['&', c, 't', ';']);
    }
}

fn push_entity_quot(out: &mut String)
    ensures
        final(out)@ == old(out)@ + seq!['&', 'q', 'u', 'o', 't', ';'],
{
    push_char(out, '&');
    push_char(out, 'q');
    push_char(out, 'u');
    push_char(out, 'o');
    push_char(out, 't');
    push_char(out, ';');
    proof {
        assert(out@ =~= old(out)@ + seq!['&', 'q', 'u', 'o', 't', ';']);
    }
}

/// Appends `input` to `out` with `&`, `<` and `>` escaped as entities.
pub fn escape_text(input: &str, out: &mut String)
    ensures
        final(out)@ == old(out)@ + escaped_text(input@),
{
    let chars = chars_of(input);
    let mut i: usize = 0;
    while i < chars.len()
        invariant
            i <= chars@.len(),
            chars@ == input@,
            out@ == old(out)@ + escaped_text(chars@.take(i as int)),
        decreases chars@.len() - i,
    {
        let c = chars[i];
        if c == '&' {
            push_entity_amp(out);
        } else if c == '<' {
            push_entity_lt_gt(out, 'l');
        } else if c == '>' {
            push_entity_lt_gt(out, 'g');
        } else {
            push_char(out, c);
        }
        proof {
            assert(chars@.take(i as int + 1).drop_last() =~= chars@.take(i as int));
            assert(out@ =~= old(out)@ + escaped_text(chars@.take(i as int + 1)));
        }
        i += 1;
    }
    proof {
        assert(chars@.take(chars@.len() as int) =~= chars@);
    }
}

/// Appends `input` to `out` with `&`, `"`, `<` and `>` escaped as entities.
pub fn escape_attr(input: &str, out: &mut String)
    ensures
        final(out)@ == old(out)@ + escaped_attr(input@),
{
    let chars = chars_of(input);
    let mut i: usize = 0;
    while i < chars.len()
        invariant
            i <= chars@.len(),
            chars@ == input@,
            out@ == old(out)@ + escaped_attr(chars@.take(i as int)),
        decreases chars@.len() - i,
    {
        let c = chars[i];
        if c == '&' {
            push_entity_amp(out);
        } else if c == '"' {
            push_entity_quot(out);
        } else if c == '<' {
            push_entity_lt_gt(out, 'l');
        } else if c == '>' {
            push_entity_lt_gt(out, 'g');
        } else {
            push_char(out, c);
        }
        proof {
            assert(chars@.take(i as int + 1).drop_last() =~= chars@.take(i as int));
            assert(out@ =~= old(out)@ + escaped_attr(chars@.take(i as int + 1)));
        }
        i += 1;
    }
    proof {
        assert(chars@.take(chars@.len() as int) =~= chars@);
    }
}


/// What `push_string_value` adds for `text`: `text`, trimmed when `strip` is set.
pub open spec fn string_value(text: Seq<char>, strip: bool) -> Seq<char> {
    if strip {
        trimmed(text)
    } else {
        text
    }
}

/// The state of a run of `push_string_value` calls: what was written, and whether no value was yet.
pub open spec fn pushed(state: (Seq<char>, bool), text: Seq<char>, separator: Seq<char>, strip: bool) -> (Seq<char>, bool) {
    let v = string_value(text, strip);
    if v.len() == 0 {
        state
    } else if state.1 {
        (state.0 + v, false)
    } else {
        (state.0 + separator + v, false)
    }
}

/// Appends the value of `text` (trimmed when `strip` is set) unless it is empty, preceded by
/// `separator` unless it is the first value appended; `first` records whether none was yet.
pub fn push_string_value(text: &str, separator: &str, strip: bool, first: &mut bool, out: &mut String)
    ensures
        (final(out)@, *final(first)) == pushed((old(out)@, *old(first)), text@, separator@, strip),
{
    let value = if strip {
        trim(text)
    } else {
        let chars = chars_of(text);
        string_from_chars(&chars)
    };
    if value.as_str().unicode_len() > 0 {
        if *first {
            *first = false;
        } else {
            push_str(out, separator);
        }
        push_str(out, value.as_str());
    }
}

/// The names of the void elements, which have no end tag.
pub open spec fn is_void_name(name: Seq<char>) -> bool {
    ||| name == "area"@
    ||| name == "base"@
    ||| name == "br"@
    ||| name == "col"@
    ||| name == "embed"@
    ||| name == "hr"@
    ||| name == "img"@
    ||| name == "input"@
    ||| name == "link"@
    ||| name == "meta"@
    ||| name == "param"@
    ||| name == "source"@
    ||| name == "track"@
    ||| name == "wbr"@
}

/// Whether `name` names a void element.
pub fn is_void_element(name: &str) -> (r: bool)
    ensures
        r == is_void_name(name@),
{
    str_eq(name, "area") || str_eq(name, "base") || str_eq(name, "br") || str_eq(name, "col")
        || str_eq(name, "embed") || str_eq(name, "hr") || str_eq(name, "img") || str_eq(
        name,
        "input",
    ) || str_eq(name, "link") || str_eq(name, "meta") || str_eq(name, "param") || str_eq(
        name,
        "source",
    ) || str_eq(name, "track") || str_eq(name, "wbr")
}

/// The names of the raw text elements, whose text is not escaped.
pub open spec fn is_raw_text_name(name: Seq<char>) -> bool {
    name == "script"@ || name == "style"@
}

/// Whether `name` names a raw text element (`script` or `style`).
pub fn is_raw_text_element(name: &str) -> (r: bool)
    ensures
        r == is_raw_text_name(name@),
{
    str_eq(name, "script") || str_eq(name, "style")
}

/// `c` with an ASCII capital letter made small.
pub open spec fn lower_char(c: char) -> char {
    if 'A' <= c && c <= 'Z' {
        ((c as u32) + 32) as char
    } else {
        c
    }
}

/// `c` with an ASCII capital letter made small.
pub fn ascii_lower(c: char) -> (r: char)
    ensures
        r == lower_char(c),
{
    if 'A' <= c && c <= 'Z' {
        (((c as u32) + 32) as u8) as char
    } else {
        c
    }
}

/// Whether `a` and `b` are equal when ASCII letters are compared without case.
pub open spec fn eq_ignoring_ascii_case(a: Seq<char>, b: Seq<char>) -> bool {
    a.len() == b.len() && forall|i: int| 0 <= i < a.len() ==> lower_char(#[trigger] a[i]) == lower_char(b[i])
}

/// Whether `needle` occurs at `i` in `hay`, ASCII letters compared without case.
pub open spec fn matches_at_ignoring_case(hay: Seq<char>, needle: Seq<char>, i: int) -> bool {
    0 <= i && i + needle.len() <= hay.len() && eq_ignoring_ascii_case(hay.subrange(i, i + needle.len()), needle)
}

/// Whether `needle` occurs at `i` in `hay`, ASCII letters compared without case.
fn matches_at(hay: &Vec<char>, needle: &Vec<char>, i: usize) -> (r: bool)
    requires
        i + needle@.len() <= hay@.len(),
    ensures
        r == matches_at_ignoring_case(hay@, needle@, i as int),
{
    let n = hay.len();
    let mut j: usize = 0;
    while j < needle.len()
        invariant
            n == hay@.len(),
            i + needle@.len() <= hay@.len(),
            j <= needle@.len(),
            forall|k: int| 0 <= k < j ==> lower_char(#[trigger] hay@[i + k]) == lower_char(needle@[k]),
        decreases needle@.len() - j,
    {
        if ascii_lower(hay[i + j]) != ascii_lower(needle[j]) {
            proof {
                let w = hay@.subrange(i as int, i + needle@.len());
                assert(w[j as int] == hay@[i + j]);
            }
            return false;
        }
        j += 1;
    }
    proof {
        let w = hay@.subrange(i as int, i + needle@.len());
        assert forall|k: int| 0 <= k < w.len() implies lower_char(#[trigger] w[k]) == lower_char(needle@[k]) by {
            assert(w[k] == hay@[i + k]);
        }
    }
    true
}

/// The first position at which `needle` occurs in `hay`, ASCII letters compared without case.
pub fn find_ascii_case_insensitive(hay: &Vec<char>, needle: &Vec<char>) -> (r: Option<usize>)
    ensures
        match r {
            Some(i) => matches_at_ignoring_case(hay@, needle@, i as int) && forall|k: int| 0 <= k < i ==> !matches_at_ignoring_case(hay@, needle@, k),
            None => forall|k: int| !matches_at_ignoring_case(hay@, needle@, k),
        },
{
    if needle.len() > hay.len() {
        return None;
    }
    let last = hay.len() - needle.len();
    let mut i: usize = 0;
    loop
        invariant
            last == hay@.len() - needle@.len(),
            needle@.len() <= hay@.len(),
            i <= last,
            forall|k: int| 0 <= k < i ==> !matches_at_ignoring_case(hay@, needle@, k),
        decreases last - i,
    {
        if matches_at(hay, needle, i) {
            return Some(i);
        }
        if i == last {
            return None;
        }
        i += 1;
    }
}


/// Whether `i` is the first position at which `needle` occurs in `hay`, ignoring ASCII case.
pub open spec fn first_match_at(hay: Seq<char>, needle: Seq<char>, i: int) -> bool {
    matches_at_ignoring_case(hay, needle, i) && forall|k: int| 0 <= k < i ==> !matches_at_ignoring_case(hay, needle, k)
}

/// The key that introduces a charset in a `content` attribute.
pub open spec fn charset_key() -> Seq<char> {
    seq!['c', 'h', 'a', 'r', 's', 'e', 't', '=']
}

/// The characters that end a charset value in a `content` attribute.
pub open spec fn ends_charset_value(c: char) -> bool {
    c == ';' || c == '"' || c == '\'' || c == ' ' || c == '\t' || c == '\n' || c == '\r' || c == '\x0c'
}

/// The end of the charset value that starts at `i`.
pub open spec fn charset_value_end(s: Seq<char>, i: int) -> int
    decreases s.len() - i,
{
    if i < 0 || i >= s.len() {
        s.len() as int
    } else if ends_charset_value(s[i]) {
        i
    } else {
        charset_value_end(s, i + 1)
    }
}

/// `value` with the charset named after its first `charset=` replaced by `encoding`.
pub open spec fn content_with_charset(value: Seq<char>, k: int, encoding: Seq<char>) -> Seq<char> {
    let start = k + charset_key().len();
    value.take(start) + encoding + value.skip(charset_value_end(value, start))
}

proof fn lemma_charset_value_end(s: Seq<char>, i: int)
    requires
        0 <= i <= s.len(),
    ensures
        i <= charset_value_end(s, i) <= s.len(),
    decreases s.len() - i,
{
    if i < s.len() && !ends_charset_value(s[i]) {
        lemma_charset_value_end(s, i + 1);
    }
}

fn charset_key_chars() -> (key: Vec<char>)
    ensures
        key@ == charset_key(),
{
    let key = vec!['c', 'h', 'a', 'r', 's', 'e', 't', '='];
    proof {
        assert(key@ =~= charset_key());
    }
    key
}

/// Replaces the charset named in a `content` attribute (after its first `charset=`, in any
/// case) by `encoding`; `None` when the value names no charset.
pub fn substitute_content_charset(value: &str, encoding: &str) -> (r: Option<String>)
    ensures
        match r {
            Some(out) => exists|k: int| first_match_at(value@, charset_key(), k) && out@ == content_with_charset(value@, k, encoding@),
            None => forall|k: int| !matches_at_ignoring_case(value@, charset_key(), k),
        },
{
    let chars = chars_of(value);
    let key = charset_key_chars();
    let index = match find_ascii_case_insensitive(&chars, &key) {
        Some(index) => index,
        None => {
            return None;
        },
    };
    let n = chars.len();
    proof {
        assert(key@.len() == 8);
        assert(index + 8 <= n);
    }
    let start = index + 8;
    let mut end = start;
    while end < chars.len() && !(chars[end] == ';' || chars[end] == '"' || chars[end] == '\''
        || chars[end] == ' ' || chars[end] == '\t' || chars[end] == '\n' || chars[end] == '\r'
        || chars[end] == '\x0c')
        invariant
            start <= end <= chars@.len(),
            charset_value_end(chars@, start as int) == charset_value_end(chars@, end as int),
        decreases chars@.len() - end,
    {
        end += 1;
    }
    let mut out = string_from_range(&chars, 0, start);
    push_str(&mut out, encoding);
    let rest = string_from_range(&chars, end, chars.len());
    push_str(&mut out, rest.as_str());
    proof {
        assert(chars@.subrange(0, start as int) =~= chars@.take(start as int));
        assert(chars@.subrange(end as int, chars@.len() as int) =~= chars@.skip(end as int));
        assert(first_match_at(value@, charset_key(), index as int));
    }
    Some(out)
}

/// What an attribute value becomes when the document is written for `encoding`: a `meta`
/// element's `charset`, and the charset in the `content` of a content-type `meta`, name it.
pub fn substitute_meta_charset_attr(
    tag_name: &str,
    attr_name: &str,
    value: &str,
    is_content_type_meta: bool,
    encoding: &str,
) -> (r: Option<String>)
    ensures
        tag_name@ != "meta"@ ==> r is None,
        tag_name@ == "meta"@ && attr_name@ == "charset"@ ==> r == Some(r->0) && r->0@ == encoding@,
        tag_name@ == "meta"@ && attr_name@ != "charset"@ && !(attr_name@ == "content"@ && is_content_type_meta) ==> r is None,
        tag_name@ == "meta"@ && attr_name@ != "charset"@ && attr_name@ == "content"@ && is_content_type_meta ==> match r {
            Some(out) => exists|k: int| first_match_at(value@, charset_key(), k) && out@ == content_with_charset(value@, k, encoding@),
            None => forall|k: int| !matches_at_ignoring_case(value@, charset_key(), k),
        },
{
    if !str_eq(tag_name, "meta") {
        return None;
    }
    if str_eq(attr_name, "charset") {
        let chars = chars_of(encoding);
        return Some(string_from_chars(&chars));
    }
    if str_eq(attr_name, "content") && is_content_type_meta {
        return substitute_content_charset(value, encoding);
    }
    None
}

} // verus!
