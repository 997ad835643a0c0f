use vstd::prelude::*;
use crate::matcher::{ascii_ws, is_ascii_ws, lower_seq};
use crate::text::{chars_of, lower_char, push_char, push_str, str_eq, string_from_chars, string_from_range};

verus! {

/// Whether `c` is an ASCII letter or digit.
pub open spec fn is_ascii_alnum(c: char) -> bool {
    ('a' <= c && c <= 'z') || ('A' <= c && c <= 'Z') || ('0' <= c && c <= '9')
}

fn ascii_alnum(c: char) -> (r: bool)
    ensures
        r == is_ascii_alnum(c),
{
    ('a' <= c && c <= 'z') || ('A' <= c && c <= 'Z') || ('0' <= c && c <= '9')
}

/// The bounds of `s[from..to]` without leading and trailing ASCII white space.
pub open spec fn ascii_trim_bounds(s: Seq<char>, from: int, to: int) -> (int, int)
    decreases to - from,
{
    if from < to && is_ascii_ws(s[from]) {
        ascii_trim_bounds(s, from + 1, to)
    } else if from < to && is_ascii_ws(s[to - 1]) {
        ascii_trim_bounds(s, from, to - 1)
    } else {
        (from, to)
    }
}

pub proof fn lemma_ascii_trim_bounds(s: Seq<char>, from: int, to: int)
    requires
        0 <= from <= to <= s.len(),
    ensures
        from <= ascii_trim_bounds(s, from, to).0 <= ascii_trim_bounds(s, from, to).1 <= to,
    decreases to - from,
{
    if from < to && is_ascii_ws(s[from]) {
        lemma_ascii_trim_bounds(s, from + 1, to);
    } else if from < to && is_ascii_ws(s[to - 1]) {
        lemma_ascii_trim_bounds(s, from, to - 1);
    }
}

/// The bounds of `s[from..to]` without leading and trailing ASCII white space.
pub fn trim_ascii(s: &Vec<char>, from: usize, to: usize) -> (r: (usize, usize))
    requires
        from <= to <= s@.len(),
    ensures
        (r.0 as int, r.1 as int) == ascii_trim_bounds(s@, from as int, to as int),
        from <= r.0 <= r.1 <= to,
{
    let mut a = from;
    let mut b = to;
    proof {
        lemma_ascii_trim_bounds(s@, from as int, to as int);
    }
    while a < b && ascii_ws(s[a])
        invariant
            from <= a <= b <= to <= s@.len(),
            ascii_trim_bounds(s@, from as int, to as int) == ascii_trim_bounds(s@, a as int, b as int),
        decreases b - a,
    {
        a += 1;
    }
    while a < b && ascii_ws(s[b - 1])
        invariant
            from <= a <= b <= to <= s@.len(),
            !(a < b && is_ascii_ws(s@[a as int])),
            ascii_trim_bounds(s@, from as int, to as int) == ascii_trim_bounds(s@, a as int, b as int),
        decreases b - a,
    {
        b -= 1;
    }
    (a, b)
}

/// The end of `s[from..to]` without trailing ASCII white space.
pub open spec fn ascii_trim_end(s: Seq<char>, from: int, to: int) -> int
    decreases to - from,
{
    if from < to && is_ascii_ws(s[to - 1]) {
        ascii_trim_end(s, from, to - 1)
    } else {
        to
    }
}

/// The end of `s[from..to]` without trailing ASCII white space.
pub fn trim_ascii_end(s: &Vec<char>, from: usize, to: usize) -> (r: usize)
    requires
        from <= to <= s@.len(),
    ensures
        r == ascii_trim_end(s@, from as int, to as int),
        from <= r <= to,
{
    let mut b = to;
    while from < b && ascii_ws(s[b - 1])
        invariant
            from <= b <= to <= s@.len(),
            ascii_trim_end(s@, from as int, to as int) == ascii_trim_end(s@, from as int, b as int),
        decreases b - from,
    {
        b -= 1;
    }
    b
}

/// Where the name at the start of `s[from..to]` ends: at ASCII white space, or at `/` when
/// `slash_terminates` is set.
pub open spec fn name_end(s: Seq<char>, from: int, to: int, slash_terminates: bool) -> int
    decreases to - from,
{
    if from < to && !(is_ascii_ws(s[from]) || (slash_terminates && s[from] == '/')) {
        name_end(s, from + 1, to, slash_terminates)
    } else {
        from
    }
}

/// Where the name at the start of `s[from..to]` ends.
pub fn fast_name_end(s: &Vec<char>, from: usize, to: usize, slash_terminates: bool) -> (r: usize)
    requires
        from <= to <= s@.len(),
    ensures
        r == name_end(s@, from as int, to as int, slash_terminates),
        from <= r <= to,
{
    let mut i = from;
    while i < to && !(ascii_ws(s[i]) || (slash_terminates && s[i] == '/'))
        invariant
            from <= i <= to <= s@.len(),
            name_end(s@, from as int, to as int, slash_terminates) == name_end(s@, i as int, to as int, slash_terminates),
        decreases to - i,
    {
        i += 1;
    }
    i
}

/// The tags that the quick parser leaves to the full one.
pub open spec fn is_fast_unsupported_name(name: Seq<char>) -> bool {
    name == "base"@ || name == "frameset"@ || name == "math"@ || name == "plaintext"@ || name == "xmp"@
}

/// Whether the quick parser leaves a tag named `name` to the full one.
pub fn is_fast_unsupported_tag(name: &str) -> (r: bool)
    ensures
        r == is_fast_unsupported_name(name@),
{
    str_eq(name, "base") || str_eq(name, "frameset") || str_eq(name, "math") || str_eq(name, "plaintext") || str_eq(name, "xmp")
}

/// The tags whose text keeps its white space.
pub open spec fn is_preserve_whitespace_name(name: Seq<char>) -> bool {
    name == "pre"@ || name == "textarea"@ || name == "script"@ || name == "style"@
}

/// Whether text inside a tag named `name` keeps its white space.
pub fn is_preserve_whitespace_tag(name: &str) -> (r: bool)
    ensures
        r == is_preserve_whitespace_name(name@),
{
    str_eq(name, "pre") || str_eq(name, "textarea") || str_eq(name, "script") || str_eq(name, "style")
}

/// Whether `c` may stand in a tag name (beside capital letters, which are made small).
pub open spec fn tag_name_char(c: char) -> bool {
    is_ascii_alnum(c) || c == '-'
}

/// Whether `c` may stand in an attribute name (beside capital letters, which are made small).
pub open spec fn attr_name_char(c: char) -> bool {
    is_ascii_alnum(c) || c == '-' || c == '_' || c == ':' || c == '.' || c == ',' || c == '#' || c == '@'
        || c == '[' || c == ']' || c == '(' || c == ')'
}

/// The name `v` made small, if it is not empty and holds only allowed characters.
pub open spec fn normalized_name(v: Seq<char>, attr: bool) -> Option<Seq<char>> {
    if v.len() > 0 && forall|i: int| 0 <= i < v.len() ==> ('A' <= #[trigger] v[i] && v[i] <= 'Z') || (if attr { attr_name_char(v[i]) } else { tag_name_char(v[i]) }) {
        Some(lower_seq(v))
    } else {
        None
    }
}

/// The name `s[from..to]` made small, if it is not empty and holds only allowed characters
/// (those of attribute names when `attr` is set, of tag names otherwise).
pub fn normalize_fast_name(s: &Vec<char>, from: usize, to: usize, attr: bool) -> (r: Option<String>)
    requires
        from <= to <= s@.len(),
    ensures
        match r {
            Some(n) => normalized_name(s@.subrange(from as int, to as int), attr) == Some(n@),
            None => normalized_name(s@.subrange(from as int, to as int), attr) is None,
        },
{
    let ghost v = s@.subrange(from as int, to as int);
    if from == to {
        return None;
    }
    let mut out = String::new();
    let mut i = from;
    while i < to
        invariant
            from <= i <= to <= s@.len(),
            v == s@.subrange(from as int, to as int),
            out@ == lower_seq(v.take(i - from)),
            forall|k: int| 0 <= k < i - from ==> ('A' <= #[trigger] v[k] && v[k] <= 'Z') || (if attr { attr_name_char(v[k]) } else { tag_name_char(v[k]) }),
        decreases to - i,
    {
        let c = s[i];
        proof {
            assert(v[i - from] == c);
        }
        let ok = ('A' <= c && c <= 'Z') || if attr {
            ascii_alnum(c) || c == '-' || c == '_' || c == ':' || c == '.' || c == ',' || c == '#' || c == '@'
                || c == '[' || c == ']' || c == '(' || c == ')'
        } else {
            ascii_alnum(c) || c == '-'
        };
        if !ok {
            return None;
        }
        push_char(&mut out, crate::text::ascii_lower(c));
        i += 1;
        proof {
            assert(lower_seq(v.take(i - from)) =~= lower_seq(v.take(i - from - 1)).push(lower_char(c)));
        }
    }
    proof {
        assert(v.take(to - from) =~= v);
    }
    Some(out)
}

/// Whether `e` may be an entity reference: not empty, ASCII letters and digits and `#` only.
pub open spec fn entity_like(e: Seq<char>) -> bool {
    e.len() > 0 && forall|i: int| 0 <= i < e.len() ==> is_ascii_alnum(#[trigger] e[i]) || e[i] == '#'
}

/// Whether `s[from..to]` may be an entity reference.
pub fn looks_like_entity_reference(s: &Vec<char>, from: usize, to: usize) -> (r: bool)
    requires
        from <= to <= s@.len(),
    ensures
        r == entity_like(s@.subrange(from as int, to as int)),
{
    let ghost e = s@.subrange(from as int, to as int);
    if from == to {
        return false;
    }
    let mut i = from;
    while i < to
        invariant
            from <= i <= to <= s@.len(),
            e == s@.subrange(from as int, to as int),
            forall|k: int| 0 <= k < i - from ==> is_ascii_alnum(#[trigger] e[k]) || e[k] == '#',
        decreases to - i,
    {
        proof {
            assert(e[i - from] == s@[i as int]);
        }
        if !(ascii_alnum(s[i]) || s[i] == '#') {
            return false;
        }
        i += 1;
    }
    true
}


/// The value of the digit `c` in base `radix` (10 or 16), if it is one.
pub open spec fn digit_value(c: char, radix: nat) -> Option<nat> {
    if '0' <= c && c <= '9' {
        Some((c as nat - '0' as nat) as nat)
    } else if radix == 16 && 'a' <= c && c <= 'f' {
        Some((c as nat - 'a' as nat + 10) as nat)
    } else if radix == 16 && 'A' <= c && c <= 'F' {
        Some((c as nat - 'A' as nat + 10) as nat)
    } else {
        None
    }
}

/// The value of the digits `s` in base `radix`, if they all are digits.
pub open spec fn digits_value(s: Seq<char>, radix: nat) -> Option<nat>
    decreases s.len(),
{
    if s.len() == 0 {
        Some(0)
    } else {
        match (digits_value(s.drop_last(), radix), digit_value(s.last(), radix)) {
            (Some(a), Some(d)) => Some(a * radix + d),
            _ => None,
        }
    }
}

/// What `u32::from_str_radix` reads from `s`: an optional `+` and at least one digit, the value
/// fitting in a `u32`.
pub open spec fn parse_u32(s: Seq<char>, radix: nat) -> Option<nat> {
    let t = if s.len() > 0 && s[0] == '+' { s.drop_first() } else { s };
    if t.len() == 0 {
        None
    } else {
        match digits_value(t, radix) {
            Some(v) => if v <= u32::MAX { Some(v) } else { None },
            None => None,
        }
    }
}

proof fn lemma_digits_grow(s: Seq<char>, radix: nat, i: int)
    requires
        radix >= 1,
        0 <= i <= s.len(),
        digits_value(s.take(i), radix) is Some,
        digits_value(s, radix) is Some,
    ensures
        digits_value(s, radix)->0 >= digits_value(s.take(i), radix)->0,
    decreases s.len() - i,
{
    if i < s.len() {
        let t = s.take(i + 1);
        assert(t.drop_last() =~= s.take(i));
        lemma_digits_prefix_some(s, radix, i + 1);
        lemma_digits_grow(s, radix, i + 1);
        let a = digits_value(s.take(i), radix)->0;
        let b = digits_value(t, radix)->0;
        assert(b >= a) by (nonlinear_arith)
            requires
                b == a * radix + digit_value(t.last(), radix)->0,
                radix >= 1,
        ;
    } else {
        assert(s.take(i) =~= s);
    }
}

proof fn lemma_digits_prefix_some(s: Seq<char>, radix: nat, i: int)
    requires
        0 <= i <= s.len(),
        digits_value(s, radix) is Some,
    ensures
        digits_value(s.take(i), radix) is Some,
    decreases s.len() - i,
{
    if i < s.len() {
        lemma_digits_prefix_some(s, radix, i + 1);
        assert(s.take(i + 1).drop_last() =~= s.take(i));
    } else {
        assert(s.take(i) =~= s);
    }
}

/// Reads `s[from..to]` as an unsigned 32-bit number in base `radix` (10 or 16), as
/// `u32::from_str_radix` does.
pub fn parse_u32_exec(s: &Vec<char>, from: usize, to: usize, radix: u32) -> (r: Option<u32>)
    requires
        from <= to <= s@.len(),
        radix == 10 || radix == 16,
    ensures
        match r {
            Some(v) => parse_u32(s@.subrange(from as int, to as int), radix as nat) == Some(v as nat),
            None => parse_u32(s@.subrange(from as int, to as int), radix as nat) is None,
        },
{
    let ghost whole = s@.subrange(from as int, to as int);
    let mut start = from;
    if start < to && s[start] == '+' {
        start += 1;
    }
    let ghost t = s@.subrange(start as int, to as int);
    proof {
        if from < to && s@[from as int] == '+' {
            assert(whole.drop_first() =~= t);
        } else {
            assert(whole =~= t);
        }
    }
    if start == to {
        return None;
    }
    let mut acc: u64 = 0;
    let mut i = start;
    proof {
        assert(t.take(0) =~= Seq::<char>::empty());
    }
    while i < to
        invariant
            parse_u32(s@.subrange(from as int, to as int), radix as nat) == (match digits_value(t, radix as nat) {
                Some(v) => if v <= u32::MAX { Some(v) } else { None },
                None => None,
            }),
            start <= i <= to <= s@.len(),
            t == s@.subrange(start as int, to as int),
            radix == 10 || radix == 16,
            acc <= u32::MAX,
            digits_value(t.take(i - start), radix as nat) == Some(acc as nat),
        decreases to - i,
    {
        let c = s[i];
        proof {
            assert(t[i - start] == c);
            assert(t.take(i - start + 1).drop_last() =~= t.take(i - start));
            assert(t.take(i - start + 1).last() == c);
        }
        let d: u64 = if '0' <= c && c <= '9' {
            (c as u64) - ('0' as u64)
        } else if radix == 16 && 'a' <= c && c <= 'f' {
            (c as u64) - ('a' as u64) + 10
        } else if radix == 16 && 'A' <= c && c <= 'F' {
            (c as u64) - ('A' as u64) + 10
        } else {
            proof {
                assert(digits_value(t.take(i - start + 1), radix as nat) is None);
                if digits_value(t, radix as nat) is Some {
                    lemma_digits_prefix_some(t, radix as nat, i - start + 1);
                }
            }
            return None;
        };
        proof {
            assert(digit_value(c, radix as nat) == Some(d as nat));
        }
        proof {
            assert(acc * (radix as u64) + d <= 0xffff_ffff * 16 + 15) by (nonlinear_arith)
                requires
                    acc <= 0xffff_ffff,
                    radix <= 16,
                    d <= 15,
            ;
        }
        let next = acc * (radix as u64) + d;
        proof {
            assert(digits_value(t.take(i - start + 1), radix as nat) == Some(next as nat));
        }
        if next > 0xffff_ffff {
            proof {
                if digits_value(t, radix as nat) is Some {
                    lemma_digits_grow(t, radix as nat, i - start + 1);
                }
            }
            return None;
        }
        acc = next;
        i += 1;
    }
    proof {
        assert(t.take(to - start) =~= t);
    }
    Some(acc as u32)
}

/// Whether `v` is the code of a character (a Unicode scalar value).
pub open spec fn is_scalar_value(v: nat) -> bool {
    v <= 0x10FFFF && !(0xD800 <= v && v <= 0xDFFF)
}

/// The character with code `v`, if there is one: `char::from_u32` from std, which gives `None`
/// exactly for surrogates and values past `0x10FFFF`.
#[verifier::external_body]
fn char_from_u32(v: u32) -> (r: Option<char>)
    ensures
        is_scalar_value(v as nat) ==> r == Some(v as char),
        !is_scalar_value(v as nat) ==> r is None,
{
    char::from_u32(v)
}

/// What the named entity `e` stands for, among those the quick parser knows.
pub open spec fn named_entity(e: Seq<char>) -> Option<Seq<char>> {
    if e == "amp"@ { Some("&"@) }
    else if e == "apos"@ { Some("'"@) }
    else if e == "bull"@ { Some("\u{2022}"@) }
    else if e == "copy"@ { Some("\u{00a9}"@) }
    else if e == "equiv"@ { Some("\u{2261}"@) }
    else if e == "fjlig"@ { Some("fj"@) }
    else if e == "gt"@ { Some(">"@) }
    else if e == "hellip"@ { Some("\u{2026}"@) }
    else if e == "le"@ { Some("\u{2264}"@) }
    else if e == "ldquo"@ { Some("\u{201c}"@) }
    else if e == "lsquo"@ { Some("\u{2018}"@) }
    else if e == "lt"@ { Some("<"@) }
    else if e == "mdash"@ { Some("\u{2014}"@) }
    else if e == "middot"@ { Some("\u{00b7}"@) }
    else if e == "nbsp"@ { Some("\u{00a0}"@) }
    else if e == "ndash"@ { Some("\u{2013}"@) }
    else if e == "nvgt"@ { Some(">\u{20d2}"@) }
    else if e == "nvlt"@ { Some("<\u{20d2}"@) }
    else if e == "para"@ { Some("\u{00b6}"@) }
    else if e == "quot"@ { Some("\""@) }
    else if e == "raquo"@ { Some("\u{00bb}"@) }
    else if e == "rdquo"@ { Some("\u{201d}"@) }
    else if e == "rsquo"@ { Some("\u{2019}"@) }
    else if e == "trade"@ { Some("\u{2122}"@) }
    else { None }
}

/// What the entity `e` (between `&` and `;`) stands for: a hexadecimal (`#x`) or decimal (`#`)
/// character reference, or a known name.
pub open spec fn decoded_entity(e: Seq<char>) -> Option<Seq<char>> {
    if e.len() >= 2 && e[0] == '#' && (e[1] == 'x' || e[1] == 'X') {
        match parse_u32(e.skip(2), 16) {
            Some(v) => if is_scalar_value(v) { Some(seq![v as char]) } else { None },
            None => None,
        }
    } else if e.len() >= 1 && e[0] == '#' {
        match parse_u32(e.skip(1), 10) {
            Some(v) => if is_scalar_value(v) { Some(seq![v as char]) } else { None },
            None => None,
        }
    } else {
        named_entity(e)
    }
}

/// The literal for a known entity name.
fn named_entity_value(e: &str) -> (r: Option<&'static str>)
    ensures
        match r {
            Some(v) => named_entity(e@) == Some(v@),
            None => named_entity(e@) is None,
        },
{
    if str_eq(e, "amp") { Some("&") }
    else if str_eq(e, "apos") { Some("'") }
    else if str_eq(e, "bull") { Some("\u{2022}") }
    else if str_eq(e, "copy") { Some("\u{00a9}") }
    else if str_eq(e, "equiv") { Some("\u{2261}") }
    else if str_eq(e, "fjlig") { Some("fj") }
    else if str_eq(e, "gt") { Some(">") }
    else if str_eq(e, "hellip") { Some("\u{2026}") }
    else if str_eq(e, "le") { Some("\u{2264}") }
    else if str_eq(e, "ldquo") { Some("\u{201c}") }
    else if str_eq(e, "lsquo") { Some("\u{2018}") }
    else if str_eq(e, "lt") { Some("<") }
    else if str_eq(e, "mdash") { Some("\u{2014}") }
    else if str_eq(e, "middot") { Some("\u{00b7}") }
    else if str_eq(e, "nbsp") { Some("\u{00a0}") }
    else if str_eq(e, "ndash") { Some("\u{2013}") }
    else if str_eq(e, "nvgt") { Some(">\u{20d2}") }
    else if str_eq(e, "nvlt") { Some("<\u{20d2}") }
    else if str_eq(e, "para") { Some("\u{00b6}") }
    else if str_eq(e, "quot") { Some("\"") }
    else if str_eq(e, "raquo") { Some("\u{00bb}") }
    else if str_eq(e, "rdquo") { Some("\u{201d}") }
    else if str_eq(e, "rsquo") { Some("\u{2019}") }
    else if str_eq(e, "trade") { Some("\u{2122}") }
    else { None }
}

/// Appends what the entity `s[from..to]` stands for; `None` (and nothing appended) when it
/// stands for nothing.
pub fn push_decoded_entity(s: &Vec<char>, from: usize, to: usize, out: &mut String) -> (r: Option<()>)
    requires
        from <= to <= s@.len(),
    ensures
        match decoded_entity(s@.subrange(from as int, to as int)) {
            Some(d) => r is Some && final(out)@ == old(out)@ + d,
            None => r is None && final(out)@ == old(out)@,
        },
{
    let ghost e = s@.subrange(from as int, to as int);
    if to - from >= 2 && s[from] == '#' && (s[from + 1] == 'x' || s[from + 1] == 'X') {
        proof {
            assert(e.skip(2) =~= s@.subrange(from + 2, to as int));
        }
        let v = parse_u32_exec(s, from + 2, to, 16)?;
        let c = char_from_u32(v)?;
        push_char(out, c);
        proof {
            assert(out@ =~= old(out)@ + seq![c]);
        }
        return Some(());
    }
    if to - from >= 1 && s[from] == '#' {
        proof {
            assert(e.skip(1) =~= s@.subrange(from + 1, to as int));
        }
        let v = parse_u32_exec(s, from + 1, to, 10)?;
        let c = char_from_u32(v)?;
        push_char(out, c);
        proof {
            assert(out@ =~= old(out)@ + seq![c]);
        }
        return Some(());
    }
    let name = string_from_range(s, from, to);
    let value = named_entity_value(name.as_str())?;
    push_str(out, value);
    Some(())
}


/// `s[i..]` with its entity references decoded: an `&` without a later `;`, or followed by what
/// cannot be an entity, stays as it is; `None` when a reference stands for nothing.
pub open spec fn decode_from(s: Seq<char>, i: int) -> Option<Seq<char>>
    decreases s.len() - i,
{
    if i < 0 || i >= s.len() {
        Some(Seq::empty())
    } else if s[i] != '&' {
        let next = crate::matcher::find_from(s, i, '&');
        if i < next <= s.len() {
            match decode_from(s, next) {
                Some(r) => Some(s.subrange(i, next) + r),
                None => None,
            }
        } else {
            None
        }
    } else {
        let semi = crate::matcher::find_from(s, i + 1, ';');
        if semi >= s.len() {
            Some(s.subrange(i, s.len() as int))
        } else if semi < i + 1 {
            None
        } else {
            let e = s.subrange(i + 1, semi);
            if !entity_like(e) {
                match decode_from(s, i + 1) {
                    Some(r) => Some(seq!['&'] + r),
                    None => None,
                }
            } else {
                match decoded_entity(e) {
                    Some(d) => match decode_from(s, semi + 1) {
                        Some(r) => Some(d + r),
                        None => None,
                    },
                    None => None,
                }
            }
        }
    }
}

/// `s` with its entity references decoded; `None` when it holds no `&` or a reference stands
/// for nothing.
pub open spec fn decoded_entities(s: Seq<char>) -> Option<Seq<char>> {
    if s.contains('&') {
        decode_from(s, 0)
    } else {
        None
    }
}

/// Decodes the entity references of `s`; `None` when it holds no `&` or a reference stands for
/// nothing.
pub fn decode_fast_entities(s: &Vec<char>) -> (r: Option<String>)
    ensures
        match r {
            Some(d) => decoded_entities(s@) == Some(d@),
            None => decoded_entities(s@) is None,
        },
{
    let n = s.len();
    let first = crate::matcher::find_char_from(s, 0, '&');
    if first >= n {
        proof {
            crate::matcher::lemma_find_from(s@, 0, '&');
            assert forall|k: int| 0 <= k < s@.len() implies s@[k] != '&' by {
                lemma_find_from_before(s@, 0, '&', k);
            }
        }
        return None;
    }
    proof {
        crate::matcher::lemma_find_from(s@, 0, '&');
        assert(s@[first as int] == '&');
        assert(s@.contains('&'));
    }
    let mut out = String::new();
    let mut i: usize = 0;
    let ghost target = decode_from(s@, 0);
    while i < n
        invariant
            n == s@.len(),
            i <= n,
            target == decode_from(s@, 0),
            target == match decode_from(s@, i as int) {
                Some(r) => Some(out@ + r),
                None => None,
            },
        decreases n - i,
    {
        if s[i] != '&' {
            let next = crate::matcher::find_char_from(s, i, '&');
            proof {
                crate::matcher::lemma_find_from(s@, i as int, '&');
                assert(next > i);
            }
            let ghost o = out@;
            let piece = string_from_range(s, i, next);
            push_str(&mut out, piece.as_str());
            proof {
                match decode_from(s@, next as int) {
                    Some(r) => assert(o + (s@.subrange(i as int, next as int) + r) =~= out@ + r),
                    None => {},
                }
            }
            i = next;
        } else {
            let semi = crate::matcher::find_char_from(s, i + 1, ';');
            if semi >= n {
                let rest = string_from_range(s, i, n);
                let ghost o = out@;
                push_str(&mut out, rest.as_str());
                proof {
                    assert(out@ + Seq::<char>::empty() =~= out@);
                    assert(decode_from(s@, n as int) == Some(Seq::<char>::empty()));
                    assert(target == Some(out@));
                }
                i = n;
            } else if !looks_like_entity_reference(s, i + 1, semi) {
                let ghost o = out@;
                push_char(&mut out, '&');
                proof {
                    match decode_from(s@, i + 1) {
                        Some(r) => assert(o + (seq!['&'] + r) =~= out@ + r),
                        None => {},
                    }
                }
                i += 1;
            } else {
                let ghost o = out@;
                match push_decoded_entity(s, i + 1, semi, &mut out) {
                    Some(()) => {},
                    None => {
                        return None;
                    },
                }
                proof {
                    match decode_from(s@, semi + 1) {
                        Some(r) => {
                            let d = decoded_entity(s@.subrange(i + 1, semi as int))->0;
                            assert(o + (d + r) =~= out@ + r);
                        },
                        None => {},
                    }
                }
                i = semi + 1;
            }
        }
    }
    proof {
        assert(out@ + Seq::<char>::empty() =~= out@);
    }
    Some(out)
}

proof fn lemma_find_from_before(s: Seq<char>, i: int, c: char, k: int)
    requires
        0 <= i <= k < crate::matcher::find_from(s, i, c),
        k < s.len(),
    ensures
        s[k] != c,
    decreases s.len() - i,
{
    if s[i] != c && i < k {
        lemma_find_from_before(s, i + 1, c, k);
    }
}


/// What an attribute holds: its name and value.
pub open spec fn attr_pair(a: crate::dom::Attr) -> (Seq<char>, Option<Seq<char>>) {
    (a.name@, crate::element::value_view(a.value))
}

/// Whether no pair after position `i` has the name of the one at `i`.
pub open spec fn is_last_pair(s: Seq<(Seq<char>, Option<Seq<char>>)>, i: int) -> bool {
    forall|j: int| i < j < s.len() ==> #[trigger] s[j].0 != s[i].0
}

/// The pairs among `s[..i]` that no later pair shares a name with, in order.
pub open spec fn last_wins_pairs(s: Seq<(Seq<char>, Option<Seq<char>>)>, i: int) -> Seq<(Seq<char>, Option<Seq<char>>)>
    decreases i,
{
    if i <= 0 || i > s.len() {
        Seq::empty()
    } else if is_last_pair(s, i - 1) {
        last_wins_pairs(s, i - 1).push(s[i - 1])
    } else {
        last_wins_pairs(s, i - 1)
    }
}

proof fn lemma_last_wins_pairs(s: Seq<crate::dom::Attr>, i: int)
    requires
        0 <= i <= s.len(),
    ensures
        crate::attrs::last_wins_upto(s, i).map_values(|a: crate::dom::Attr| attr_pair(a))
            == last_wins_pairs(s.map_values(|a: crate::dom::Attr| attr_pair(a)), i),
    decreases i,
{
    let p = s.map_values(|a: crate::dom::Attr| attr_pair(a));
    if i > 0 {
        lemma_last_wins_pairs(s, i - 1);
        assert(p[i - 1].0 == s[i - 1].name@);
        if crate::attrs::is_last_of_name(s, i - 1) {
            assert forall|j: int| i - 1 < j < p.len() implies #[trigger] p[j].0 != p[i - 1].0 by {
                assert(p[j].0 == s[j].name@);
                assert(s[j].name@ != s[i - 1].name@);
            }
        }
        if is_last_pair(p, i - 1) {
            assert forall|j: int| i - 1 < j < s.len() implies #[trigger] s[j].name@ != s[i - 1].name@ by {
                assert(p[j].0 == s[j].name@);
                assert(p[j].0 != p[i - 1].0);
            }
        }
        let l = crate::attrs::last_wins_upto(s, i - 1);
        if crate::attrs::is_last_of_name(s, i - 1) {
            assert(l.push(s[i - 1]).map_values(|a: crate::dom::Attr| attr_pair(a)) =~= l.map_values(|a: crate::dom::Attr| attr_pair(a)).push(p[i - 1]));
        }
    } else {
        assert(crate::attrs::last_wins_upto(s, i).map_values(|a: crate::dom::Attr| attr_pair(a)) =~= Seq::<(Seq<char>, Option<Seq<char>>)>::empty());
    }
}

/// Where an attribute name that starts at `i` ends: at ASCII white space, `=` or `/`.
pub open spec fn attr_name_end(s: Seq<char>, i: int) -> int
    decreases s.len() - i,
{
    if 0 <= i < s.len() && !(is_ascii_ws(s[i]) || s[i] == '=' || s[i] == '/') {
        attr_name_end(s, i + 1)
    } else {
        i
    }
}

/// Where an unquoted attribute value that starts at `i` ends: at ASCII white space or `/`.
pub open spec fn unquoted_end(s: Seq<char>, i: int) -> int
    decreases s.len() - i,
{
    if 0 <= i < s.len() && !(is_ascii_ws(s[i]) || s[i] == '/') {
        unquoted_end(s, i + 1)
    } else {
        i
    }
}

pub proof fn lemma_attr_name_end(s: Seq<char>, i: int)
    requires
        0 <= i <= s.len(),
    ensures
        i <= attr_name_end(s, i) <= s.len(),
        i <= unquoted_end(s, i) <= s.len(),
    decreases s.len() - i,
{
    if i < s.len() {
        lemma_attr_name_end(s, i + 1);
    }
}

/// The raw value of an attribute whose `=` is followed by the value at `v0`: its bounds and
/// where parsing goes on; `None` when a quote is not closed or nothing follows.
pub open spec fn raw_value_at(s: Seq<char>, v0: int) -> Option<(int, int, int)> {
    if v0 < 0 || v0 >= s.len() {
        None
    } else if s[v0] == '\'' || s[v0] == '"' {
        let close = crate::matcher::find_from(s, v0 + 1, s[v0]);
        if close >= s.len() {
            None
        } else {
            Some((v0 + 1, close, close + 1))
        }
    } else {
        let e = unquoted_end(s, v0);
        Some((v0, e, e))
    }
}

/// The value an attribute gets from its raw text: decoded when it holds an `&`.
pub open spec fn attr_value_of(raw: Seq<char>) -> Option<Seq<char>> {
    if raw.contains('&') {
        decoded_entities(raw)
    } else {
        Some(raw)
    }
}

/// The attributes of a start tag from `i` on, appended to `acc`; `None` when refused.
pub open spec fn attrs_from(s: Seq<char>, i: int, acc: Seq<(Seq<char>, Option<Seq<char>>)>) -> Option<Seq<(Seq<char>, Option<Seq<char>>)>>
    decreases s.len() - i,
{
    let j = crate::matcher::skip_ascii_ws(s, i);
    if i < 0 || j < i || j >= s.len() || s[j] == '/' {
        Some(acc)
    } else {
        let ne = attr_name_end(s, j);
        if ne <= j || ne > s.len() {
            None
        } else {
            match normalized_name(s.subrange(j, ne), true) {
                None => None,
                Some(name) => {
                    let k = crate::matcher::skip_ascii_ws(s, ne);
                    let parsed = if k < s.len() && s[k] == '=' {
                        match raw_value_at(s, crate::matcher::skip_ascii_ws(s, k + 1)) {
                            Some((a, b, next)) => Some((s.subrange(a, b), next)),
                            None => None,
                        }
                    } else {
                        Some((Seq::empty(), k))
                    };
                    match parsed {
                        None => None,
                        Some((raw, next)) => if j < next <= s.len() {
                            match attr_value_of(raw) {
                                Some(v) => attrs_from(s, next, acc.push((name, Some(v)))),
                                None => None,
                            }
                        } else {
                            None
                        },
                    }
                },
            }
        }
    }
}

/// The attributes that the attribute text `s` of a start tag holds, the last of those sharing a
/// name kept; `None` when the text is refused.
pub open spec fn fast_attrs(s: Seq<char>) -> Option<Seq<(Seq<char>, Option<Seq<char>>)>> {
    match attrs_from(s, 0, Seq::empty()) {
        Some(list) => Some(last_wins_pairs(list, list.len() as int)),
        None => None,
    }
}

/// The local name an element or attribute is given: the name itself (the parser interns
/// common ones, which changes nothing of what they hold).
pub fn fast_local_name(name: &str) -> (r: String)
    ensures
        r@ == name@,
{
    string_from_chars(&chars_of(name))
}

/// Parses the attribute text `s` of a start tag: names made small, values quoted or not and
/// with entities decoded, and the last attribute kept of those that share a name.
#[verifier::rlimit(60)]
pub fn parse_fast_attrs(s: &Vec<char>) -> (r: Option<Vec<crate::dom::Attr>>)
    ensures
        match r {
            Some(v) => fast_attrs(s@) == Some(v@.map_values(|a: crate::dom::Attr| attr_pair(a))),
            None => fast_attrs(s@) is None,
        },
{
    let n = s.len();
    let mut attrs: Vec<crate::dom::Attr> = Vec::new();
    let mut index: usize = 0;
    let ghost target = attrs_from(s@, 0, Seq::empty());
    proof {
        assert(attrs@.map_values(|a: crate::dom::Attr| attr_pair(a)) =~= Seq::<(Seq<char>, Option<Seq<char>>)>::empty());
    }
    while index < n
        invariant
            n == s@.len(),
            index <= n,
            target == attrs_from(s@, 0, Seq::empty()),
            target == attrs_from(s@, index as int, attrs@.map_values(|a: crate::dom::Attr| attr_pair(a))),
        ensures
            target == Some(attrs@.map_values(|a: crate::dom::Attr| attr_pair(a))),
        decreases n - index,
    {
        let ghost acc = attrs@.map_values(|a: crate::dom::Attr| attr_pair(a));
        let ghost i0 = index;
        proof {
            crate::matcher::lemma_skip_ascii_ws(s@, index as int);
        }
        while index < n && ascii_ws(s[index])
            invariant
                i0 <= index <= n,
                n == s@.len(),
                crate::matcher::skip_ascii_ws(s@, i0 as int) == crate::matcher::skip_ascii_ws(s@, index as int),
            decreases n - index,
        {
            index += 1;
        }
        if index >= n || s[index] == '/' {
            break;
        }
        let name_start = index;
        proof {
            lemma_attr_name_end(s@, index as int);
        }
        while index < n && !(ascii_ws(s[index]) || s[index] == '=' || s[index] == '/')
            invariant
                name_start <= index <= n,
                n == s@.len(),
                attr_name_end(s@, name_start as int) == attr_name_end(s@, index as int),
            decreases n - index,
        {
            index += 1;
        }
        if index == name_start {
            return None;
        }
        let name = match normalize_fast_name(s, name_start, index, true) {
            Some(x) => x,
            None => {
                return None;
            },
        };
        let name_end_index = index;
        proof {
            crate::matcher::lemma_skip_ascii_ws(s@, index as int);
        }
        while index < n && ascii_ws(s[index])
            invariant
                name_end_index <= index <= n,
                n == s@.len(),
                crate::matcher::skip_ascii_ws(s@, name_end_index as int) == crate::matcher::skip_ascii_ws(s@, index as int),
            decreases n - index,
        {
            index += 1;
        }
        let (raw_start, raw_end, next) = if index < n && s[index] == '=' {
            let eq = index;
            index += 1;
            proof {
                crate::matcher::lemma_skip_ascii_ws(s@, index as int);
            }
            while index < n && ascii_ws(s[index])
                invariant
                    eq < index <= n,
                    n == s@.len(),
                    crate::matcher::skip_ascii_ws(s@, eq + 1) == crate::matcher::skip_ascii_ws(s@, index as int),
                decreases n - index,
            {
                index += 1;
            }
            if index >= n {
                return None;
            }
            if s[index] == '\'' || s[index] == '"' {
                let quote = s[index];
                let close = crate::matcher::find_char_from(s, index + 1, quote);
                if close >= n {
                    return None;
                }
                (index + 1, close, close + 1)
            } else {
                let v0 = index;
                proof {
                    lemma_attr_name_end(s@, index as int);
                }
                while index < n && !(ascii_ws(s[index]) || s[index] == '/')
                    invariant
                        v0 <= index <= n,
                        n == s@.len(),
                        unquoted_end(s@, v0 as int) == unquoted_end(s@, index as int),
                    decreases n - index,
                {
                    index += 1;
                }
                (v0, index, index)
            }
        } else {
            (index, index, index)
        };
        let raw = crate::matcher::range_vec(s, raw_start, raw_end);
        let has_amp = crate::matcher::find_char_from(&raw, 0, '&') < raw.len();
        proof {
            crate::matcher::lemma_find_from(raw@, 0, '&');
            if !has_amp {
                assert forall|k: int| 0 <= k < raw@.len() implies raw@[k] != '&' by {
                    lemma_find_from_before(raw@, 0, '&', k);
                }
                assert(!raw@.contains('&'));
            } else {
                assert(raw@.contains('&'));
            }
            if raw_start == raw_end {
                assert(raw@ =~= Seq::<char>::empty());
            }
        }
        let value = if has_amp {
            match decode_fast_entities(&raw) {
                Some(v) => v,
                None => {
                    return None;
                },
            }
        } else {
            string_from_chars(&raw)
        };
        let ghost before = attrs@.map_values(|a: crate::dom::Attr| attr_pair(a));
        attrs.push(crate::dom::Attr { name: fast_local_name(name.as_str()), value: Some(value) });
        proof {
            assert(attrs@.map_values(|a: crate::dom::Attr| attr_pair(a)) =~= before.push(attr_pair(attrs@.last())));
        }
        index = next;
    }
    let ghost a0 = attrs@;
    let out = if attrs.len() > 1 {
        crate::attrs::dedupe_attrs_last_wins(attrs)
    } else {
        attrs
    };
    proof {
        lemma_last_wins_pairs(a0, a0.len() as int);
        if a0.len() <= 1 {
            assert(crate::attrs::last_wins_upto(a0, 0) =~= Seq::<crate::dom::Attr>::empty());
            if a0.len() == 1 {
                assert(crate::attrs::is_last_of_name(a0, 0));
                assert(crate::attrs::last_wins_upto(a0, 1) =~= a0);
            }
        }
        assert(out@ == crate::attrs::last_wins_upto(a0, a0.len() as int));
    }
    Some(out)
}


/// Whether every character of `s` is `\n` or Unicode white space.
pub open spec fn all_white_space(s: Seq<char>) -> bool {
    forall|i: int| 0 <= i < s.len() ==> #[trigger] s[i] == '\n' || crate::text::is_white_space(s[i])
}

/// The single white space `s` collapses to when it is all white space: a line break if it holds
/// one, a space otherwise.
pub open spec fn collapsed(s: Seq<char>) -> Seq<char> {
    if s.contains('\n') { "\n"@ } else { " "@ }
}

/// What `normalized_whitespace` gives from `s[i..]`: ASCII white space is read first, and the
/// first other non-ASCII character hands the whole text to the Unicode check.
pub open spec fn whitespace_scan(s: Seq<char>, i: int) -> Option<Seq<char>>
    decreases s.len() - i,
{
    if i < 0 || i >= s.len() {
        Some(collapsed(s))
    } else {
        let c = s[i];
        if c == '\n' || c == ' ' || c == '\t' || c == '\r' || c == '\x0c' {
            whitespace_scan(s, i + 1)
        } else if (c as u32) < 0x80 {
            None
        } else if all_white_space(s) {
            Some(collapsed(s))
        } else {
            None
        }
    }
}

/// Whether `s` holds a line break, and whether it is all white space.
fn scan_white_space(s: &Vec<char>) -> (r: (bool, bool))
    ensures
        r.0 == s@.contains('\n'),
        r.1 == all_white_space(s@),
{
    let mut saw_newline = false;
    let mut all_ws = true;
    let mut i: usize = 0;
    while i < s.len()
        invariant
            i <= s@.len(),
            saw_newline == s@.take(i as int).contains('\n'),
            all_ws == all_white_space(s@.take(i as int)),
        decreases s@.len() - i,
    {
        let c = s[i];
        if c == '\n' {
            saw_newline = true;
        } else if !crate::text::white_space(c) {
            all_ws = false;
        }
        proof {
            let t = s@.take(i as int + 1);
            assert(t.drop_last() =~= s@.take(i as int));
            assert(t[i as int] == c);
            assert(t.contains('\n') == (s@.take(i as int).contains('\n') || c == '\n')) by {
                if t.contains('\n') && c != '\n' {
                    let k = choose|k: int| 0 <= k < t.len() && t[k] == '\n';
                    assert(s@.take(i as int)[k] == '\n');
                }
                if s@.take(i as int).contains('\n') {
                    let k = choose|k: int| 0 <= k < i && s@.take(i as int)[k] == '\n';
                    assert(t[k] == '\n');
                }
            }
            assert(all_white_space(t) == (all_white_space(s@.take(i as int)) && (c == '\n' || crate::text::is_white_space(c)))) by {
                if all_white_space(t) {
                    assert forall|k: int| 0 <= k < i implies #[trigger] s@.take(i as int)[k] == '\n' || crate::text::is_white_space(s@.take(i as int)[k]) by {
                        assert(t[k] == s@.take(i as int)[k]);
                    }
                    assert(t[i as int] == '\n' || crate::text::is_white_space(t[i as int]));
                }
            }
        }
        i += 1;
    }
    proof {
        assert(s@.take(s@.len() as int) =~= s@);
    }
    (saw_newline, all_ws)
}

/// The single white space that `s` collapses to, if it is all white space (ASCII white space
/// other than space, tab, line break, carriage return and form feed refusing it).
pub fn normalized_whitespace(s: &Vec<char>) -> (r: Option<&'static str>)
    ensures
        match r {
            Some(w) => whitespace_scan(s@, 0) == Some(w@),
            None => whitespace_scan(s@, 0) is None,
        },
{
    let mut i: usize = 0;
    while i < s.len()
        invariant
            i <= s@.len(),
            whitespace_scan(s@, 0) == whitespace_scan(s@, i as int),
        decreases s@.len() - i,
    {
        let c = s[i];
        if c == '\n' || c == ' ' || c == '\t' || c == '\r' || c == '\x0c' {
            i += 1;
        } else if (c as u32) < 0x80 {
            return None;
        } else {
            let (saw_newline, all_ws) = scan_white_space(s);
            if !all_ws {
                return None;
            }
            return Some(if saw_newline { "\n" } else { " " });
        }
    }
    let (saw_newline, _) = scan_white_space(s);
    Some(if saw_newline { "\n" } else { " " })
}

/// `s` itself when it is one space or one line break, else what `normalized_whitespace` gives.
pub open spec fn known_whitespace(s: Seq<char>) -> Option<Seq<char>> {
    if s == " "@ {
        Some(" "@)
    } else if s == "\n"@ {
        Some("\n"@)
    } else {
        whitespace_scan(s, 0)
    }
}

/// `s` itself when it is one space or one line break, else what `normalized_whitespace` gives.
pub fn known_or_normalized_whitespace(s: &str) -> (r: Option<&'static str>)
    ensures
        match r {
            Some(w) => known_whitespace(s@) == Some(w@),
            None => known_whitespace(s@) is None,
        },
{
    if str_eq(s, " ") {
        Some(" ")
    } else if str_eq(s, "\n") {
        Some("\n")
    } else {
        normalized_whitespace(&chars_of(s))
    }
}

/// Text as the quick parser keeps it: as it is when white space is kept, else all-white-space
/// text collapsed to one space or line break.
pub open spec fn normalized_text(s: Seq<char>, preserve: bool) -> Seq<char> {
    if preserve {
        s
    } else {
        match whitespace_scan(s, 0) {
            Some(w) => w,
            None => s,
        }
    }
}

/// Text as the quick parser keeps it.
pub fn normalize_text_value(s: &str, preserve_whitespace: bool) -> (r: String)
    ensures
        r@ == normalized_text(s@, preserve_whitespace),
{
    if preserve_whitespace {
        return string_from_chars(&chars_of(s));
    }
    match normalized_whitespace(&chars_of(s)) {
        Some(w) => string_from_chars(&chars_of(w)),
        None => string_from_chars(&chars_of(s)),
    }
}

/// What text becomes when more is appended to it by the quick parser: white space merged with
/// white space becomes a line break if either holds one (left as it is if it already collapses
/// to one), and a space otherwise (left as it is if it already collapses to one).
pub open spec fn appended_text(existing: Seq<char>, text: Seq<char>, preserve: bool) -> Seq<char> {
    if preserve {
        existing + text
    } else {
        match (known_whitespace(existing), known_whitespace(text)) {
            (Some(e), Some(t)) => if e == "\n"@ || t == "\n"@ {
                if e != "\n"@ { "\n"@ } else { existing }
            } else {
                if e != " "@ { " "@ } else { existing }
            },
            _ => existing + text,
        }
    }
}

/// Appends `text` to `existing` as the quick parser does.
pub fn append_normalized_text(existing: &mut String, text: &str, preserve_whitespace: bool)
    ensures
        final(existing)@ == appended_text(old(existing)@, text@, preserve_whitespace),
{
    if preserve_whitespace {
        push_str(existing, text);
        return;
    }
    let existing_ws = match known_or_normalized_whitespace(existing.as_str()) {
        Some(w) => w,
        None => {
            push_str(existing, text);
            return;
        },
    };
    let text_ws = match known_or_normalized_whitespace(text) {
        Some(w) => w,
        None => {
            push_str(existing, text);
            return;
        },
    };
    proof {
        reveal_strlit("\n");
        reveal_strlit(" ");
    }
    if str_eq(existing_ws, "\n") || str_eq(text_ws, "\n") {
        if !str_eq(existing_ws, "\n") {
            *existing = string_from_chars(&chars_of("\n"));
        }
    } else if !str_eq(existing_ws, " ") {
        *existing = string_from_chars(&chars_of(" "));
    }
}


/// Whether `needle` occurs at `i` in `hay`, ASCII letters compared without case.
pub open spec fn starts_ignoring_case(hay: Seq<char>, i: int, needle: Seq<char>) -> bool {
    crate::text::matches_at_ignoring_case(hay, needle, i)
}

/// Whether `needle` occurs at `i` in `hay`, ASCII letters compared without case.
pub fn starts_with_ascii_case_insensitive(hay: &Vec<char>, i: usize, needle: &Vec<char>) -> (r: bool)
    ensures
        r == starts_ignoring_case(hay@, i as int, needle@),
{
    let n = hay.len();
    if i > n || needle.len() > n - i {
        return false;
    }
    let mut j: usize = 0;
    while j < needle.len()
        invariant
            n == hay@.len(),
            i + needle@.len() <= n,
            j <= needle@.len(),
            forall|k: int| 0 <= k < j ==> lower_char(#[trigger] hay@[i + k]) == lower_char(needle@[k]),
        decreases needle@.len() - j,
    {
        if crate::text::ascii_lower(hay[i + j]) != crate::text::ascii_lower(needle[j]) {
            proof {
                assert(hay@.subrange(i as int, i + needle@.len())[j as int] == hay@[i + j]);
            }
            return false;
        }
        j += 1;
    }
    proof {
        let w = hay@.subrange(i as int, i + needle@.len());
        assert forall|k: int| 0 <= k < w.len() implies lower_char(#[trigger] w[k]) == lower_char(needle@[k]) by {
            assert(w[k] == hay@[i + k]);
        }
    }
    true
}

/// `s` without its leading Unicode white space, from `i` on.
pub open spec fn trim_start_index(s: Seq<char>, i: int) -> int
    decreases s.len() - i,
{
    if 0 <= i < s.len() && crate::text::is_white_space(s[i]) {
        trim_start_index(s, i + 1)
    } else {
        i
    }
}

/// Where a tag name in `s` that starts at `i` ends: at Unicode white space, `/` or `>`.
pub open spec fn tag_word_end(s: Seq<char>, i: int) -> int
    decreases s.len() - i,
{
    if 0 <= i < s.len() && !(crate::text::is_white_space(s[i]) || s[i] == '/' || s[i] == '>') {
        tag_word_end(s, i + 1)
    } else {
        i
    }
}

/// What lies between the `<` and `>` of a tag (nothing when it is not so delimited).
pub open spec fn tag_inner(tag: Seq<char>) -> Seq<char> {
    if tag.len() >= 2 && tag[0] == '<' && tag.last() == '>' {
        tag.subrange(1, tag.len() - 1)
    } else {
        Seq::empty()
    }
}

/// Whether `tag` is a start tag of `pre` or `textarea` (any case), after which a leading line
/// break would be lost.
pub open spec fn is_preserve_newline_tag(tag: Seq<char>) -> bool {
    let inner = tag_inner(tag);
    let a = trim_start_index(inner, 0);
    if a < inner.len() && (inner[a] == '/' || inner[a] == '!' || inner[a] == '?') {
        false
    } else {
        let name = lower_seq(inner.subrange(a, tag_word_end(inner, a)));
        name == "pre"@ || name == "textarea"@
    }
}

/// Whether `s[from..to]` is a start tag of `pre` or `textarea`.
pub fn is_preserve_newline_start_tag(s: &Vec<char>, from: usize, to: usize) -> (r: bool)
    requires
        from <= to <= s@.len(),
    ensures
        r == is_preserve_newline_tag(s@.subrange(from as int, to as int)),
{
    let tag = crate::matcher::range_vec(s, from, to);
    let inner = if tag.len() >= 2 && tag[0] == '<' && tag[tag.len() - 1] == '>' {
        crate::matcher::range_vec(&tag, 1, tag.len() - 1)
    } else {
        Vec::new()
    };
    proof {
        if !(tag@.len() >= 2 && tag@[0] == '<' && tag@.last() == '>') {
            assert(inner@ =~= Seq::<char>::empty());
        }
    }
    let mut a: usize = 0;
    while a < inner.len() && crate::text::white_space(inner[a])
        invariant
            a <= inner@.len(),
            trim_start_index(inner@, 0) == trim_start_index(inner@, a as int),
        decreases inner@.len() - a,
    {
        a += 1;
    }
    if a < inner.len() && (inner[a] == '/' || inner[a] == '!' || inner[a] == '?') {
        return false;
    }
    let mut e = a;
    while e < inner.len() && !(crate::text::white_space(inner[e]) || inner[e] == '/' || inner[e] == '>')
        invariant
            a <= e <= inner@.len(),
            tag_word_end(inner@, a as int) == tag_word_end(inner@, e as int),
        decreases inner@.len() - e,
    {
        e += 1;
    }
    let word = string_from_range(&inner, a, e);
    let name = crate::matcher::to_ascii_lowercase(word.as_str());
    str_eq(name.as_str(), "pre") || str_eq(name.as_str(), "textarea")
}

/// `s[i..]` with a line break added after each start tag of `pre` or `textarea` that a line
/// break follows (which the parser would otherwise drop).
pub open spec fn with_leading_newlines(s: Seq<char>, i: int) -> Seq<char>
    decreases s.len() - i,
{
    if i < 0 || i >= s.len() {
        Seq::empty()
    } else {
        let open = crate::matcher::find_from(s, i, '<');
        let close = crate::matcher::find_from(s, open, '>');
        if open >= s.len() || close >= s.len() || close < open || open < i {
            s.subrange(i, s.len() as int)
        } else {
            let after = close + 1;
            let extra = if is_preserve_newline_tag(s.subrange(open, after)) && after < s.len() && s[after] == '\n' {
                "\n"@
            } else {
                Seq::empty()
            };
            s.subrange(i, after) + extra + with_leading_newlines(s, after)
        }
    }
}

/// `html` with a line break added after each start tag of `pre` or `textarea` that a line break
/// follows, so that the parser keeps one.
pub fn preserve_bs4_leading_newlines(html: &str) -> (r: String)
    ensures
        r@ == with_leading_newlines(html@, 0),
{
    let s = chars_of(html);
    let n = s.len();
    let mut out = String::new();
    let mut index: usize = 0;
    proof {
        reveal_strlit("\n");
    }
    while index < n
        invariant
            n == s@.len(),
            s@ == html@,
            index <= n,
            with_leading_newlines(s@, 0) == out@ + with_leading_newlines(s@, index as int),
        decreases n - index,
    {
        let open = crate::matcher::find_char_from(&s, index, '<');
        let close = if open < n { crate::matcher::find_char_from(&s, open, '>') } else { n };
        if open >= n || close >= n {
            let rest = string_from_range(&s, index, n);
            let ghost o = out@;
            push_str(&mut out, rest.as_str());
            proof {
                assert(with_leading_newlines(s@, index as int) == s@.subrange(index as int, n as int));
                assert(with_leading_newlines(s@, n as int) == Seq::<char>::empty());
                assert(out@ + Seq::<char>::empty() =~= o + s@.subrange(index as int, n as int));
            }
            index = n;
        } else {
            let after = close + 1;
            let extra = is_preserve_newline_start_tag(&s, open, after) && after < n && s[after] == '\n';
            let ghost o = out@;
            let piece = string_from_range(&s, index, after);
            push_str(&mut out, piece.as_str());
            if extra {
                push_char(&mut out, '\n');
            }
            proof {
                reveal_strlit("\n");
                let ex = if extra { "\n"@ } else { Seq::<char>::empty() };
                assert(out@ =~= o + s@.subrange(index as int, after as int) + ex);
                assert(with_leading_newlines(s@, index as int) == s@.subrange(index as int, after as int) + ex + with_leading_newlines(s@, after as int));
                assert(o + (s@.subrange(index as int, after as int) + ex + with_leading_newlines(s@, after as int))
                    =~= out@ + with_leading_newlines(s@, after as int));
            }
            index = after;
        }
    }
    proof {
        assert(with_leading_newlines(s@, n as int) == Seq::<char>::empty());
        assert(out@ + Seq::<char>::empty() =~= out@);
    }
    out
}


/// What the source of a document tells before it is parsed.
pub struct SourceHints {
    pub looks_like_full_document: bool,
    pub has_head: bool,
    pub preserve_newline_candidate: bool,
    pub processing_instructions: Vec<String>,
}

/// The hints gathered so far, as values.
pub struct HintsView {
    pub full: bool,
    pub head: bool,
    pub pre: bool,
    pub pis: Seq<Seq<char>>,
    pub next_pi: int,
}

/// One `<` at `open` read into the hints; `has_pi` says whether the source holds `<?` at all.
pub open spec fn hint_step(s: Seq<char>, open: int, h: HintsView, has_pi: bool) -> HintsView {
    let full = h.full || starts_ignoring_case(s, open, "<html"@) || starts_ignoring_case(s, open, "<!doctype"@);
    let head = h.head || starts_ignoring_case(s, open, "<head"@);
    let pre = h.pre || starts_ignoring_case(s, open + 1, "pre"@) || starts_ignoring_case(s, open + 1, "textarea"@);
    if has_pi && open >= h.next_pi && open + 1 < s.len() && s[open + 1] == '?' {
        let close = crate::matcher::find_from(s, open + 2, '>');
        if close >= s.len() {
            HintsView { full, head, pre, pis: h.pis, next_pi: s.len() + 1int }
        } else {
            HintsView { full, head, pre, pis: h.pis.push(s.subrange(open + 2, close)), next_pi: close + 1 }
        }
    } else {
        HintsView { full, head, pre, ..h }
    }
}

/// The hints after reading every `<` at or after `i`.
pub open spec fn hints_from(s: Seq<char>, i: int, h: HintsView, has_pi: bool) -> HintsView
    decreases s.len() - i,
{
    let open = crate::matcher::find_from(s, i, '<');
    if i < 0 || open >= s.len() || open < i {
        h
    } else {
        hints_from(s, open + 1, hint_step(s, open, h, has_pi), has_pi)
    }
}

/// Whether `<?` starts at `i` in `s`.
pub open spec fn pi_start_at(s: Seq<char>, i: int) -> bool {
    0 <= i && i + 1 < s.len() && s[i] == '<' && s[i + 1] == '?'
}

/// Whether `s` holds `<?`.
pub open spec fn holds_pi_start(s: Seq<char>) -> bool {
    exists|i: int| #[trigger] pi_start_at(s, i)
}

/// The hints of the source `s`.
pub open spec fn source_hints(s: Seq<char>) -> HintsView {
    let t = s.skip(trim_start_index(s, 0));
    let init = HintsView {
        full: starts_ignoring_case(t, 0, "<html"@) || starts_ignoring_case(t, 0, "<!doctype"@),
        head: false,
        pre: false,
        pis: Seq::empty(),
        next_pi: 0,
    };
    hints_from(s, 0, init, holds_pi_start(s))
}

impl SourceHints {
    pub open spec fn view_with(self, next_pi: int) -> HintsView {
        HintsView {
            full: self.looks_like_full_document,
            head: self.has_head,
            pre: self.preserve_newline_candidate,
            pis: self.processing_instructions@.map_values(|x: String| x@),
            next_pi,
        }
    }
}

/// Once every flag is set and no processing instruction can follow, reading more changes nothing.
proof fn lemma_hints_settled(s: Seq<char>, i: int, h: HintsView)
    requires
        h.full && h.head && h.pre,
    ensures
        hints_from(s, i, h, false) == h,
    decreases s.len() - i,
{
    let open = crate::matcher::find_from(s, i, '<');
    if 0 <= i && open < s.len() && open >= i {
        assert(hint_step(s, open, h, false) == h);
        lemma_hints_settled(s, open + 1, h);
    }
}

/// Reads what the source `html` tells before it is parsed: whether it looks like a whole
/// document, whether it has a head, whether it may hold `pre` or `textarea`, and the contents
/// of its processing instructions.
#[verifier::rlimit(50)]
pub fn inspect_source(html: &str) -> (r: SourceHints)
    ensures
        ({
            let h = source_hints(html@);
            &&& r.looks_like_full_document == h.full
            &&& r.has_head == h.head
            &&& r.preserve_newline_candidate == h.pre
            &&& r.processing_instructions@.map_values(|x: String| x@) == h.pis
        }),
{
    let s = chars_of(html);
    let n = s.len();
    let html_tag = chars_of("<html");
    let doctype_tag = chars_of("<!doctype");
    let head_tag = chars_of("<head");
    let pre_tag = chars_of("pre");
    let textarea_tag = chars_of("textarea");
    let mut start: usize = 0;
    while start < n && crate::text::white_space(s[start])
        invariant
            start <= n,
            n == s@.len(),
            trim_start_index(s@, 0) == trim_start_index(s@, start as int),
        decreases n - start,
    {
        start += 1;
    }
    let t = crate::matcher::range_vec(&s, start, n);
    proof {
        assert(t@ =~= s@.skip(trim_start_index(s@, 0)));
    }
    let mut has_pi = false;
    let mut k: usize = 1;
    while k < n
        invariant
            n == s@.len(),
            1 <= k,
            k <= n || n == 0,
            has_pi == exists|m: int| m + 1 < k && #[trigger] pi_start_at(s@, m),
        decreases n - k,
    {
        assert(pi_start_at(s@, k - 1) == (s@[k - 1] == '<' && s@[k as int] == '?'));
        if s[k - 1] == '<' && s[k] == '?' {
            has_pi = true;
        }
        k += 1;
    }
    proof {
        assert(has_pi == holds_pi_start(s@)) by {
            if holds_pi_start(s@) {
                let m = choose|m: int| #[trigger] pi_start_at(s@, m);
                assert(m + 1 < k);
            }
        }
    }
    let mut hints = SourceHints {
        looks_like_full_document: starts_with_ascii_case_insensitive(&t, 0, &html_tag)
            || starts_with_ascii_case_insensitive(&t, 0, &doctype_tag),
        has_head: false,
        preserve_newline_candidate: false,
        processing_instructions: Vec::new(),
    };
    let mut next_pi: usize = 0;
    let mut pi_done = false;
    let ghost target = source_hints(html@);
    proof {
        assert(hints.processing_instructions@.map_values(|x: String| x@) =~= Seq::<Seq<char>>::empty());
    }
    let mut i: usize = 0;
    while i < n
        invariant
            n == s@.len(),
            s@ == html@,
            html_tag@ == "<html"@,
            doctype_tag@ == "<!doctype"@,
            head_tag@ == "<head"@,
            pre_tag@ == "pre"@,
            textarea_tag@ == "textarea"@,
            has_pi == holds_pi_start(s@),
            i <= n,
            target == source_hints(html@),
            target == hints_from(s@, i as int, hints.view_with(if pi_done { n + 1 } else { next_pi as int }), has_pi),
            !pi_done ==> next_pi <= n,
        ensures
            target == hints.view_with(if pi_done { n + 1 } else { next_pi as int }),
        decreases n - i,
    {
        let ghost hv = hints.view_with(if pi_done { n + 1 } else { next_pi as int });
        let open = crate::matcher::find_char_from(&s, i, '<');
        if open >= n {
            proof {
                assert(hints_from(s@, i as int, hv, has_pi) == hv);
            }
            break;
        }
        if !hints.looks_like_full_document && (starts_with_ascii_case_insensitive(&s, open, &html_tag)
            || starts_with_ascii_case_insensitive(&s, open, &doctype_tag)) {
            hints.looks_like_full_document = true;
        }
        if !hints.has_head && starts_with_ascii_case_insensitive(&s, open, &head_tag) {
            hints.has_head = true;
        }
        if !hints.preserve_newline_candidate && (starts_with_ascii_case_insensitive(&s, open + 1, &pre_tag)
            || starts_with_ascii_case_insensitive(&s, open + 1, &textarea_tag)) {
            hints.preserve_newline_candidate = true;
        }
        if has_pi && !pi_done && open >= next_pi && open + 1 < n && s[open + 1] == '?' {
            let close = crate::matcher::find_char_from(&s, open + 2, '>');
            if close >= n {
                pi_done = true;
            } else {
                let ghost before = hints.processing_instructions@.map_values(|x: String| x@);
                hints.processing_instructions.push(string_from_range(&s, open + 2, close));
                proof {
                    assert(hints.processing_instructions@.map_values(|x: String| x@) =~= before.push(s@.subrange(open + 2, close as int)));
                }
                next_pi = close + 1;
            }
        }
        proof {
            let nv = hints.view_with(if pi_done { n + 1 } else { next_pi as int });
            assert(hint_step(s@, open as int, hv, has_pi) == nv);
            assert(hints_from(s@, i as int, hv, has_pi) == hints_from(s@, open + 1, nv, has_pi));
        }
        i = open + 1;
        if !has_pi && hints.looks_like_full_document && hints.has_head && hints.preserve_newline_candidate {
            proof {
                lemma_hints_settled(s@, i as int, hints.view_with(if pi_done { n + 1 } else { next_pi as int }));
            }
            break;
        }
    }
    hints
}

} // verus!
