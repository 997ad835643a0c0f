use vstd::prelude::*;
use encoding_rs::Encoding;
use regex::Regex;
use vstd::slice::slice_subrange;
use crate::matcher::{lower_seq, range_vec, to_ascii_lowercase};
use crate::text::{chars_of, push_char, push_str, str_eq, string_from_chars, trim, trimmed};

verus! {

/// `s` without the copies of `c` it starts with.
pub open spec fn strip_leading(s: Seq<char>, c: char) -> Seq<char>
    decreases s.len(),
{
    if s.len() > 0 && s[0] == c {
        strip_leading(s.drop_first(), c)
    } else {
        s
    }
}

/// `s` without the copies of `c` it ends with.
pub open spec fn strip_trailing(s: Seq<char>, c: char) -> Seq<char>
    decreases s.len(),
{
    if s.len() > 0 && s.last() == c {
        strip_trailing(s.drop_last(), c)
    } else {
        s
    }
}

/// `s` without the copies of `c` at either end, as `str::trim_matches` with one character gives it.
pub open spec fn trim_matching(s: Seq<char>, c: char) -> Seq<char> {
    strip_trailing(strip_leading(s, c), c)
}

/// An encoding label as the library compares labels: trimmed of white space, then of double
/// quotes, then of single quotes, and in small letters.
pub open spec fn normalized_label(label: Seq<char>) -> Seq<char> {
    lower_seq(trim_matching(trim_matching(trimmed(label), '"'), '\''))
}

fn trim_matching_chars(s: &Vec<char>, c: char) -> (r: Vec<char>)
    ensures
        r@ == trim_matching(s@, c),
{
    let n = s.len();
    let mut i: usize = 0;
    proof {
        assert(s@.subrange(0, n as int) =~= s@);
    }
    while i < n && s[i] == c
        invariant
            n == s@.len(),
            i <= n,
            strip_leading(s@, c) == strip_leading(s@.subrange(i as int, n as int), c),
        decreases n - i,
    {
        proof {
            assert(s@.subrange(i as int, n as int).drop_first() =~= s@.subrange(i + 1, n as int));
        }
        i += 1;
    }
    let mut j: usize = n;
    while j > i && s[j - 1] == c
        invariant
            n == s@.len(),
            i <= j <= n,
            strip_trailing(s@.subrange(i as int, n as int), c) == strip_trailing(s@.subrange(i as int, j as int), c),
        decreases j,
    {
        proof {
            assert(s@.subrange(i as int, j as int).drop_last() =~= s@.subrange(i as int, j - 1));
        }
        j -= 1;
    }
    proof {
        let front = s@.subrange(i as int, n as int);
        if front.len() > 0 {
            assert(front[0] == s@[i as int]);
        }
        assert(strip_leading(front, c) == front);
        let back = s@.subrange(i as int, j as int);
        if back.len() > 0 {
            assert(back.last() == s@[j - 1]);
        }
        assert(strip_trailing(back, c) == back);
    }
    range_vec(s, i, j)
}

/// The label as the library compares encoding labels: see `normalized_label`.
pub fn normalize_encoding_label(label: &str) -> (out: String)
    ensures
        out@ == normalized_label(label@),
{
    let trimmed_label = trim(label);
    let chars = chars_of(trimmed_label.as_str());
    let unquoted = trim_matching_chars(&chars, '"');
    let bare = trim_matching_chars(&unquoted, '\'');
    let joined = string_from_chars(&bare);
    to_ascii_lowercase(joined.as_str())
}

/// How a document is built from its markup: as a fragment, or as a full document with its
/// `html`, `head` and `body`.
#[derive(Clone, Copy, Debug, PartialEq, Eq, Structural)]
pub enum ParseMode {
    Fragment,
    FullDocument,
}

/// Whether `feature` names a tree builder of this library.
pub open spec fn supported_feature(feature: Seq<char>) -> bool {
    ||| feature == "html"@
    ||| feature == "html.parser"@
    ||| feature == "fast"@
    ||| feature == "strict"@
    ||| feature == "permissive"@
    ||| feature == "lxml"@
    ||| feature == "lxml-html"@
}

/// Whether `feature` asks for a fragment parse.
pub open spec fn fragment_feature(feature: Seq<char>) -> bool {
    feature == "html.parser"@ || feature == "strict"@
}

/// Whether `feature` asks for a full document parse.
pub open spec fn full_document_feature(feature: Seq<char>) -> bool {
    ||| feature == "html"@
    ||| feature == "fast"@
    ||| feature == "permissive"@
    ||| feature == "lxml"@
    ||| feature == "lxml-html"@
}

/// The features of `requested` as character sequences.
pub open spec fn feature_names(requested: Seq<String>) -> Seq<Seq<char>> {
    requested.map_values(|f: String| f@)
}

/// Whether a request for `requested` can be served: it names nothing, or some builder here.
pub open spec fn features_served(requested: Seq<Seq<char>>) -> bool {
    requested.len() == 0 || exists|i: int| 0 <= i < requested.len() && #[trigger] supported_feature(requested[i])
}

/// How the features of `requested` have the markup parsed: a fragment where one asks for it,
/// else a full document where one asks for that, else a fragment.
pub open spec fn mode_for_features(requested: Seq<Seq<char>>) -> ParseMode {
    if exists|i: int| 0 <= i < requested.len() && #[trigger] fragment_feature(requested[i]) {
        ParseMode::Fragment
    } else if exists|i: int| 0 <= i < requested.len() && #[trigger] full_document_feature(requested[i]) {
        ParseMode::FullDocument
    } else {
        ParseMode::Fragment
    }
}

/// Whether `feature` names a tree builder of this library.
pub fn is_supported_html_feature(feature: &str) -> (r: bool)
    ensures
        r == supported_feature(feature@),
{
    str_eq(feature, "html") || str_eq(feature, "html.parser") || str_eq(feature, "fast")
        || str_eq(feature, "strict") || str_eq(feature, "permissive") || str_eq(feature, "lxml")
        || str_eq(feature, "lxml-html")
}

/// Whether a request for the features `requested` can be served.
pub fn features_supported(requested: &Vec<String>) -> (r: bool)
    ensures
        r == features_served(feature_names(requested@)),
{
    if requested.len() == 0 {
        return true;
    }
    let mut i: usize = 0;
    while i < requested.len()
        invariant
            i <= requested@.len(),
            forall|k: int| 0 <= k < i ==> !supported_feature(#[trigger] feature_names(requested@)[k]),
        decreases requested@.len() - i,
    {
        if is_supported_html_feature(requested[i].as_str()) {
            assert(supported_feature(feature_names(requested@)[i as int]));
            return true;
        }
        i += 1;
    }
    false
}

/// How markup is parsed for the features `requested`.
pub fn parse_mode_for_features(requested: &Vec<String>) -> (mode: ParseMode)
    ensures
        mode == mode_for_features(feature_names(requested@)),
{
    let ghost names = feature_names(requested@);
    let mut full = false;
    let mut i: usize = 0;
    while i < requested.len()
        invariant
            i <= requested@.len(),
            names == feature_names(requested@),
            forall|k: int| 0 <= k < i ==> !fragment_feature(#[trigger] names[k]),
            full == exists|k: int| 0 <= k < i && #[trigger] full_document_feature(names[k]),
        decreases requested@.len() - i,
    {
        let f = requested[i].as_str();
        if str_eq(f, "html.parser") || str_eq(f, "strict") {
            assert(fragment_feature(names[i as int]));
            return ParseMode::Fragment;
        }
        if str_eq(f, "html") || str_eq(f, "fast") || str_eq(f, "permissive") || str_eq(f, "lxml")
            || str_eq(f, "lxml-html") {
            assert(full_document_feature(names[i as int]));
            full = true;
        }
        i += 1;
    }
    if full {
        ParseMode::FullDocument
    } else {
        ParseMode::Fragment
    }
}

/// The features of `requested` joined by commas, as the message of a refused request names them.
pub fn joined_features(requested: &Vec<String>) -> (out: String)
    ensures
        out@ == joined(feature_names(requested@)),
{
    let mut out = String::new();
    let mut i: usize = 0;
    while i < requested.len()
        invariant
            i <= requested@.len(),
            out@ == joined(feature_names(requested@).take(i as int)),
        decreases requested@.len() - i,
    {
        if i > 0 {
            push_str(&mut out, ",");
        }
        push_str(&mut out, requested[i].as_str());
        proof {
            let names = feature_names(requested@);
            assert(names.take(i + 1).drop_last() =~= names.take(i as int));
        }
        i += 1;
    }
    proof {
        assert(feature_names(requested@).take(requested@.len() as int) =~= feature_names(requested@));
    }
    out
}

/// The sequences of `parts` one after the other with a comma between two neighbours.
pub open spec fn joined(parts: Seq<Seq<char>>) -> Seq<char>
    decreases parts.len(),
{
    if parts.len() == 0 {
        Seq::empty()
    } else if parts.len() == 1 {
        parts[0]
    } else {
        joined(parts.drop_last()) + ","@ + parts.last()
    }
}

#[verifier::external_type_specification]
#[verifier::external_body]
pub struct ExEncoding(Encoding);

#[verifier::external_type_specification]
#[verifier::external_body]
pub struct ExRegex(Regex);

/// The name of the encoding that `encoding_rs` finds for the label `label`, if it finds one.
pub uninterp spec fn label_encoding_name(label: Seq<char>) -> Option<Seq<char>>;

/// What decoding `bytes` in the encoding that `label` names gives: the text, and whether a
/// malformed sequence was replaced on the way.
pub uninterp spec fn decoded_with(label: Seq<char>, bytes: Seq<u8>) -> (Seq<char>, bool);

/// Whether the `regex` crate compiles `pattern`.
pub uninterp spec fn pattern_compiles(pattern: Seq<char>) -> bool;

/// The text of capture group `group` in the first match of `pattern` in `haystack`, where
/// there is a match and the group takes part in it.
pub uninterp spec fn pattern_capture(pattern: Seq<char>, haystack: Seq<char>, group: nat) -> Option<Seq<char>>;

/// `bytes` read as UTF-8, each invalid sequence replaced by U+FFFD.
pub uninterp spec fn lossy_utf8(bytes: Seq<u8>) -> Seq<char>;

/// An encoding of `encoding_rs`, with the label it was found by.
pub struct KnownEncoding {
    label: String,
    encoding: &'static Encoding,
}

impl View for KnownEncoding {
    type V = Seq<char>;

    /// The label the encoding was found by.
    closed spec fn view(&self) -> Seq<char> {
        self.label@
    }
}

/// A pattern that the `regex` crate compiled, with its source text.
pub struct CompiledPattern {
    pattern: String,
    regex: Regex,
}

impl View for CompiledPattern {
    type V = Seq<char>;

    /// The source text of the pattern.
    closed spec fn view(&self) -> Seq<char> {
        self.pattern@
    }
}

/// `encoding_rs::Encoding::for_label`: the encoding that the label `label` names (after ASCII
/// white space is trimmed and letters are made small), held with `label`; `None` for a label
/// the Encoding Standard does not define. The label is handed over as its UTF-8 bytes.
#[verifier::external_body]
fn lookup_encoding(label: &str) -> (r: Option<KnownEncoding>)
    ensures
        r is Some <==> label_encoding_name(label@) is Some,
        r matches Some(k) ==> k@ == label@,
{
    Encoding::for_label(label.as_bytes()).map(|encoding| KnownEncoding { label: label.to_string(), encoding })
}

/// `encoding_rs::UTF_8`, the encoding that the label `utf-8` names, held with that label.
#[verifier::external_body]
fn utf8_encoding() -> (k: KnownEncoding)
    ensures
        k@ == "utf-8"@,
{
    KnownEncoding { label: "utf-8".to_string(), encoding: encoding_rs::UTF_8 }
}

/// `encoding_rs::Encoding::name`: the name of the encoding, which is the name that its label
/// finds.
#[verifier::external_body]
fn encoding_name(k: &KnownEncoding) -> (n: &'static str)
    ensures
        label_encoding_name(k@) == Some(n@),
{
    k.encoding.name()
}

/// `encoding_rs::Encoding::decode`: `bytes` decoded in the encoding (a byte order mark, if any,
/// chooses the encoding and is dropped), malformed sequences replaced by U+FFFD, with whether
/// any was. The crate panics only where the size of the output overflows `usize`, which no
/// input held in memory reaches.
#[verifier::external_body]
fn decode_in(k: &KnownEncoding, bytes: &[u8]) -> (r: (String, bool))
    ensures
        (r.0@, r.1) == decoded_with(k@, bytes@),
{
    let (text, _, had_errors) = k.encoding.decode(bytes);
    (text.into_owned(), had_errors)
}

/// `regex::Regex::new`: `pattern` compiled, held with its source; `None` where the crate
/// refuses it (an invalid pattern, or one over the default size limit).
#[verifier::external_body]
fn compile_pattern(pattern: &str) -> (r: Option<CompiledPattern>)
    ensures
        r is Some <==> pattern_compiles(pattern@),
        r matches Some(c) ==> c@ == pattern@,
{
    Regex::new(pattern).ok().map(|regex| CompiledPattern { pattern: pattern.to_string(), regex })
}

/// `regex::Regex::captures`: the text of capture group `group` of the first match in
/// `haystack`, read through `Captures::get` and `Match::as_str`.
#[verifier::external_body]
fn capture_in(c: &CompiledPattern, haystack: &str, group: usize) -> (r: Option<String>)
    ensures
        match r {
            Some(s) => pattern_capture(c@, haystack@, group as nat) == Some(s@),
            None => pattern_capture(c@, haystack@, group as nat) is None,
        },
{
    c.regex.captures(haystack).and_then(|caps| caps.get(group)).map(|m| m.as_str().to_string())
}

/// `regex::Regex::is_match`: whether the pattern matches somewhere in `haystack`, which is when
/// there is a first match, and so its whole-match group (group 0, which every match has).
#[verifier::external_body]
fn pattern_is_found(c: &CompiledPattern, haystack: &str) -> (r: bool)
    ensures
        r == pattern_capture(c@, haystack@, 0) is Some,
{
    c.regex.is_match(haystack)
}

impl CompiledPattern {
    /// `pattern` compiled; `None` where the `regex` crate refuses it.
    pub fn compile(pattern: &str) -> (r: Option<CompiledPattern>)
        ensures
            r is Some <==> pattern_compiles(pattern@),
            r matches Some(c) ==> c@ == pattern@,
    {
        compile_pattern(pattern)
    }

    /// Whether the pattern matches somewhere in `haystack`.
    pub fn is_found_in(&self, haystack: &str) -> (r: bool)
        ensures
            r == pattern_capture(self@, haystack@, 0) is Some,
    {
        pattern_is_found(self, haystack)
    }
}

/// The inline flags of a pattern for the bits of `flags` that stand for ignoring case (2),
/// multi-line (8), dot matching new lines (16) and verbose (64).
pub open spec fn flag_letters(flags: u32) -> Seq<char> {
    (if flags & 2 != 0 { seq!['i'] } else { Seq::empty() })
        + (if flags & 8 != 0 { seq!['m'] } else { Seq::empty() })
        + (if flags & 16 != 0 { seq!['s'] } else { Seq::empty() })
        + (if flags & 64 != 0 { seq!['x'] } else { Seq::empty() })
}

/// `pattern` with the inline flags of `flags` set on it: `(?flags:pattern)`, or the pattern as
/// it is where no flag is set.
pub fn pattern_with_flags(pattern: &str, flags: u32) -> (out: String)
    ensures
        out@ == (if flag_letters(flags).len() == 0 {
            pattern@
        } else {
            "(?"@ + flag_letters(flags) + ":"@ + pattern@ + ")"@
        }),
{
    let mut letters = String::new();
    if flags & 2 != 0 {
        push_char(&mut letters, 'i');
    }
    if flags & 8 != 0 {
        push_char(&mut letters, 'm');
    }
    if flags & 16 != 0 {
        push_char(&mut letters, 's');
    }
    if flags & 64 != 0 {
        push_char(&mut letters, 'x');
    }
    proof {
        assert(letters@ =~= flag_letters(flags));
    }
    let any = flags & 2 != 0 || flags & 8 != 0 || flags & 16 != 0 || flags & 64 != 0;
    if !any {
        return string_from_chars(&chars_of(pattern));
    }
    let mut out = String::new();
    push_str(&mut out, "(?");
    push_str(&mut out, letters.as_str());
    push_str(&mut out, ":");
    push_str(&mut out, pattern);
    push_str(&mut out, ")");
    out
}

/// `String::from_utf8_lossy` from std: `bytes` read as UTF-8, each invalid sequence replaced
/// by U+FFFD.
#[verifier::external_body]
fn utf8_lossy(bytes: &[u8]) -> (s: String)
    ensures
        s@ == lossy_utf8(bytes@),
{
    String::from_utf8_lossy(bytes).into_owned()
}

/// The standard label for a few spellings of common encodings that the Encoding Standard does
/// not list.
pub open spec fn alias_label(n: Seq<char>) -> Option<Seq<char>> {
    if n == "latin-1"@ || n == "latin1"@ || n == "iso_8859-1"@ || n == "iso8859-1"@ {
        Some("iso-8859-1"@)
    } else if n == "windows_1252"@ || n == "cp1252"@ {
        Some("windows-1252"@)
    } else {
        None
    }
}

/// The label by which the encoding of `label` is found: the normalized label where
/// `encoding_rs` knows it, else its standard alias where it knows that; `None` where neither.
pub open spec fn lookup_label(label: Seq<char>) -> Option<Seq<char>> {
    let n = normalized_label(label);
    if label_encoding_name(n) is Some {
        Some(n)
    } else {
        match alias_label(n) {
            Some(a) => if label_encoding_name(a) is Some { Some(a) } else { None },
            None => None,
        }
    }
}

/// The name of the encoding that `label` finds, if it finds one.
pub open spec fn encoding_name_for(label: Seq<char>) -> Option<Seq<char>> {
    match lookup_label(label) {
        Some(l) => label_encoding_name(l),
        None => None,
    }
}

/// What decoding `bytes` by `label` gives, where `label` finds an encoding.
pub open spec fn decoding(label: Seq<char>, bytes: Seq<u8>) -> Option<(Seq<char>, bool)> {
    match lookup_label(label) {
        Some(l) => Some(decoded_with(l, bytes)),
        None => None,
    }
}

fn alias_for(n: &str) -> (r: Option<&'static str>)
    ensures
        match r {
            Some(a) => alias_label(n@) == Some(a@),
            None => alias_label(n@) is None,
        },
{
    if str_eq(n, "latin-1") || str_eq(n, "latin1") || str_eq(n, "iso_8859-1") || str_eq(n, "iso8859-1") {
        Some("iso-8859-1")
    } else if str_eq(n, "windows_1252") || str_eq(n, "cp1252") {
        Some("windows-1252")
    } else {
        None
    }
}

/// The encoding that `label` names: looked up by its normalized form, or by the standard
/// alias of that form.
pub fn encoding_for_label(label: &str) -> (r: Option<KnownEncoding>)
    ensures
        match r {
            Some(k) => lookup_label(label@) == Some(k@),
            None => lookup_label(label@) is None,
        },
{
    let n = normalize_encoding_label(label);
    match lookup_encoding(n.as_str()) {
        Some(k) => Some(k),
        None => match alias_for(n.as_str()) {
            Some(a) => lookup_encoding(a),
            None => None,
        },
    }
}

/// Whether `label` names an encoding that `excluded` rules out: an entry equal to its
/// normalized form, or one that finds the same encoding.
pub open spec fn excluded_by(label: Seq<char>, excluded: Seq<Seq<char>>) -> bool {
    let n = normalized_label(label);
    exists|i: int| 0 <= i < excluded.len() && (excluded[i] == n || {
        &&& encoding_name_for(#[trigger] excluded[i]) is Some
        &&& encoding_name_for(excluded[i]) == encoding_name_for(n)
    })
}

/// The labels of `excluded` as character sequences.
pub open spec fn label_views(excluded: Seq<String>) -> Seq<Seq<char>> {
    excluded.map_values(|e: String| e@)
}

/// Whether `label` names an encoding that `excluded` rules out.
pub fn is_excluded_encoding(label: &str, excluded: &Vec<String>) -> (r: bool)
    ensures
        r == excluded_by(label@, label_views(excluded@)),
{
    let n = normalize_encoding_label(label);
    let own = encoding_for_label(n.as_str());
    let ghost views = label_views(excluded@);
    let mut i: usize = 0;
    while i < excluded.len()
        invariant
            i <= excluded@.len(),
            views == label_views(excluded@),
            n@ == normalized_label(label@),
            match own {
                Some(k) => lookup_label(n@) == Some(k@),
                None => lookup_label(n@) is None,
            },
            forall|k: int| 0 <= k < i ==> !(views[k] == n@ || {
                &&& encoding_name_for(#[trigger] views[k]) is Some
                &&& encoding_name_for(views[k]) == encoding_name_for(n@)
            }),
        decreases excluded@.len() - i,
    {
        let e = excluded[i].as_str();
        assert(views[i as int] == e@);
        if str_eq(e, n.as_str()) {
            return true;
        }
        match (encoding_for_label(e), &own) {
            (Some(left), Some(right)) => {
                let left_name = encoding_name(&left);
                let right_name = encoding_name(right);
                if str_eq(left_name, right_name) {
                    return true;
                }
            },
            _ => {},
        }
        i += 1;
    }
    false
}

/// `bytes` decoded in the encoding that `label` names, with whether a malformed sequence was
/// replaced; `None` where `label` names none.
pub fn decode_with_encoding(bytes: &[u8], label: &str) -> (r: Option<(String, bool)>)
    ensures
        match r {
            Some((text, had_errors)) => decoding(label@, bytes@) == Some((text@, had_errors)),
            None => decoding(label@, bytes@) is None,
        },
{
    match encoding_for_label(label) {
        Some(k) => Some(decode_in(&k, bytes)),
        None => None,
    }
}

/// The pattern that finds the encoding an XML declaration names.
pub const XML_ENCODING_PATTERN: &'static str = "(?i)<\\?xml[^>]*\\bencoding\\s*=\\s*[\"']?\\s*([A-Za-z0-9._:-]+)";

/// The pattern that finds a `charset=` parameter.
pub const CHARSET_PATTERN: &'static str = "(?i)\\bcharset\\s*=\\s*[\"']?\\s*([A-Za-z0-9._:-]+)";

/// How many leading bytes are searched for a declared encoding.
pub const DECLARATION_WINDOW: usize = 4096;

/// The encoding label found in the markup's first bytes read as text: the one an XML
/// declaration names, else the value of a `charset=`; `xml` and `charset` are what the two
/// patterns capture there. Normalized as labels are.
pub open spec fn declared_label(xml: Option<Seq<char>>, charset: Option<Seq<char>>) -> Option<Seq<char>> {
    match xml {
        Some(x) => Some(normalized_label(x)),
        None => match charset {
            Some(c) => Some(normalized_label(c)),
            None => None,
        },
    }
}

/// The text searched for a declared encoding: the first bytes of `bytes`, read as UTF-8.
pub open spec fn declaration_window(bytes: Seq<u8>) -> Seq<char> {
    lossy_utf8(bytes.take(if bytes.len() < DECLARATION_WINDOW { bytes.len() as int } else { DECLARATION_WINDOW as int }))
}

/// The encoding that the markup `bytes` declares, if the patterns compile and find one.
pub open spec fn declared_encoding(bytes: Seq<u8>) -> Option<Seq<char>> {
    let window = declaration_window(bytes);
    if !pattern_compiles(XML_ENCODING_PATTERN@) {
        None
    } else {
        let xml = pattern_capture(XML_ENCODING_PATTERN@, window, 1);
        let charset = if xml is None && pattern_compiles(CHARSET_PATTERN@) {
            pattern_capture(CHARSET_PATTERN@, window, 1)
        } else {
            None
        };
        declared_label(xml, charset)
    }
}

/// The label that an XML declaration's capture `xml`, else a `charset=` capture `charset`,
/// gives, normalized.
pub fn choose_declared_label(xml: Option<String>, charset: Option<String>) -> (r: Option<String>)
    ensures
        match r {
            Some(l) => declared_label(
                label_of(xml),
                label_of(charset),
            ) == Some(l@),
            None => xml is None && charset is None,
        },
{
    match xml {
        Some(x) => Some(normalize_encoding_label(x.as_str())),
        None => match charset {
            Some(c) => Some(normalize_encoding_label(c.as_str())),
            None => None,
        },
    }
}

/// The encoding that the markup `bytes` declares in its first bytes: an XML declaration's
/// `encoding`, else a `charset=`.
pub fn detect_declared_encoding(bytes: &[u8]) -> (r: Option<String>)
    ensures
        match r {
            Some(l) => declared_encoding(bytes@) == Some(l@),
            None => declared_encoding(bytes@) is None,
        },
{
    let window_len = if bytes.len() < DECLARATION_WINDOW { bytes.len() } else { DECLARATION_WINDOW };
    let head = slice_subrange(bytes, 0, window_len);
    proof {
        assert(head@ =~= bytes@.take(window_len as int));
    }
    let window = utf8_lossy(head);
    let xml_pattern = match compile_pattern(XML_ENCODING_PATTERN) {
        Some(p) => p,
        None => return None,
    };
    let xml = capture_in(&xml_pattern, window.as_str(), 1);
    let charset = if xml.is_none() {
        match compile_pattern(CHARSET_PATTERN) {
            Some(p) => capture_in(&p, window.as_str(), 1),
            None => None,
        }
    } else {
        None
    };
    choose_declared_label(xml, charset)
}

/// The characters of an optional label.
pub open spec fn label_of(o: Option<String>) -> Option<Seq<char>> {
    match o {
        Some(s) => Some(s@),
        None => None,
    }
}

/// Markup bytes read as text, with what was learned of their encoding.
pub struct DecodedMarkup {
    pub text: String,
    /// The label of the encoding the text was read in.
    pub original_encoding: Option<String>,
    /// The encoding the markup declares in its first bytes, if it was looked for and found.
    pub declared_html_encoding: Option<String>,
    /// Whether a malformed sequence was replaced by U+FFFD.
    pub contains_replacement_characters: bool,
}

/// A `DecodedMarkup` as plain values.
pub struct DecodedView {
    pub text: Seq<char>,
    pub original_encoding: Option<Seq<char>>,
    pub declared_html_encoding: Option<Seq<char>>,
    pub contains_replacement_characters: bool,
}

impl View for DecodedMarkup {
    type V = DecodedView;

    open spec fn view(&self) -> DecodedView {
        DecodedView {
            text: self.text@,
            original_encoding: match self.original_encoding { Some(e) => Some(e@), None => None },
            declared_html_encoding: match self.declared_html_encoding { Some(e) => Some(e@), None => None },
            contains_replacement_characters: self.contains_replacement_characters,
        }
    }
}

/// The labels tried in turn: the one the caller gave, else the declared one, else UTF-8 and
/// then ISO-8859-1.
pub open spec fn candidate_labels(given: Option<Seq<char>>, declared: Option<Seq<char>>) -> Seq<Seq<char>> {
    match given {
        Some(g) => seq![g],
        None => match declared {
            Some(d) => seq![d],
            None => seq!["utf-8"@, "iso-8859-1"@],
        },
    }
}

/// The declared label, normalized, as the outcome reports it.
pub open spec fn reported_declaration(declared: Option<Seq<char>>) -> Option<Seq<char>> {
    match declared {
        Some(d) => Some(normalized_label(d)),
        None => None,
    }
}

/// Whether the label `label` is taken: it is not excluded (only labels the library chose can
/// be) and decoding by it finds an encoding and replaces nothing.
pub open spec fn candidate_taken(label: Seq<char>, bytes: Seq<u8>, given: bool, excluded: Seq<Seq<char>>) -> bool {
    &&& !(!given && excluded_by(label, excluded))
    &&& decoding(label, bytes) matches Some((_, false))
}

/// The outcome of taking `label`.
pub open spec fn taken_outcome(label: Seq<char>, bytes: Seq<u8>, declared: Option<Seq<char>>) -> DecodedView {
    DecodedView {
        text: decoding(label, bytes).unwrap().0,
        original_encoding: Some(normalized_label(label)),
        declared_html_encoding: reported_declaration(declared),
        contains_replacement_characters: false,
    }
}

/// What reading the markup `bytes` gives, where `given` is the encoding the caller names and
/// `excluded` the labels it rules out: the first candidate label taken, else UTF-8 with
/// malformed sequences replaced.
pub open spec fn decoded_markup(bytes: Seq<u8>, given: Option<Seq<char>>, excluded: Seq<Seq<char>>) -> DecodedView {
    let declared = if given is None { declared_encoding(bytes) } else { None };
    let labels = candidate_labels(given, declared);
    if candidate_taken(labels[0], bytes, given is Some, excluded) {
        taken_outcome(labels[0], bytes, declared)
    } else if labels.len() > 1 && candidate_taken(labels[1], bytes, given is Some, excluded) {
        taken_outcome(labels[1], bytes, declared)
    } else {
        DecodedView {
            text: decoded_with("utf-8"@, bytes).0,
            original_encoding: Some("utf-8"@),
            declared_html_encoding: reported_declaration(declared),
            contains_replacement_characters: decoded_with("utf-8"@, bytes).1,
        }
    }
}

fn normalized_declaration(declared: &Option<String>) -> (r: Option<String>)
    ensures
        match r {
            Some(x) => reported_declaration(label_of(*declared)) == Some(x@),
            None => declared is None,
        },
{
    match declared {
        Some(d) => Some(normalize_encoding_label(d.as_str())),
        None => None,
    }
}

/// What taking the candidate `label` makes of its decoding `attempt`: the markup read in it,
/// where the attempt found an encoding and replaced nothing; `None` otherwise.
pub fn markup_from_attempt(label: &str, attempt: Option<(String, bool)>, declared: &Option<String>) -> (r: Option<DecodedMarkup>)
    ensures
        match r {
            Some(m) => attempt matches Some((text, false)) && m@ == (DecodedView {
                text: text@,
                original_encoding: Some(normalized_label(label@)),
                declared_html_encoding: reported_declaration(label_of(*declared)),
                contains_replacement_characters: false,
            }),
            None => !(attempt matches Some((_, false))),
        },
{
    match attempt {
        Some((text, false)) => Some(DecodedMarkup {
            text,
            original_encoding: Some(normalize_encoding_label(label)),
            declared_html_encoding: normalized_declaration(declared),
            contains_replacement_characters: false,
        }),
        _ => None,
    }
}

/// The markup read as UTF-8, the last resort, from that decoding `decoded`.
pub fn markup_from_utf8(decoded: (String, bool), declared: &Option<String>) -> (m: DecodedMarkup)
    ensures
        m@ == (DecodedView {
            text: decoded.0@,
            original_encoding: Some("utf-8"@),
            declared_html_encoding: reported_declaration(label_of(*declared)),
            contains_replacement_characters: decoded.1,
        }),
{
    let (text, had_errors) = decoded;
    DecodedMarkup {
        text,
        original_encoding: Some("utf-8".to_string()),
        declared_html_encoding: normalized_declaration(declared),
        contains_replacement_characters: had_errors,
    }
}

fn try_candidate(bytes: &[u8], label: &str, given: bool, excluded: &Vec<String>, declared: &Option<String>) -> (r: Option<DecodedMarkup>)
    ensures
        match r {
            Some(m) => candidate_taken(label@, bytes@, given, label_views(excluded@))
                && m@ == taken_outcome(label@, bytes@, label_of(*declared)),
            None => !candidate_taken(label@, bytes@, given, label_views(excluded@)),
        },
{
    if !given && is_excluded_encoding(label, excluded) {
        return None;
    }
    let attempt = decode_with_encoding(bytes, label);
    markup_from_attempt(label, attempt, declared)
}

/// The markup `bytes` read as text: in the encoding `from_encoding` names where the caller
/// names one, else in the encoding the markup declares, else as UTF-8 or then ISO-8859-1; a
/// label the caller did not give is skipped where `exclude_encodings` rules it out, and one
/// whose decoding replaces a malformed sequence is passed over. Where none is taken, the
/// markup is read as UTF-8 with malformed sequences replaced.
pub fn decode_markup_bytes(bytes: &[u8], from_encoding: Option<String>, exclude_encodings: &Vec<String>) -> (m: DecodedMarkup)
    ensures
        m@ == decoded_markup(bytes@, label_of(from_encoding), label_views(exclude_encodings@)),
{
    let declared = if from_encoding.is_none() { detect_declared_encoding(bytes) } else { None };
    let given = from_encoding.is_some();
    let ghost given_view = label_of(from_encoding);
    let ghost declared_view = label_of(declared);
    let ghost labels = candidate_labels(given_view, declared_view);
    let first: String = match &from_encoding {
        Some(f) => string_from_chars(&chars_of(f.as_str())),
        None => match &declared {
            Some(d) => string_from_chars(&chars_of(d.as_str())),
            None => "utf-8".to_string(),
        },
    };
    proof {
        reveal_strlit("utf-8");
        assert(first@ == labels[0]);
    }
    if let Some(m) = try_candidate(bytes, first.as_str(), given, exclude_encodings, &declared) {
        return m;
    }
    if !given && declared.is_none() {
        let second = "iso-8859-1";
        proof {
            reveal_strlit("iso-8859-1");
            assert(second@ == labels[1]);
        }
        if let Some(m) = try_candidate(bytes, second, given, exclude_encodings, &declared) {
            return m;
        }
    }
    let k = utf8_encoding();
    let decoded = decode_in(&k, bytes);
    markup_from_utf8(decoded, &declared)
}

} // verus!
