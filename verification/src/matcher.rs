//! Compiled annotation patterns and finding the first annotation on a line.
use vstd::prelude::*;
use vstd::utf8::encode_utf8;
use vstd::utf8::is_char_boundary;

verus! {

#[verifier::external_type_specification]
#[verifier::external_body]
pub struct ExRegex(regex::Regex);

/// What `regex::Regex::new` gives for a pattern: `Ok` when the pattern
/// compiles, otherwise `Err` with the text of the error it reports.
pub uninterp spec fn regex_compile(pattern: Seq<char>) -> Result<(), Seq<char>>;

/// What `Regex::find` gives for the regex compiled from `pattern` on
/// `haystack`: the leftmost-first match, as its start byte offset and the
/// matched text, or `None` when there is no match.
pub uninterp spec fn regex_first_match(pattern: Seq<char>, haystack: Seq<char>) -> Option<(int, Seq<char>)>;

/// The pattern text a compiled regex was built from, as `Regex::as_str`
/// returns it.
pub uninterp spec fn regex_source(r: regex::Regex) -> Seq<char>;

/// Calls `regex::Regex::new`. Claimed: it succeeds exactly when
/// `regex_compile` is `Ok` for the pattern, the regex it returns is built
/// from that pattern (its `as_str` is the pattern), and on failure the
/// message is the one `regex_compile` names.
#[verifier::external_body]
fn compile_regex(source: &str) -> (res: Result<regex::Regex, String>)
    ensures
        match res {
            Ok(r) => regex_compile(source@) is Ok && regex_source(r) == source@,
            Err(msg) => regex_compile(source@) == Err::<(), Seq<char>>(msg@),
        },
{
    match regex::Regex::new(source) {
        Ok(re) => Ok(re),
        Err(e) => Err(e.to_string()),
    }
}

/// A regular expression together with the pattern text it was compiled from.
pub struct Pattern {
    source: String,
    regex: regex::Regex,
}

impl Pattern {
    /// The regex is always the one compiled from the pattern text.
    #[verifier::type_invariant]
    spec fn compiled_from_source(self) -> bool {
        regex_source(self.regex) == self.source@
    }
}

impl View for Pattern {
    type V = Seq<char>;

    /// The pattern text.
    closed spec fn view(&self) -> Seq<char> {
        self.source@
    }
}

impl Pattern {
    /// Compiles `source`; on failure returns the regex engine's message.
    pub fn new(source: &str) -> (res: Result<Pattern, String>)
        ensures
            res is Ok <==> regex_compile(source@) is Ok,
            res matches Ok(p) ==> p@ == source@,
            res matches Err(msg) ==> regex_compile(source@) == Err::<(), Seq<char>>(msg@),
    {
        match compile_regex(source) {
            Ok(regex) => Ok(Pattern { source: source.to_owned(), regex }),
            Err(msg) => Err(msg),
        }
    }

    /// The pattern text this was compiled from.
    pub fn as_str(&self) -> (s: &str)
        ensures
            s@ == self@,
    {
        self.source.as_str()
    }

    /// Calls `Regex::find` on the compiled pattern. Claimed: the result is
    /// `regex_first_match` of the pattern text and the haystack, and, as the
    /// regex documentation guarantees of a `Match`, its start and end are
    /// character boundaries of the haystack and the matched text is the
    /// haystack's bytes between them; a start offset never exceeds
    /// `isize::MAX`, the bound on the length of any `str`.
    #[verifier::external_body]
    fn find(&self, haystack: &str) -> (res: Option<(usize, String)>)
        ensures
            res is None <==> regex_first_match(self@, haystack@) is None,
            res matches Some((start, text)) ==> regex_first_match(self@, haystack@)
                == Some((start as int, text@)),
            res matches Some((start, text)) ==> start <= isize::MAX && match_in_place(
                haystack@,
                start as int,
                text@,
            ),
    {
        self.regex.find(haystack).map(|m| (m.start(), m.as_str().to_owned()))
    }

    /// Calls `Regex::is_match`. Claimed, as its documentation says: true
    /// exactly when there is a match anywhere in the haystack, that is,
    /// when `regex_first_match` is `Some`.
    #[verifier::external_body]
    pub fn is_match(&self, haystack: &str) -> (res: bool)
        ensures
            res == regex_first_match(self@, haystack@) is Some,
    {
        self.regex.is_match(haystack)
    }
}

/// `text` sits in `haystack` at byte offset `start`: both ends are character
/// boundaries and the bytes between them encode `text`.
pub open spec fn match_in_place(haystack: Seq<char>, start: int, text: Seq<char>) -> bool {
    let bytes = encode_utf8(haystack);
    let end = start + encode_utf8(text).len();
    &&& is_char_boundary(bytes, start)
    &&& is_char_boundary(bytes, end)
    &&& end <= bytes.len()
    &&& bytes.subrange(start, end) == encode_utf8(text)
}

/// The first annotation found on a line.
pub struct LineMatch {
    /// 1-based byte column where the match starts.
    pub column: usize,
    /// The matched text.
    pub tag: String,
}

/// The annotation a regex search result stands for: a match starting at
/// byte offset `s` with text `t` is reported at column `s + 1`.
pub open spec fn line_match_of(found: Option<(int, Seq<char>)>) -> Option<(int, Seq<char>)> {
    match found {
        Some((s, t)) => Some((s + 1, t)),
        None => None,
    }
}

/// The view of an optional `LineMatch`: its column and tag text.
pub open spec fn line_match_view(m: Option<LineMatch>) -> Option<(int, Seq<char>)> {
    match m {
        Some(lm) => Some((lm.column as int, lm.tag@)),
        None => None,
    }
}

/// Turns the result of a regex search into the reported annotation.
pub fn line_match_from(found: Option<(usize, String)>) -> (res: Option<LineMatch>)
    requires
        found matches Some((s, _)) ==> s < usize::MAX,
    ensures
        line_match_view(res) == line_match_of(
            match found {
                Some((s, t)) => Some((s as int, t@)),
                None => None,
            },
        ),
{
    match found {
        Some((start, tag)) => Some(LineMatch { column: start + 1, tag }),
        None => None,
    }
}

/// Finds the first annotation in `line`.
///
/// The default pattern `TODO|FIXME|HACK|XXX|BUG` has no word boundaries, so
/// a line like `"NOTABUG"` matches `BUG`; a custom pattern with `\b` avoids
/// that.
pub fn find_match(line: &str, pattern: &Pattern) -> (res: Option<LineMatch>)
    ensures
        line_match_view(res) == line_match_of(regex_first_match(pattern@, line@)),
        res matches Some(m) ==> m.column >= 1 && match_in_place(line@, m.column - 1, m.tag@),
{
    let found = pattern.find(line);
    line_match_from(found)
}

} // verus!
