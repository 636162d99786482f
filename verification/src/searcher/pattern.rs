//! Compiled regular expressions, through the `regex` and `regex-syntax` crates.
use vstd::prelude::*;
use regex::Regex;

verus! {

#[verifier::external_type_specification]
#[verifier::external_body]
pub struct ExRegex(Regex);

#[verifier::external_type_specification]
#[verifier::external_body]
pub struct ExRegexError(regex::Error);

/// The capture groups of the leftmost-first match of the regular expression
/// `pattern` in `haystack`, as half-open byte ranges (group 0, the whole match,
/// first; `None` for a group that took no part in the match), or `None` when the
/// expression does not match.
pub uninterp spec fn regex_captures(pattern: Seq<char>, haystack: Seq<char>) -> Option<
    Seq<Option<(usize, usize)>>,
>;

/// A compiled regular expression together with its source.
pub struct Pattern {
    source: String,
    re: Regex,
}

impl View for Pattern {
    type V = Seq<char>;

    /// The source of the expression.
    closed spec fn view(&self) -> Seq<char> {
        self.source@
    }
}

/// Whether `regex::Regex::new` accepts `pattern` (its syntax is valid and the
/// compiled program fits the default size limits).
pub uninterp spec fn regex_compiles(pattern: Seq<char>) -> bool;

/// `regex::Regex::new`: compiles `source`; it succeeds exactly when
/// `regex_compiles` holds of the source, and the result keeps `source`.
#[verifier::external_body]
pub(crate) fn pattern_new(source: String) -> (r: Result<Pattern, regex::Error>)
    ensures
        r is Ok <==> regex_compiles(source@),
        r matches Ok(p) ==> p@ == source@,
{
    match Regex::new(&source) {
        Ok(re) => Ok(Pattern { source, re }),
        Err(e) => Err(e),
    }
}

/// The view of an optional list of capture groups.
pub open spec fn captures_view(r: Option<Vec<Option<(usize, usize)>>>) -> Option<
    Seq<Option<(usize, usize)>>,
> {
    match r {
        Some(v) => Some(v@),
        None => None,
    }
}

/// `regex::Regex::captures`: the capture groups of the leftmost-first match, as
/// byte ranges (`Captures::iter` with `Match::start` and `Match::end`); this is
/// `regex_captures` of the pattern's source and the haystack.
#[verifier::external_body]
pub(crate) fn pattern_captures(p: &Pattern, haystack: &str) -> (r: Option<Vec<Option<(usize, usize)>>>)
    ensures
        captures_view(r) == regex_captures(p@, haystack@),
{
    p.re.captures(haystack).map(|caps| caps.iter().map(|m| m.map(|m| (m.start(), m.end()))).collect())
}

/// Characters that have a meaning in a regular expression and are escaped by
/// `regex_syntax::escape` (its `is_meta_character`).
pub open spec fn is_meta_character(c: char) -> bool {
    c == '\\' || c == '.' || c == '+' || c == '*' || c == '?' || c == '(' || c == ')' || c == '|'
        || c == '[' || c == ']' || c == '{' || c == '}' || c == '^' || c == '$' || c == '#' || c
        == '&' || c == '-' || c == '~'
}

/// `text` with a backslash put before every meta character.
pub open spec fn escaped(text: Seq<char>) -> Seq<char>
    decreases text.len(),
{
    if text.len() == 0 {
        Seq::empty()
    } else {
        let c = text.last();
        escaped(text.drop_last()) + if is_meta_character(c) {
            seq!['\\', c]
        } else {
            seq![c]
        }
    }
}

/// `regex_syntax::escape`: `text` with every meta character preceded by a
/// backslash.
#[verifier::external_body]
pub(crate) fn escape(text: &str) -> (r: String)
    ensures
        r@ == escaped(text@),
{
    regex_syntax::escape(text)
}

/// `regex_syntax::escape_into`: appends `text` with every meta character preceded
/// by a backslash.
#[verifier::external_body]
pub(crate) fn escape_into(text: &str, buf: &mut String)
    ensures
        final(buf)@ == old(buf)@ + escaped(text@),
{
    regex_syntax::escape_into(text, buf)
}

} // verus!
