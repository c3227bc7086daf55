use vstd::pervasive::unreached;
use vstd::prelude::*;

verus! {

/// Characters that are not word characters, as runs.
pub const NONWORD_PATTERN: &'static str = r"\W+";

/// A digit or a white space character anywhere in a word.
pub const REJECT_PATTERN: &'static str = r"[\d\s]";

/// A word character that is neither upper case nor title case.
pub const SMALL_PATTERN: &'static str = r"[\w--\p{Lu}\p{Lt}]";

/// An upper case or title case letter.
pub const CAPS_PATTERN: &'static str = r"[\p{Lu}\p{Lt}]";

/// A line whose first character other than white space is `#`.
pub const COMMENT_PATTERN: &'static str = r"^\s*#";

/// The patterns that the library compiles: each is valid syntax and far
/// below the compiled size limit.
pub open spec fn library_pattern(p: Seq<char>) -> bool {
    ||| p == NONWORD_PATTERN@
    ||| p == REJECT_PATTERN@
    ||| p == SMALL_PATTERN@
    ||| p == CAPS_PATTERN@
    ||| p == COMMENT_PATTERN@
}

/// What `str::to_lowercase` gives for a string.
pub uninterp spec fn lower_of(s: Seq<char>) -> Seq<char>;

/// What `regex::Regex::replace_all` gives when every match of `pattern`
/// in `text` is replaced by `rep`.
pub uninterp spec fn regex_replaced(pattern: Seq<char>, text: Seq<char>, rep: Seq<char>) -> Seq<char>;

/// Whether `regex::Regex::is_match` finds `pattern` in `text`.
pub uninterp spec fn regex_matches(pattern: Seq<char>, text: Seq<char>) -> bool;

/// What `str::trim` gives for a string.
pub uninterp spec fn trim_of(s: Seq<char>) -> Seq<char>;

/// Relies on `str::trim`: the string without leading and trailing white space.
#[verifier::external_body]
pub(crate) fn trim(s: &str) -> (r: String)
    ensures
        r@ == trim_of(s@),
{
    s.trim().to_string()
}

/// Relies on `str::to_lowercase`: the lower case form of each character.
#[verifier::external_body]
pub(crate) fn lowercase(s: &str) -> (r: String)
    ensures
        r@ == lower_of(s@),
{
    s.to_lowercase()
}

/// Relies on `regex::Regex::new` and `regex::Regex::replace_all`: every
/// match of `pattern` in `text` replaced by `rep`; `None` where the pattern
/// does not compile, which `Regex::new` reports only for bad syntax or an
/// exceeded size limit, so never for the library's own patterns.
#[verifier::external_body]
pub(crate) fn replace_all(pattern: &str, text: &str, rep: &str) -> (r: Option<String>)
    ensures
        r matches Some(t) ==> t@ == regex_replaced(pattern@, text@, rep@),
        library_pattern(pattern@) ==> r is Some,
{
    match regex::Regex::new(pattern) {
        Ok(re) => Some(re.replace_all(text, rep).into_owned()),
        Err(_) => None,
    }
}

/// Relies on `regex::Regex::new` and `regex::Regex::is_match`: whether
/// `pattern` matches somewhere in `text`; `None` where the pattern does not
/// compile, which never happens for the library's own patterns.
#[verifier::external_body]
pub(crate) fn is_match(pattern: &str, text: &str) -> (r: Option<bool>)
    ensures
        r matches Some(b) ==> b == regex_matches(pattern@, text@),
        library_pattern(pattern@) ==> r is Some,
{
    match regex::Regex::new(pattern) {
        Ok(re) => Some(re.is_match(text)),
        Err(_) => None,
    }
}

/// Relies on `str::chars`: the characters of a string, in order.
#[verifier::external_body]
pub(crate) fn chars_of(s: &str) -> (r: Vec<char>)
    ensures
        r@ == s@,
{
    s.chars().collect()
}

/// Relies on `String`'s `FromIterator<char>`: the string of the characters, in order.
#[verifier::external_body]
pub(crate) fn string_of(v: &Vec<char>) -> (r: String)
    ensures
        r@ == v@,
{
    v.iter().collect()
}

/// The normalized form of a word: lower case, with every non-word character
/// removed.
pub open spec fn normal_form(w: Seq<char>) -> Seq<char> {
    regex_replaced(NONWORD_PATTERN@, lower_of(w), ""@)
}

/// Whether a raw word holds a digit or white space, and is left out.
pub open spec fn rejected(w: Seq<char>) -> bool {
    regex_matches(REJECT_PATTERN@, w)
}

/// The blanked display form of a word: each word character turned into `_`,
/// other characters kept.
pub open spec fn blank_form(w: Seq<char>) -> Seq<char> {
    regex_replaced(CAPS_PATTERN@, regex_replaced(SMALL_PATTERN@, w, "_"@), "_"@)
}

/// Whether a blacklist line is a comment.
pub open spec fn comment_line(line: Seq<char>) -> bool {
    regex_matches(COMMENT_PATTERN@, line)
}

/// Normalizes a word.
pub fn normalize(w: &str) -> (r: Vec<char>)
    ensures
        r@ == normal_form(w@),
{
    let lower = lowercase(w);
    match replace_all(NONWORD_PATTERN, lower.as_str(), "") {
        Some(n) => chars_of(n.as_str()),
        None => unreached(),
    }
}

/// Whether a raw word is left out for holding a digit or white space.
pub fn is_rejected(w: &str) -> (r: bool)
    ensures
        r == rejected(w@),
{
    match is_match(REJECT_PATTERN, w) {
        Some(b) => b,
        None => unreached(),
    }
}

/// The blanked display form of a word.
pub fn blank(w: &str) -> (r: String)
    ensures
        r@ == blank_form(w@),
{
    let small = match replace_all(SMALL_PATTERN, w, "_") {
        Some(t) => t,
        None => unreached(),
    };
    match replace_all(CAPS_PATTERN, small.as_str(), "_") {
        Some(t) => t,
        None => unreached(),
    }
}

/// Whether a blacklist line is a comment.
pub fn is_comment(line: &str) -> (r: bool)
    ensures
        r == comment_line(line@),
{
    match is_match(COMMENT_PATTERN, line) {
        Some(b) => b,
        None => unreached(),
    }
}

} // verus!
