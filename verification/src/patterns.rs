//! Regular expressions (the `regex` crate), compiled once from their source
//! and applied to page text.
use vstd::prelude::*;

verus! {

/// `regex::Regex`, a compiled regular expression, opaque here.
#[verifier::external_type_specification]
#[verifier::external_body]
pub struct ExRegex(regex::Regex);

/// `regex::Error`, why a pattern failed to compile, opaque here.
#[verifier::external_type_specification]
#[verifier::external_body]
pub struct ExRegexError(regex::Error);

/// Whether `regex::Regex::new` accepts `pattern` (its syntax, and the
/// default size limit).
pub uninterp spec fn regex_compiles(pattern: Seq<char>) -> bool;

/// The texts of the successive non-overlapping matches of `pattern` in
/// `haystack`, as `regex::Regex::find_iter` yields them.
pub uninterp spec fn regex_find_all(pattern: Seq<char>, haystack: Seq<char>) -> Seq<Seq<char>>;

/// `haystack` with every non-overlapping match of `pattern` replaced by
/// `replacement`, as `regex::Regex::replace_all` returns it.
pub uninterp spec fn regex_replace_all(
    pattern: Seq<char>,
    haystack: Seq<char>,
    replacement: Seq<char>,
) -> Seq<char>;

/// Compiles `source`: `regex::Regex::new`. It succeeds exactly when
/// `regex_compiles` holds of the source; nothing is claimed of the error.
#[verifier::external_body]
fn compile_regex(source: &str) -> (res: Result<regex::Regex, regex::Error>)
    ensures
        res is Ok <==> regex_compiles(source@),
{
    regex::Regex::new(source)
}

/// The message of a regex error (its `Display`); nothing is claimed of its
/// text.
#[verifier::external_body]
fn regex_error_text(e: &regex::Error) -> String {
    e.to_string()
}

/// Why a pattern was refused: the pattern and the regex crate's message.
#[derive(Debug)]
pub struct PatternError {
    pub pattern: String,
    pub reason: String,
}

/// A compiled regular expression together with the source it was compiled
/// from. `Pattern::new` is its only constructor, so `compiled` is always
/// what `regex::Regex::new` made of `source`.
#[derive(Debug)]
pub struct Pattern {
    source: String,
    compiled: regex::Regex,
}

impl Pattern {
    /// The source text the pattern was compiled from.
    pub closed spec fn source(&self) -> Seq<char> {
        self.source@
    }

    /// Compiles `source`.
    pub fn new(source: &str) -> (res: Result<Pattern, PatternError>)
        ensures
            res is Ok <==> regex_compiles(source@),
            res matches Ok(p) ==> p.source() == source@,
            res matches Err(e) ==> e.pattern@ == source@,
    {
        match compile_regex(source) {
            Ok(compiled) => Ok(Pattern { source: source.to_owned(), compiled }),
            Err(e) => Err(PatternError { pattern: source.to_owned(), reason: regex_error_text(&e) }),
        }
    }

    /// The source text.
    pub fn as_str(&self) -> (r: &str)
        ensures
            r@ == self.source(),
    {
        self.source.as_str()
    }

    /// The successive matches in `haystack`: `regex::Regex::find_iter`,
    /// each match taken as its text.
    #[verifier::external_body]
    pub(crate) fn find_all(&self, haystack: &str) -> (r: Vec<String>)
        ensures
            r@.map_values(|m: String| m@) == regex_find_all(self.source(), haystack@),
    {
        self.compiled.find_iter(haystack).map(|m| m.as_str().to_string()).collect()
    }

    /// `haystack` with every match replaced: `regex::Regex::replace_all`.
    #[verifier::external_body]
    pub(crate) fn replace_all(&self, haystack: &str, replacement: &str) -> (r: String)
        ensures
            r@ == regex_replace_all(self.source(), haystack@, replacement@),
    {
        self.compiled.replace_all(haystack, replacement).into_owned()
    }
}

} // verus!
