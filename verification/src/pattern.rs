//! Patterns: regular expressions, compiled once and then tried on each
//! fortune.
use vstd::prelude::*;
use vstd::string::StringExecFns;
use crate::error::FortuneError;

verus! {

/// `regex::Regex`, a compiled regular expression. It is carried through as it
/// is: nothing is said of what it holds.
#[verifier::external_type_specification]
#[verifier::external_body]
pub struct ExRegex(regex::Regex);

/// `regex::Error`, the reason why a text did not compile. Nothing is said of
/// what it holds.
#[verifier::external_type_specification]
#[verifier::external_body]
pub struct ExRegexError(regex::Error);

/// Whether the regular expression written as `pattern`, with letters matched
/// in either case where `insensitive` is set, matches somewhere in `text`.
pub uninterp spec fn regex_is_match(pattern: Seq<char>, insensitive: bool, text: Seq<char>) -> bool;

/// A compiled pattern, with what it was compiled from.
#[derive(Debug)]
pub struct Pattern {
    source: String,
    insensitive: bool,
    compiled: regex::Regex,
}

impl Pattern {
    /// The regular expression as it was written.
    pub closed spec fn source(&self) -> Seq<char> {
        self.source@
    }

    /// Whether letters are matched in either case.
    pub closed spec fn insensitive(&self) -> bool {
        self.insensitive
    }

    /// Whether the pattern matches somewhere in `text`.
    pub open spec fn matches(&self, text: Seq<char>) -> bool {
        regex_is_match(self.source(), self.insensitive(), text)
    }

    /// Compiles `source`. Text that is no regular expression, or one that
    /// grows too large when compiled, is refused, and the error carries the
    /// text as it was given.
    pub fn new(source: &str, insensitive: bool) -> (r: Result<Pattern, FortuneError>)
        ensures
            match r {
                Ok(pattern) => pattern.source() == source@ && pattern.insensitive() == insensitive,
                Err(e) => e matches FortuneError::InvalidPattern { pattern } && pattern@ == source@,
            },
    {
        Pattern::from_compiled(source, compile(source, insensitive))
    }

    /// What comes of compiling `source`: the pattern where there is one, and
    /// else the error that carries `source` as it was given.
    pub fn from_compiled(source: &str, compiled: Result<Pattern, regex::Error>) -> (r: Result<
        Pattern,
        FortuneError,
    >)
        ensures
            match compiled {
                Ok(pattern) => r == Ok::<Pattern, FortuneError>(pattern),
                Err(_) => r matches Err(FortuneError::InvalidPattern { pattern }) && pattern@
                    == source@,
            },
    {
        match compiled {
            Ok(pattern) => Ok(pattern),
            Err(_) => Err(FortuneError::InvalidPattern { pattern: String::from_str(source) }),
        }
    }

    /// Tells whether the pattern matches somewhere in `text`.
    pub fn is_match(&self, text: &str) -> (found: bool)
        ensures
            found == self.matches(text@),
    {
        search(self, text)
    }

    /// The regular expression as it was written.
    pub fn as_str(&self) -> (source: &str)
        ensures
            source@ == self.source(),
    {
        self.source.as_str()
    }

    /// Whether letters are matched in either case.
    pub fn is_insensitive(&self) -> (insensitive: bool)
        ensures
            insensitive == self.insensitive(),
    {
        self.insensitive
    }
}

/// `regex::RegexBuilder::build`, for a builder made of `source` and given
/// `insensitive` as its case flag. Of a pattern that comes back the contract
/// says only what it was compiled from; it does not say which texts compile.
#[verifier::external_body]
fn compile(source: &str, insensitive: bool) -> (r: Result<Pattern, regex::Error>)
    ensures
        r matches Ok(pattern) ==> pattern.source() == source@ && pattern.insensitive()
            == insensitive,
{
    match regex::RegexBuilder::new(source).case_insensitive(insensitive).build() {
        Ok(compiled) => Ok(Pattern { source: source.to_owned(), insensitive, compiled }),
        Err(e) => Err(e),
    }
}

/// `regex::Regex::is_match`, on the expression that `pattern` holds: whether
/// there is a match anywhere in `text`. The answer depends on nothing but the
/// expression as written, the case flag, and the text.
#[verifier::external_body]
fn search(pattern: &Pattern, text: &str) -> (found: bool)
    ensures
        found == regex_is_match(pattern.source(), pattern.insensitive(), text@),
{
    pattern.compiled.is_match(text)
}

} // verus!
