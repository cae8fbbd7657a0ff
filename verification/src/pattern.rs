//! Regular expressions: compiled and applied by the `regex` crate, which this
//! library trusts for what a pattern matches.

use vstd::prelude::*;

verus! {

/// `regex::Regex`, a compiled expression: carried along, never looked into.
#[verifier::external_type_specification]
#[verifier::external_body]
pub struct ExRegex(regex::Regex);

/// `regex::Error`, the compiler's complaint: carried along, never looked
/// into.
#[verifier::external_type_specification]
#[verifier::external_body]
pub struct ExRegexError(regex::Error);

/// What `Regex::replace_all` makes of `haystack` with the expression that
/// `Regex::new` compiles from `pattern` and with the replacement `rep`, in
/// which `$1`, `$name` and the like stand for capture groups.
pub uninterp spec fn regex_replaced(pattern: Seq<char>, haystack: Seq<char>, rep: Seq<char>) -> Seq<
    char,
>;

/// A pattern together with the expression compiled from it. Only `compile`
/// makes one, so the two always belong together.
pub struct Pattern {
    source: String,
    regex: regex::Regex,
}

impl View for Pattern {
    type V = Seq<char>;

    /// The pattern as text.
    closed spec fn view(&self) -> Seq<char> {
        self.source@
    }
}

/// `Regex::new`: compiles `pattern`, or says why it cannot. Nothing is claimed
/// of which patterns compile; the result keeps the text it was compiled from.
#[verifier::external_body]
pub(crate) fn compile(pattern: &str) -> (r: Result<Pattern, regex::Error>)
    ensures
        r matches Ok(compiled) ==> compiled@ == pattern@,
{
    let regex = regex::Regex::new(pattern)?;
    Ok(Pattern { source: pattern.to_owned(), regex })
}

/// `Regex::replace_all` with a string as replacement: every match of the
/// pattern in `haystack`, leftmost first and without overlap, replaced by the
/// expansion of `rep`. The result is a function of pattern, haystack and
/// replacement; which function is the crate's business.
#[verifier::external_body]
pub(crate) fn replace_all(pattern: &Pattern, haystack: &str, rep: &str) -> (out: String)
    ensures
        out@ == regex_replaced(pattern@, haystack@, rep@),
{
    pattern.regex.replace_all(haystack, rep).into_owned()
}

/// The message of a `regex::Error`, as its `Display` gives it.
#[verifier::external_body]
pub(crate) fn describe(error: &regex::Error) -> String {
    error.to_string()
}

/// A pattern that did not compile.
#[derive(Debug)]
pub struct PatternError {
    /// The pattern as it was handed to the compiler.
    pub pattern: String,
    /// What the compiler said of it.
    pub reason: String,
}

/// Compiles `pattern`. Whether a pattern compiles is for the compiler to
/// say; the result, or the error, is of the pattern that was given.
pub fn compile_pattern(pattern: &str) -> (r: Result<Pattern, PatternError>)
    ensures
        match r {
            Ok(compiled) => compiled@ == pattern@,
            Err(e) => e.pattern@ == pattern@,
        },
{
    match compile(pattern) {
        Ok(compiled) => Ok(compiled),
        Err(error) => Err(PatternError { pattern: pattern.to_owned(), reason: describe(&error) }),
    }
}

} // verus!
