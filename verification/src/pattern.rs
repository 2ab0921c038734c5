//! Regular expressions, compiled and run by the `regex` crate.
use vstd::prelude::*;

verus! {

#[verifier::external_type_specification]
#[verifier::external_body]
pub struct ExRegex(regex::Regex);

/// Whether `regex::Regex::new` accepts `pattern`: it is valid syntax and its
/// compiled form fits the crate's default size limits.
pub uninterp spec fn pattern_compiles(pattern: Seq<char>) -> bool;

/// Whether the regular expression `pattern` matches somewhere in `text`, as
/// `regex::Regex::is_match` decides it.
pub uninterp spec fn pattern_match(pattern: Seq<char>, text: Seq<char>) -> bool;

/// A compiled regular expression, with the pattern it was compiled from.
pub(crate) struct CompiledPattern {
    re: regex::Regex,
    source: Ghost<Seq<char>>,
}

impl CompiledPattern {
    /// The pattern that the expression was compiled from.
    pub closed spec fn source(&self) -> Seq<char> {
        self.source@
    }
}

/// Calls `regex::Regex::new(pattern)`. Its contract claims that the call succeeds
/// exactly when [`pattern_compiles`] holds of `pattern`, and that what it gives
/// back is the expression of `pattern`. Which patterns compile is left to the
/// crate.
#[verifier::external_body]
pub(crate) fn compile_pattern(pattern: &str) -> (r: Option<CompiledPattern>)
    ensures
        r is Some <==> pattern_compiles(pattern@),
        r matches Some(c) ==> c.source() == pattern@,
{
    match regex::Regex::new(pattern) {
        Ok(re) => Some(CompiledPattern { re, source: Ghost(pattern@) }),
        Err(_) => None,
    }
}

/// Calls `regex::Regex::is_match(text)` on the compiled expression. Its contract
/// claims that the answer is [`pattern_match`] of the expression's pattern and
/// `text`; what that is, is left to the crate.
#[verifier::external_body]
pub(crate) fn pattern_matches(c: &CompiledPattern, text: &str) -> (r: bool)
    ensures
        r == pattern_match(c.source(), text@),
{
    c.re.is_match(text)
}

} // verus!
