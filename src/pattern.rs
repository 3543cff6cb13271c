//! Shell-style glob patterns, compiled and matched by the `glob` crate.

use glob::{Pattern, PatternError};
use vstd::prelude::*;

verus! {

#[verifier::external_type_specification]
#[verifier::external_body]
pub struct ExPattern(Pattern);

#[verifier::external_type_specification]
#[verifier::external_body]
pub struct ExPatternError(PatternError);

/// Whether `glob::Pattern::new` accepts the pattern text.
pub uninterp spec fn glob_well_formed(pattern: Seq<char>) -> bool;

/// Whether the glob with text `pattern` matches `text` under the default
/// options of `glob::Pattern::matches` (case sensitive, `*` crosses `/`).
pub uninterp spec fn glob_match(pattern: Seq<char>, text: Seq<char>) -> bool;

/// A compiled glob together with the text it was compiled from.
///
/// The fields are private: a `Glob` is made only by `to_pattern`, so the
/// compiled pattern is always the one of `text`.
#[derive(Debug)]
pub struct Glob {
    text: String,
    compiled: Pattern,
}

impl View for Glob {
    type V = Seq<char>;

    closed spec fn view(&self) -> Seq<char> {
        self.text@
    }
}

/// The texts of a list of globs.
pub open spec fn glob_texts(v: Seq<Glob>) -> Seq<Seq<char>> {
    v.map_values(|g: Glob| g@)
}

/// Compiles a glob pattern.
///
/// Relies on `glob::Pattern::new`, which accepts or refuses the text as a
/// function of the text alone.
#[verifier::external_body]
pub fn to_pattern(input: &str) -> (r: Result<Glob, PatternError>)
    ensures
        r is Ok <==> glob_well_formed(input@),
        r matches Ok(g) ==> g@ == input@,
{
    match Pattern::new(input) {
        Ok(compiled) => Ok(Glob { text: input.to_string(), compiled }),
        Err(e) => Err(e),
    }
}

impl Glob {
    /// The text the glob was compiled from.
    pub fn as_str(&self) -> (r: &str)
        ensures
            r@ == self@,
    {
        self.text.as_str()
    }

    /// Whether the glob matches `text`.
    ///
    /// Relies on `glob::Pattern::matches`, whose answer depends on the
    /// pattern text and `text` alone.
    #[verifier::external_body]
    pub(crate) fn matches(&self, text: &str) -> (r: bool)
        ensures
            r == glob_match(self@, text@),
    {
        self.compiled.matches(text)
    }
}

} // verus!
