//! Glob-style name matching, built on the `glob` crate.
//!
//! A [`Matcher`] is a compiled glob pattern together with the text it was
//! compiled from. Matching is always applied to a bare base name, never to a
//! full path.

use vstd::prelude::*;

verus! {

/// Whether `glob::Pattern::new` accepts the pattern text `p`.
pub uninterp spec fn glob_valid(p: Seq<char>) -> bool;

/// What `glob::Pattern::matches` returns for the pattern text `p`
/// applied to the name `name`.
pub uninterp spec fn glob_match(p: Seq<char>, name: Seq<char>) -> bool;

#[verifier::external_type_specification]
#[verifier::external_body]
pub struct ExPattern(glob::Pattern);

/// A compiled glob pattern, kept with its source text.
pub struct Matcher {
    pat: glob::Pattern,
    source: String,
}

impl Matcher {
    /// The pattern text this matcher was compiled from.
    pub closed spec fn pattern(self) -> Seq<char> {
        self.source@
    }

    /// Compile a glob pattern. Succeeds exactly on syntactically valid
    /// patterns; on failure the error text describes the syntax error.
    pub fn new(s: &str) -> (r: Result<Matcher, String>)
        ensures
            r is Ok <==> glob_valid(s@),
            r is Ok ==> (r->Ok_0).pattern() == s@,
    {
        compile(s)
    }

    /// Test a bare base name against the pattern.
    pub fn matches(&self, name: &str) -> (r: bool)
        ensures
            r == glob_match(self.pattern(), name@),
    {
        raw_matches(self, name)
    }
}

/// Relies on `glob::Pattern::new`: parsing is a pure function of the pattern
/// text and succeeds exactly on syntactically valid glob patterns.
#[verifier::external_body]
fn compile(s: &str) -> (r: Result<Matcher, String>)
    ensures
        r is Ok <==> glob_valid(s@),
        r is Ok ==> (r->Ok_0).pattern() == s@,
{
    match glob::Pattern::new(s) {
        Ok(p) => Ok(Matcher { pat: p, source: s.to_string() }),
        Err(e) => Err(format!("{}", e)),
    }
}

/// Relies on `glob::Pattern::matches`: the result is a pure function of the
/// pattern text and the name. A `Matcher` is built only by `compile`, so its
/// compiled pattern is always the compilation of its source text.
#[verifier::external_body]
fn raw_matches(m: &Matcher, name: &str) -> (r: bool)
    ensures
        r == glob_match(m.pattern(), name@),
{
    m.pat.matches(name)
}

/// The pattern text of an optional matcher.
pub open spec fn matcher_view(m: Option<Matcher>) -> Option<Seq<char>> {
    match m {
        Option::None => Option::None,
        Option::Some(mm) => Option::Some(mm.pattern()),
    }
}

/// The text of an optional name. A name that is not valid text (for example a
/// non-UTF-8 file name) is `None`.
pub open spec fn name_view(n: Option<&str>) -> Option<Seq<char>> {
    match n {
        Option::None => Option::None,
        Option::Some(s) => Option::Some(s@),
    }
}

/// Whether an entry whose base name is `name` is printed under the optional
/// pattern `pat`: with no pattern every entry is printed; with a pattern, a
/// name that cannot be read as text never matches, and a readable name is
/// printed exactly when the glob pattern matches it.
pub open spec fn entry_matches(pat: Option<Seq<char>>, name: Option<Seq<char>>) -> bool {
    match pat {
        Option::None => true,
        Option::Some(p) => match name {
            Option::None => false,
            Option::Some(n) => glob_match(p, n),
        },
    }
}

/// Decide whether an entry with the given base name is printed.
pub fn should_print(pattern: &Option<Matcher>, name: Option<&str>) -> (r: bool)
    ensures
        r == entry_matches(matcher_view(*pattern), name_view(name)),
{
    match pattern {
        Option::None => true,
        Option::Some(m) => match name {
            Option::None => false,
            Option::Some(n) => m.matches(n),
        },
    }
}

} // verus!
