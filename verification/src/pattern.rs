//! Regular expressions, through the `regex` crate: whether a pattern
//! compiles and whether it matches a text.

use vstd::prelude::*;

verus! {

/// What compiling `pattern` (case-insensitively when asked) with the
/// `regex` crate reports: `None` when it compiles, else the display text of
/// the error.
pub uninterp spec fn regex_compile_error(pattern: Seq<char>, case_insensitive: bool) -> Option<Seq<char>>;

/// Whether the compiled `pattern` matches somewhere in `hay`.
pub uninterp spec fn regex_is_match(pattern: Seq<char>, case_insensitive: bool, hay: Seq<char>) -> bool;

/// Compiles `pattern` and searches `hay` with it: whether it matches, or
/// the compile error's text.
///
/// Trusted: builds the regex with `regex::RegexBuilder::new`,
/// `case_insensitive` and `build` (which is what `Regex::new` does when the
/// flag is off), renders a build error with `to_string`, and calls
/// `Regex::is_match`. The contract names both outcomes; they depend on the
/// pattern, the flag and the text alone.
#[verifier::external_body]
pub(crate) fn regex_search(pattern: &str, case_insensitive: bool, hay: &str) -> (r: Result<bool, String>)
    ensures
        match r {
            Ok(found) => regex_compile_error(pattern@, case_insensitive) is None && found == regex_is_match(
                pattern@,
                case_insensitive,
                hay@,
            ),
            Err(m) => regex_compile_error(pattern@, case_insensitive) == Some(m@),
        },
{
    match regex::RegexBuilder::new(pattern).case_insensitive(case_insensitive).build() {
        Ok(re) => Ok(re.is_match(hay)),
        Err(e) => Err(e.to_string()),
    }
}

} // verus!
