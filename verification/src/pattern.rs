//! Regular expressions, as the lexer's `Single` rules use them.
//!
//! Compilation and searching are done by the `regex` crate; what the library
//! relies on is stated over two names for their results.
use vstd::prelude::*;
use regex::Error as RegexError;

verus! {

#[verifier::external_type_specification]
#[verifier::external_body]
pub struct ExRegex(regex::Regex);

#[verifier::external_type_specification]
#[verifier::external_body]
pub struct ExRegexError(RegexError);

/// Whether `regex::Regex::new` accepts `pattern` (a valid pattern within the
/// default size limit).
pub uninterp spec fn regex_compiles(pattern: Seq<char>) -> bool;

/// The first match of `pattern` in `haystack` as `regex::Regex::find` reports
/// it: the byte offset where it starts and the text it covers.
pub uninterp spec fn regex_first_match(pattern: Seq<char>, haystack: Seq<char>) -> Option<
    (nat, Seq<char>),
>;

/// A compiled regular expression together with the pattern it came from.
pub(crate) struct CompiledPattern {
    source: String,
    regex: regex::Regex,
}

impl View for CompiledPattern {
    type V = Seq<char>;

    closed spec fn view(&self) -> Seq<char> {
        self.source@
    }
}

/// Compiles `pattern` with `regex::Regex::new`.
///
/// Trusted: the compilation succeeds exactly when `regex_compiles(pattern)`,
/// and a compiled pattern remembers the text it was compiled from.
#[verifier::external_body]
pub(crate) fn compile(pattern: &str) -> (r: Result<CompiledPattern, regex::Error>)
    ensures
        r is Ok <==> regex_compiles(pattern@),
        r matches Ok(c) ==> c@ == pattern@,
{
    regex::Regex::new(pattern).map(|regex| CompiledPattern { source: pattern.to_string(), regex })
}

/// Searches `haystack` with `regex::Regex::find`, returning the match's start
/// offset (`Match::start`) and matched text (`Match::as_str`).
///
/// Trusted: the outcome is `regex_first_match` of the pattern and the
/// haystack; a match that starts at offset 0 covers a prefix of the haystack
/// (`as_str` is the haystack sliced from `start` to `end`).
#[verifier::external_body]
pub(crate) fn find_first(pattern: &CompiledPattern, haystack: &str) -> (r: Option<(usize, String)>)
    ensures
        match r {
            Some((start, matched)) => {
                &&& regex_first_match(pattern@, haystack@) == Some((start as nat, matched@))
                &&& start == 0 ==> matched@.len() <= haystack@.len() && matched@ == haystack@.take(
                    matched@.len() as int,
                )
            },
            None => regex_first_match(pattern@, haystack@) is None,
        },
{
    pattern.regex.find(haystack).map(|m| (m.start(), m.as_str().to_string()))
}

/// Whether `pattern` compiles, established by compiling it.
pub fn pattern_is_valid(pattern: &str) -> (b: bool)
    ensures
        b == regex_compiles(pattern@),
{
    compile(pattern).is_ok()
}

/// The text a pattern matches at the very start of `text`, if it matches
/// there.  This is what a `Single` rule captures.
pub open spec fn match_at_start(pattern: Seq<char>, text: Seq<char>) -> Option<Seq<char>> {
    match regex_first_match(pattern, text) {
        Some((start, matched)) => if start == 0 && matched.len() <= text.len() && matched
            =~= text.take(matched.len() as int) {
            Some(matched)
        } else {
            None
        },
        None => None,
    }
}

/// Compiles `pattern` (which must compile) and returns the text it matches at
/// the start of `text`.
pub fn leading_match(pattern: &str, text: &str) -> (r: Option<String>)
    requires
        regex_compiles(pattern@),
    ensures
        match r {
            Some(s) => match_at_start(pattern@, text@) == Some(s@),
            None => match_at_start(pattern@, text@) is None,
        },
{
    let compiled = match compile(pattern) {
        Ok(c) => c,
        Err(_) => {
            proof {
                assert(false);
            }
            return None;
        },
    };
    match find_first(&compiled, text) {
        Some((start, matched)) => {
            if start == 0 {
                Some(matched)
            } else {
                None
            }
        },
        None => None,
    }
}

} // verus!
