//! The two questions asked of a line of text: is it blank, and into which
//! fields does it split. Both are answered by regular expressions.

use crate::record::str_views;
use vstd::prelude::*;

verus! {

#[verifier::external_type_specification]
#[verifier::external_body]
pub struct ExRegexError(regex::Error);

/// Whether the regular expression `pattern` has a match somewhere in
/// `haystack`: the answer of `regex::Regex::is_match` for the expression that
/// `regex::Regex::new` compiles from `pattern`.
pub uninterp spec fn regex_is_match(pattern: Seq<char>, haystack: Seq<char>) -> bool;

/// The pieces of `haystack` that lie between the matches of the regular
/// expression `pattern`, left to right: the items of `regex::Regex::split` for
/// the expression that `regex::Regex::new` compiles from `pattern`.
pub uninterp spec fn regex_split(pattern: Seq<char>, haystack: Seq<char>) -> Seq<Seq<char>>;

/// Whether `regex::Regex::new` accepts `pattern`: whether it is a regular
/// expression in the syntax of the regex crate that compiles within the size
/// limit that `Regex::new` sets.
pub uninterp spec fn regex_accepts(pattern: Seq<char>) -> bool;

/// Whether `c` has the Unicode property White_Space, which is what
/// `char::is_whitespace` reports and what `str::trim` removes.
pub uninterp spec fn is_whitespace(c: char) -> bool;

/// `s` without the whitespace at its two ends.
pub open spec fn trimmed(s: Seq<char>) -> Seq<char>
    decreases s.len(),
{
    if s.len() == 0 {
        s
    } else if is_whitespace(s.first()) {
        trimmed(s.drop_first())
    } else if is_whitespace(s.last()) {
        trimmed(s.drop_last())
    } else {
        s
    }
}

/// The pattern of a blank line: whitespace from start to end, or nothing.
pub open spec fn blank_pattern() -> Seq<char> {
    "^\\s*$"@
}

/// The pattern of a column gap: a run of two or more whitespace characters.
pub open spec fn gap_pattern() -> Seq<char> {
    "\\s{2,}"@
}

/// Whether `line` is blank.
pub open spec fn line_is_blank(line: Seq<char>) -> bool {
    regex_is_match(blank_pattern(), line)
}

/// The fields of `line`: what lies between the column gaps once the
/// whitespace at both ends is gone.
pub open spec fn line_fields(line: Seq<char>) -> Seq<Seq<char>> {
    regex_split(gap_pattern(), trimmed(line))
}

/// The line rules could not be applied.
#[derive(Debug, PartialEq, Eq, Clone, Copy)]
pub enum RuleError {
    /// A pattern of the line rules was not accepted as a regular expression.
    Pattern,
}

/// Compiles `pattern` with `regex::Regex::new` and asks `Regex::is_match`
/// for `haystack`. The contract claims that whether the pattern compiles
/// depends on the pattern alone, and the answer on the two texts alone. When
/// the pattern does not compile, the error of the compiler is handed on.
#[verifier::external_body]
fn pattern_is_match(pattern: &str, haystack: &str) -> (r: Result<bool, regex::Error>)
    ensures
        r is Ok <==> regex_accepts(pattern@),
        r matches Ok(b) ==> b == regex_is_match(pattern@, haystack@),
{
    match regex::Regex::new(pattern) {
        Ok(re) => Ok(re.is_match(haystack)),
        Err(e) => Err(e),
    }
}

/// Compiles `pattern` with `regex::Regex::new` and collects the items of
/// `Regex::split` on `haystack` in a vector. The contract claims that whether
/// the pattern compiles depends on the pattern alone, and the items on the two
/// texts alone. When the pattern does not compile, the error of the compiler
/// is handed on.
#[verifier::external_body]
fn pattern_split<'h>(pattern: &str, haystack: &'h str) -> (r: Result<Vec<&'h str>, regex::Error>)
    ensures
        r is Ok <==> regex_accepts(pattern@),
        r matches Ok(v) ==> str_views(v@) == regex_split(pattern@, haystack@),
{
    match regex::Regex::new(pattern) {
        Ok(re) => Ok(re.split(haystack).collect()),
        Err(e) => Err(e),
    }
}

/// Calls `str::trim`, which cuts the whitespace off both ends, whitespace
/// being the characters with the Unicode property White_Space.
#[verifier::external_body]
pub(crate) fn trim<'a>(s: &'a str) -> (r: &'a str)
    ensures
        r@ == trimmed(s@),
        r@.len() > 0 ==> !is_whitespace(r@.first()) && !is_whitespace(r@.last()),
{
    s.trim()
}

/// Decides whether `line` is blank. The answer is owed whenever the pattern
/// of a blank line is accepted as a regular expression, whatever the line.
pub fn is_blank(line: &str) -> (r: Result<bool, RuleError>)
    ensures
        match r {
            Ok(b) => regex_accepts(blank_pattern()) && b == line_is_blank(line@),
            Err(RuleError::Pattern) => !regex_accepts(blank_pattern()),
        },
{
    match pattern_is_match("^\\s*$", line) {
        Ok(b) => Ok(b),
        Err(_) => Err(RuleError::Pattern),
    }
}

/// Splits `line` into its fields. The fields are owed whenever the pattern
/// of a column gap is accepted as a regular expression, whatever the line.
pub fn split_fields<'a>(line: &'a str) -> (r: Result<Vec<&'a str>, RuleError>)
    ensures
        match r {
            Ok(v) => regex_accepts(gap_pattern()) && str_views(v@) == line_fields(line@),
            Err(RuleError::Pattern) => !regex_accepts(gap_pattern()),
        },
{
    match pattern_split("\\s{2,}", trim(line)) {
        Ok(v) => Ok(v),
        Err(_) => Err(RuleError::Pattern),
    }
}

} // verus!
