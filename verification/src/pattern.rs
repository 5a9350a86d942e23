//! The regular expressions of the lexer's rules, compiled once with the
//! `regex` crate.

use vstd::prelude::*;
use vstd::string::StringExecFns;
use vstd::utf8::*;

use crate::text::{bytes_of, push_char, string_from_chars};

verus! {

#[verifier::external_type_specification]
#[verifier::external_body]
pub struct ExRegex(regex::Regex);

/// The byte offset at which the leftmost match that `regex::Regex::find`
/// reports for the regex compiled from `regex_source` ends in `haystack`
/// (zero when there is no match or the source does not compile).
pub uninterp spec fn leftmost_match_end(regex_source: Seq<char>, haystack: Seq<char>) -> nat;

/// A rule's pattern anchored at the start of the text: `^(pattern)`.
pub open spec fn anchored(pattern: Seq<char>) -> Seq<char> {
    seq!['^', '('] + pattern + seq![')']
}

/// The source text of a regex together with the regex compiled from it,
/// or nothing where it does not compile.  Only [`compile_pattern`] makes
/// one, so the regex always belongs to the source.
pub(crate) struct CompiledPattern {
    source: String,
    regex: Option<regex::Regex>,
}

impl CompiledPattern {
    pub closed spec fn source(&self) -> Seq<char> {
        self.source@
    }
}

/// The regex source that matches `pattern` at the start of a text only.
pub(crate) fn anchored_source(pattern: &str) -> (source: String)
    ensures
        source@ == anchored(pattern@),
{
    let mut source = string_from_chars(&[]);
    push_char(&mut source, '^');
    push_char(&mut source, '(');
    source.append(pattern);
    push_char(&mut source, ')');
    proof {
        assert(source@ =~= anchored(pattern@));
    }
    source
}

/// Compiles `source` with `regex::Regex::new`.  Claimed: the result
/// carries `source`; nothing is claimed of the compiled regex, which only
/// [`find_match`] reads.
#[verifier::external_body]
pub(crate) fn compile_pattern(source: String) -> (compiled: CompiledPattern)
    ensures
        compiled.source() == source@,
{
    let regex = regex::Regex::new(source.as_str()).ok();
    CompiledPattern { source, regex }
}

/// Runs `regex::Regex::find` with the compiled regex on `haystack`,
/// answering the end offset of the match, or zero.  Claimed beyond the
/// name: the regex crate documents that a match's end lies within the
/// haystack on a UTF-8 character boundary.
#[verifier::external_body]
pub(crate) fn find_match(compiled: &CompiledPattern, haystack: &str) -> (length: usize)
    ensures
        length as nat == leftmost_match_end(compiled.source(), haystack@),
        length <= bytes_of(haystack).len(),
        is_char_boundary(bytes_of(haystack), length as int),
{
    match &compiled.regex {
        Some(regex) => match regex.find(haystack) {
            Some(found) => found.end(),
            None => 0,
        },
        None => 0,
    }
}

} // verus!
