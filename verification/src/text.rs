//! Occurrence of one string inside another.
//!
//! A linter reports on a file by printing its path. Whether a path was
//! printed is decided by plain containment: the characters of the path occur
//! in the output, one after the other, at some offset.

use vstd::prelude::*;

verus! {

/// `needle` stands in `haystack` at offset `at`.
pub open spec fn occurs_at(needle: Seq<char>, haystack: Seq<char>, at: int) -> bool {
    &&& 0 <= at
    &&& at + needle.len() <= haystack.len()
    &&& haystack.subrange(at, at + needle.len()) == needle
}

/// `needle` occurs somewhere in `haystack` as a contiguous run of characters.
/// The empty string occurs in every string.
pub open spec fn is_substring(needle: Seq<char>, haystack: Seq<char>) -> bool {
    exists|at: int| occurs_at(needle, haystack, at)
}

/// The characters of `s`, in order.
pub(crate) fn chars_of(s: &str) -> (chars: Vec<char>)
    ensures
        chars@ == s@,
{
    let mut chars: Vec<char> = Vec::new();
    for c in it: s.chars()
        invariant
            it.seq() == s@,
            chars@ == it.seq().take(it.index()),
    {
        chars.push(c);
    }
    chars
}

/// Whether `needle` stands in `haystack` at offset `at`.
fn matches_at(haystack: &Vec<char>, needle: &Vec<char>, at: usize) -> (found: bool)
    requires
        at + needle.len() <= haystack.len(),
    ensures
        found == occurs_at(needle@, haystack@, at as int),
{
    let mut k: usize = 0;
    while k < needle.len()
        invariant
            k <= needle.len(),
            at + needle.len() <= haystack.len(),
            forall|j: int| 0 <= j < k ==> haystack@[at + j] == needle@[j],
        decreases needle.len() - k,
    {
        if haystack[at + k] != needle[k] {
            assert(haystack@.subrange(at as int, at + needle.len())[k as int] != needle@[k as int]);
            return false;
        }
        k += 1;
    }
    assert(haystack@.subrange(at as int, at + needle.len()) =~= needle@);
    true
}

/// Scans `haystack` for `needle`, offset by offset.
pub fn contains(haystack: &str, needle: &str) -> (found: bool)
    ensures
        found == is_substring(needle@, haystack@),
{
    let hay = chars_of(haystack);
    let pin = chars_of(needle);
    if pin.len() > hay.len() {
        return false;
    }
    let last: usize = hay.len() - pin.len();
    let mut at: usize = 0;
    loop
        invariant
            hay@ == haystack@,
            pin@ == needle@,
            at <= last,
            last == hay.len() - pin.len(),
            forall|i: int| 0 <= i < at ==> !occurs_at(pin@, hay@, i),
        decreases last - at,
    {
        if matches_at(&hay, &pin, at) {
            return true;
        }
        if at == last {
            return false;
        }
        at += 1;
    }
}

/// Whether the regular expression written as `pattern` has a match anywhere
/// in `haystack`. It says nothing of a pattern that the engine refuses to
/// compile.
pub uninterp spec fn regex_matches(pattern: Seq<char>, haystack: Seq<char>) -> bool;

/// The error of the `regex` crate for a pattern that it does not compile.
#[verifier::external_type_specification]
#[verifier::external_body]
pub struct ExRegexError(regex::Error);

/// `regex::escape` puts a backslash before every character that has a
/// meaning in a pattern, so that what it returns is a pattern for the text
/// of `pattern` taken literally: it has a match in a haystack exactly if
/// that text occurs in the haystack.
pub assume_specification[ regex::escape ](pattern: &str) -> (literal: String)
    ensures
        forall|haystack: Seq<char>| #[trigger]
            regex_matches(literal@, haystack) == is_substring(pattern@, haystack),
;

/// `regex::Regex::new` compiles `pattern`, and `regex::Regex::is_match` of
/// the compiled expression says whether it has a match anywhere in
/// `haystack`. The compiler refuses a pattern that is malformed or whose
/// program would exceed its size limit; nothing is claimed about when it
/// does, only that an answer, where there is one, is that of the pattern.
#[verifier::external_body]
fn search(pattern: &str, haystack: &str) -> (found: Result<bool, regex::Error>)
    ensures
        found matches Ok(hit) ==> hit == regex_matches(pattern@, haystack@),
{
    match regex::Regex::new(pattern) {
        Ok(compiled) => Ok(compiled.is_match(haystack)),
        Err(refused) => Err(refused),
    }
}

/// Whether `text` mentions `path`: the path occurs in it as a raw substring.
///
/// This is deliberately not a match on whole words or whole lines: output
/// that holds a longer path of which `path` is a part mentions `path` too.
/// The search is handed to the regex engine with the path escaped; a path
/// that the engine does not compile is searched for by `contains`.
pub fn mentions(text: &str, path: &str) -> (found: bool)
    ensures
        found == is_substring(path@, text@),
{
    let literal = regex::escape(path);
    match search(literal.as_str(), text) {
        Ok(hit) => hit,
        Err(_) => contains(text, path),
    }
}

} // verus!
