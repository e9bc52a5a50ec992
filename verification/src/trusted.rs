//! What this library takes on trust: the functions of the `regex` crate and
//! of the standard library that it calls and cannot look into.
//!
//! Nothing in this file is proved. Each item states, of one such function,
//! what its documentation promises; the rest of the library is proved
//! against these statements.

use regex::Regex;
use vstd::prelude::*;

verus! {

/// `regex::Regex`, a compiled expression. Nothing inside it is looked at.
#[verifier::external_type_specification]
#[verifier::external_body]
pub struct ExRegex(regex::Regex);

/// `regex::Error`, the reason why a pattern did not compile. Nothing inside
/// it is looked at.
#[verifier::external_type_specification]
#[verifier::external_body]
pub struct ExRegexError(regex::Error);

/// The characters that `regex_syntax::is_meta_character` lists: those with a
/// meaning of their own in the pattern syntax.
pub open spec fn is_meta_character(c: char) -> bool {
    c == '\\' || c == '.' || c == '+' || c == '*' || c == '?' || c == '(' || c == ')' || c == '|'
        || c == '[' || c == ']' || c == '{' || c == '}' || c == '^' || c == '$' || c == '#' || c
        == '&' || c == '-' || c == '~'
}

/// One character as it stands in a pattern that matches it literally.
pub open spec fn escaped_char(c: char) -> Seq<char> {
    if is_meta_character(c) {
        seq!['\\', c]
    } else {
        seq![c]
    }
}

/// `text` with a backslash put before each of its meta characters.
pub open spec fn escaped(text: Seq<char>) -> Seq<char>
    decreases text.len(),
{
    if text.len() == 0 {
        Seq::empty()
    } else {
        escaped(text.drop_last()) + escaped_char(text.last())
    }
}

/// The texts of a list of strings, in the list's order.
pub open spec fn texts(strings: Seq<String>) -> Seq<Seq<char>> {
    strings.map_values(|s: String| s@)
}

/// The pattern that an expression was compiled from: what `Regex::as_str`
/// returns for it.
pub uninterp spec fn regex_source(re: Regex) -> Seq<char>;

/// The matches that `Regex::find_iter` yields for an expression in a
/// haystack, first to last, each as the text that it covers.
pub uninterp spec fn regex_matches(re: Regex, haystack: Seq<char>) -> Seq<Seq<char>>;

/// `cuts` places `pieces` in `text`: piece `i` is the stretch of `text` from
/// `cuts[i].0` up to `cuts[i].1`, and each stretch ends before the next
/// begins.
pub open spec fn placed_at(cuts: Seq<(int, int)>, pieces: Seq<Seq<char>>, text: Seq<char>) -> bool {
    &&& cuts.len() == pieces.len()
    &&& forall|i: int|
        0 <= i < cuts.len() ==> 0 <= (#[trigger] cuts[i]).0 <= cuts[i].1 <= text.len()
            && pieces[i] == text.subrange(cuts[i].0, cuts[i].1)
    &&& forall|i: int, j: int|
        0 <= i < j < cuts.len() ==> (#[trigger] cuts[i]).1 <= (#[trigger] cuts[j]).0
}

/// `pieces` are stretches of `text` that follow one another without
/// overlapping.
pub open spec fn successive_slices(pieces: Seq<Seq<char>>, text: Seq<char>) -> bool {
    exists|cuts: Seq<(int, int)>| placed_at(cuts, pieces, text)
}

/// `String::push`: the character is appended, and nothing else changes.
pub assume_specification[ String::push ](s: &mut String, ch: char)
    ensures
        final(s)@ == old(s)@.push(ch),
;

/// `regex::escape`: the result is the argument with a backslash before each
/// meta character, and nothing else changed.
pub assume_specification[ regex::escape ](pattern: &str) -> (out: String)
    ensures
        out@ == escaped(pattern@),
;

/// `Regex::new`: an expression that was compiled reports the pattern it was
/// given as its source. Nothing is claimed about which patterns compile.
pub assume_specification[ Regex::new ](re: &str) -> (out: Result<Regex, regex::Error>)
    ensures
        out matches Ok(compiled) ==> regex_source(compiled) == re@,
;

/// `Regex::as_str`: the pattern that the expression was compiled from.
pub assume_specification<'a>[ Regex::as_str ](re: &'a Regex) -> (out: &'a str)
    ensures
        out@ == regex_source(*re),
;

/// `Regex::find_iter`, with each match turned into the text it covers
/// (`Match::as_str`). The matches depend on the expression and the haystack
/// alone; they are stretches of the haystack, cut at character boundaries,
/// and come in the order in which they lie there, none overlapping another.
#[verifier::external_body]
pub(crate) fn find_matches(re: &Regex, haystack: &str) -> (out: Vec<String>)
    ensures
        texts(out@) == regex_matches(*re, haystack@),
        successive_slices(texts(out@), haystack@),
{
    let mut out = Vec::new();
    for found in re.find_iter(haystack) {
        out.push(found.as_str().to_owned());
    }
    out
}

} // verus!
