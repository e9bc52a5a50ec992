//! Matchers: compiled patterns that pick substrings out of a text.
//!
//! There are two. The literal matcher finds the tags of a vocabulary as whole
//! words, whatever their case. The token matcher finds every run of word
//! characters; its findings are later held against the vocabulary letter for
//! letter.

use crate::trusted::{find_matches, regex_matches, regex_source, successive_slices, texts};
use crate::pattern::{literal_pattern, literal_pattern_text, BuildError};
use crate::vocabulary::{tag_texts, Tag};
use regex::Regex;
use vstd::prelude::*;

verus! {

/// A compiled pattern.
#[derive(Debug)]
pub struct Matcher {
    regex: Regex,
}

/// The pattern of the token matcher: one or more word characters.
pub open spec fn token_pattern() -> Seq<char> {
    "(\\w+)"@
}

impl Matcher {
    /// The pattern that the matcher was compiled from.
    pub closed spec fn pattern(&self) -> Seq<char> {
        regex_source(self.regex)
    }

    /// What the matcher finds in `text`: the matched substrings, in the
    /// order in which they lie in `text`.
    pub closed spec fn matches(&self, text: Seq<char>) -> Seq<Seq<char>> {
        regex_matches(self.regex, text)
    }

    /// Takes what compiling a pattern gave: the expression becomes a matcher,
    /// a refusal becomes `PatternRejected`.
    pub fn from_compiled(outcome: Result<Regex, regex::Error>) -> (out: Result<Matcher, BuildError>)
        ensures
            match outcome {
                Ok(regex) => out matches Ok(matcher) && matcher.pattern() == regex_source(regex)
                    && forall|text: Seq<char>| #[trigger]
                    matcher.matches(text) == regex_matches(regex, text),
                Err(_) => out == Err::<Matcher, BuildError>(BuildError::PatternRejected),
            },
    {
        match outcome {
            Ok(regex) => Ok(Matcher { regex }),
            Err(_) => Err(BuildError::PatternRejected),
        }
    }

    /// Compiles `pattern`. Whether a pattern compiles is for the pattern
    /// engine to say; a matcher that comes back was compiled from `pattern`.
    pub fn compile(pattern: &str) -> (out: Result<Matcher, BuildError>)
        ensures
            match out {
                Ok(matcher) => matcher.pattern() == pattern@,
                Err(error) => error == BuildError::PatternRejected,
            },
    {
        Matcher::from_compiled(Regex::new(pattern))
    }

    /// The literal matcher for `tags`: the pattern of [`literal_pattern`],
    /// compiled. Without tags there is no matcher, and the error says so; with
    /// tags, the only error is that the pattern was refused.
    pub fn literal(tags: &Vec<Tag>) -> (out: Result<Matcher, BuildError>)
        ensures
            tags@.len() == 0 <==> out == Err::<Matcher, BuildError>(BuildError::EmptyVocabulary),
            match out {
                Ok(matcher) => matcher.pattern() == literal_pattern(tag_texts(tags@)),
                Err(error) => error == BuildError::EmptyVocabulary || error
                    == BuildError::PatternRejected,
            },
    {
        match literal_pattern_text(tags) {
            Ok(pattern) => Matcher::compile(pattern.as_str()),
            Err(error) => Err(error),
        }
    }

    /// The token matcher: it finds every run of word characters.
    pub fn tokenizer() -> (out: Result<Matcher, BuildError>)
        ensures
            match out {
                Ok(matcher) => matcher.pattern() == token_pattern(),
                Err(error) => error == BuildError::PatternRejected,
            },
    {
        Matcher::compile("(\\w+)")
    }

    /// The pattern that the matcher was compiled from.
    pub fn as_str(&self) -> (out: &str)
        ensures
            out@ == self.pattern(),
    {
        self.regex.as_str()
    }

    /// Finds the matches in `text`. Each is a stretch of `text` as it stands
    /// there, and they come in the order in which they lie in `text`, none
    /// overlapping another.
    pub fn find_all(&self, text: &str) -> (out: Vec<String>)
        ensures
            texts(out@) == self.matches(text@),
            successive_slices(texts(out@), text@),
    {
        find_matches(&self.regex, text)
    }
}

} // verus!
