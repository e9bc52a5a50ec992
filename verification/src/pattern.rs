//! The pattern that finds every tag of a vocabulary in one scan.
//!
//! Each tag is escaped, so that it stands for itself whatever characters it
//! holds, and set between two word-boundary assertions. The tags are joined
//! as alternatives of one group, and one flag in front of the group makes the
//! whole of it case-insensitive.
//!
//! A word boundary lies between a word character and a character that is
//! none. A tag that begins or ends with a character that is no word character,
//! such as `C++`, therefore matches only where the text beside that end is a
//! word character.

use crate::trusted::{escaped, escaped_char, is_meta_character};
use crate::vocabulary::{tag_texts, Tag};
use vstd::prelude::*;
use vstd::string::StringExecFns;

verus! {

/// Why no matcher could be made.
#[derive(Debug, Clone, Copy, PartialEq, Eq, Structural)]
pub enum BuildError {
    /// The vocabulary holds no tag.
    EmptyVocabulary,
    /// The pattern was refused when it was compiled.
    PatternRejected,
}

/// The pattern for one tag: the escaped tag between two word boundaries.
pub open spec fn word_bounded(tag: Seq<char>) -> Seq<char> {
    "\\b"@ + escaped(tag) + "\\b"@
}

/// The patterns of `tags`, each after the other with a bar between two
/// neighbours.
pub open spec fn alternation(tags: Seq<Seq<char>>) -> Seq<char>
    decreases tags.len(),
{
    if tags.len() == 0 {
        Seq::empty()
    } else if tags.len() == 1 {
        word_bounded(tags[0])
    } else {
        alternation(tags.drop_last()) + "|"@ + word_bounded(tags.last())
    }
}

/// The pattern for a vocabulary: the case-insensitive flag, then one group
/// that holds the alternatives.
pub open spec fn literal_pattern(tags: Seq<Seq<char>>) -> Seq<char> {
    "(?i)("@ + alternation(tags) + ")"@
}

/// Writes the pattern for `tags`, in their order. An empty list has no
/// pattern.
pub fn literal_pattern_text(tags: &Vec<Tag>) -> (out: Result<String, BuildError>)
    ensures
        match out {
            Ok(pattern) => tags@.len() > 0 && pattern@ == literal_pattern(tag_texts(tags@)),
            Err(error) => tags@.len() == 0 && error == BuildError::EmptyVocabulary,
        },
{
    let n = tags.len();
    if n == 0 {
        return Err(BuildError::EmptyVocabulary);
    }
    let ghost all = tag_texts(tags@);
    let mut pattern = String::from_str("(?i)(");
    for i in 0..n
        invariant
            n == tags@.len(),
            all == tag_texts(tags@),
            pattern@ == "(?i)("@ + alternation(all.take(i as int)),
    {
        let ghost before = all.take(i as int);
        let ghost upto = all.take(i + 1);
        assert(upto.drop_last() =~= before);
        assert(upto.last() == tags@[i as int]@);
        if i > 0 {
            pattern.append("|");
        }
        pattern.append("\\b");
        let literal = regex::escape(tags[i].as_str());
        pattern.append(literal.as_str());
        pattern.append("\\b");
        assert(pattern@ =~= "(?i)("@ + alternation(upto));
    }
    assert(all.take(n as int) =~= all);
    pattern.append(")");
    Ok(pattern)
}

/// Escaping goes character by character: the escaped form of two texts
/// written one after the other is their escaped forms one after the other.
pub proof fn lemma_escaped_concat(left: Seq<char>, right: Seq<char>)
    ensures
        escaped(left + right) == escaped(left) + escaped(right),
    decreases right.len(),
{
    if right.len() == 0 {
        assert(left + right =~= left);
        assert(escaped(left) + escaped(right) =~= escaped(left));
    } else {
        assert((left + right).drop_last() =~= left + right.drop_last());
        assert((left + right).last() == right.last());
        lemma_escaped_concat(left, right.drop_last());
        assert(escaped(left + right) =~= escaped(left) + escaped(right));
    }
}

/// A text without meta characters is its own escaped form.
pub proof fn lemma_escaped_plain(text: Seq<char>)
    requires
        forall|i: int| 0 <= i < text.len() ==> !is_meta_character(#[trigger] text[i]),
    ensures
        escaped(text) == text,
    decreases text.len(),
{
    if text.len() > 0 {
        assert forall|i: int| 0 <= i < text.drop_last().len() implies !is_meta_character(
            #[trigger] text.drop_last()[i],
        ) by {
            assert(text.drop_last()[i] == text[i]);
        }
        lemma_escaped_plain(text.drop_last());
        assert(!is_meta_character(text[text.len() - 1]));
        assert(text.drop_last() + seq![text.last()] =~= text);
    }
}

/// An escaped text is no shorter than the text and at most twice as long.
pub proof fn lemma_escaped_len(text: Seq<char>)
    ensures
        text.len() <= escaped(text).len() <= 2 * text.len(),
    decreases text.len(),
{
    if text.len() > 0 {
        lemma_escaped_len(text.drop_last());
        assert(1 <= escaped_char(text.last()).len() <= 2);
    }
}

/// One more tag adds one alternative at the end, after a bar.
pub proof fn lemma_alternation_push(tags: Seq<Seq<char>>, tag: Seq<char>)
    requires
        tags.len() > 0,
    ensures
        alternation(tags.push(tag)) == alternation(tags) + "|"@ + word_bounded(tag),
{
    assert(tags.push(tag).drop_last() =~= tags);
}

} // verus!
