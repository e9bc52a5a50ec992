//! Removal of escaped newlines from a description before it is scanned.
//!
//! Descriptions sometimes carry the two characters backslash and `n` where a
//! line break was meant. Every such pair is deleted, so that a word the pair
//! had split is scanned as one word.

use vstd::prelude::*;
use vstd::std_specs::iter::IteratorSpec;

verus! {

/// The characters at `i` and `i + 1` of `text` are a backslash followed by
/// the letter `n`.
pub open spec fn escape_at(text: Seq<char>, i: int) -> bool {
    &&& 0 <= i
    &&& i + 1 < text.len()
    &&& text[i] == '\\'
    &&& text[i + 1] == 'n'
}

/// The character at `i` is one of the two characters of an escaped newline.
pub open spec fn in_escape(text: Seq<char>, i: int) -> bool {
    escape_at(text, i) || escape_at(text, i - 1)
}

/// The characters among the first `n` of `text` that belong to no escaped
/// newline, in their order.
pub open spec fn kept_prefix(text: Seq<char>, n: nat) -> Seq<char>
    decreases n,
{
    if n == 0 {
        Seq::empty()
    } else if in_escape(text, n - 1) {
        kept_prefix(text, (n - 1) as nat)
    } else {
        kept_prefix(text, (n - 1) as nat).push(text[n - 1])
    }
}

/// `text` with every escaped newline deleted.
pub open spec fn normalized(text: Seq<char>) -> Seq<char> {
    kept_prefix(text, text.len())
}

/// Deletes every escaped newline from `text`.
pub fn normalize(text: &str) -> (out: String)
    ensures
        out@ == normalized(text@),
{
    let mut out = String::new();
    let mut pending: bool = false;
    let ghost mut seen: nat = 0;
    for c in it: text.chars()
        invariant
            it.seq() == text@,
            seen == it.index(),
            pending ==> seen > 0 && text@[seen - 1] == '\\' && out@ == kept_prefix(
                text@,
                (seen - 1) as nat,
            ),
            !pending ==> out@ == kept_prefix(text@, seen),
            !pending && seen > 0 ==> text@[seen - 1] != '\\',
    {
        assert(c == text@[seen as int]);
        if pending {
            if c == 'n' {
                assert(escape_at(text@, seen - 1));
                assert(kept_prefix(text@, seen) == kept_prefix(text@, (seen - 1) as nat));
                assert(kept_prefix(text@, seen + 1) == kept_prefix(text@, seen));
                pending = false;
            } else {
                assert(!in_escape(text@, seen - 1));
                assert(kept_prefix(text@, seen) == kept_prefix(text@, (seen - 1) as nat).push(
                    '\\',
                ));
                out.push('\\');
                if c != '\\' {
                    assert(!in_escape(text@, seen as int));
                    assert(kept_prefix(text@, seen + 1) == kept_prefix(text@, seen).push(c));
                    out.push(c);
                    pending = false;
                }
            }
        } else if c == '\\' {
            pending = true;
        } else {
            assert(!in_escape(text@, seen as int));
            assert(kept_prefix(text@, seen + 1) == kept_prefix(text@, seen).push(c));
            out.push(c);
        }
        proof {
            seen = seen + 1;
        }
    }
    assert(seen == text@.len());
    assert(pending ==> !in_escape(text@, seen - 1));
    if pending {
        out.push('\\');
    }
    out
}

/// The two characters of an escaped newline.
pub open spec fn escaped_newline() -> Seq<char> {
    seq!['\\', 'n']
}

/// `left` ends with a backslash and `right` begins with `n`: written one
/// after the other they hold an escaped newline that neither holds alone.
pub open spec fn joins_into_escape(left: Seq<char>, right: Seq<char>) -> bool {
    left.len() > 0 && right.len() > 0 && left.last() == '\\' && right[0] == 'n'
}

/// Within the left part of a joint text, a character belongs to an escaped
/// newline exactly if it does so in the left part alone.
proof fn lemma_in_escape_left(left: Seq<char>, right: Seq<char>, i: int)
    requires
        !joins_into_escape(left, right),
        0 <= i < left.len(),
    ensures
        in_escape(left + right, i) == in_escape(left, i),
{
    let whole = left + right;
    assert(whole[i] == left[i]);
    if i + 1 < left.len() {
        assert(whole[i + 1] == left[i + 1]);
    } else if right.len() > 0 {
        assert(whole[i + 1] == right[0]);
    }
    if i > 0 {
        assert(whole[i - 1] == left[i - 1]);
    }
}

/// Within the right part of a joint text, a character belongs to an escaped
/// newline exactly if it does so in the right part alone.
proof fn lemma_in_escape_right(left: Seq<char>, right: Seq<char>, i: int)
    requires
        !joins_into_escape(left, right),
        0 <= i < right.len(),
    ensures
        in_escape(left + right, left.len() + i) == in_escape(right, i),
{
    let whole = left + right;
    let at = left.len() + i;
    assert(whole[at] == right[i]);
    if i + 1 < right.len() {
        assert(whole[at + 1] == right[i + 1]);
    }
    if i > 0 {
        assert(whole[at - 1] == right[i - 1]);
    } else if left.len() > 0 {
        assert(whole[at - 1] == left.last());
    }
}

proof fn lemma_kept_prefix_left(left: Seq<char>, right: Seq<char>, n: nat)
    requires
        !joins_into_escape(left, right),
        n <= left.len(),
    ensures
        kept_prefix(left + right, n) == kept_prefix(left, n),
    decreases n,
{
    if n > 0 {
        lemma_kept_prefix_left(left, right, (n - 1) as nat);
        lemma_in_escape_left(left, right, n - 1);
        assert((left + right)[n - 1] == left[n - 1]);
    }
}

proof fn lemma_kept_prefix_right(left: Seq<char>, right: Seq<char>, n: nat)
    requires
        !joins_into_escape(left, right),
        n <= right.len(),
    ensures
        kept_prefix(left + right, left.len() + n) == normalized(left) + kept_prefix(right, n),
    decreases n,
{
    if n == 0 {
        lemma_kept_prefix_left(left, right, left.len());
        assert(normalized(left) + Seq::<char>::empty() =~= normalized(left));
    } else {
        lemma_kept_prefix_right(left, right, (n - 1) as nat);
        lemma_in_escape_right(left, right, n - 1);
        assert((left + right)[left.len() + n - 1] == right[n - 1]);
        let earlier = kept_prefix(right, (n - 1) as nat);
        assert(normalized(left) + earlier.push(right[n - 1]) =~= (normalized(left) + earlier).push(
            right[n - 1],
        ));
    }
}

/// Cleaning two texts and joining them is cleaning the joint text, unless
/// the joint holds an escaped newline across the seam.
pub proof fn lemma_normalized_concat(left: Seq<char>, right: Seq<char>)
    requires
        !joins_into_escape(left, right),
    ensures
        normalized(left + right) == normalized(left) + normalized(right),
{
    lemma_kept_prefix_right(left, right, right.len());
}

/// An escaped newline is nothing once cleaned.
pub proof fn lemma_escaped_newline_vanishes()
    ensures
        normalized(escaped_newline()) == Seq::<char>::empty(),
{
    let pair = escaped_newline();
    assert(escape_at(pair, 0));
    assert(kept_prefix(pair, 1) == kept_prefix(pair, 0));
    assert(kept_prefix(pair, 2) == kept_prefix(pair, 1));
}

/// An escaped newline between two texts is deleted, and what stood on its
/// two sides is cleaned as if each stood alone: the cleaned sides meet where
/// the pair was.
pub proof fn lemma_escaped_newline_removed(before: Seq<char>, after: Seq<char>)
    ensures
        normalized(before + escaped_newline() + after) == normalized(before) + normalized(after),
{
    let pair = escaped_newline();
    assert(pair[0] == '\\' && pair.last() == 'n');
    lemma_escaped_newline_vanishes();
    lemma_normalized_concat(before, pair);
    assert((before + pair).last() == 'n');
    lemma_normalized_concat(before + pair, after);
    assert(normalized(before) + Seq::<char>::empty() =~= normalized(before));
}

/// A text without an escaped newline is left as it is.
pub proof fn lemma_clean_text_unchanged(text: Seq<char>)
    requires
        forall|i: int| !escape_at(text, i),
    ensures
        normalized(text) == text,
{
    lemma_kept_prefix_is_prefix(text, text.len());
    assert(text.take(text.len() as int) =~= text);
}

proof fn lemma_kept_prefix_is_prefix(text: Seq<char>, n: nat)
    requires
        forall|i: int| !escape_at(text, i),
        n <= text.len(),
    ensures
        kept_prefix(text, n) == text.take(n as int),
    decreases n,
{
    if n == 0 {
        assert(text.take(0) =~= Seq::<char>::empty());
    } else {
        lemma_kept_prefix_is_prefix(text, (n - 1) as nat);
        assert(!escape_at(text, n - 1) && !escape_at(text, n - 2));
        assert(text.take(n as int) =~= text.take(n - 1).push(text[n - 1]));
    }
}

/// Cleaning never lengthens a text.
pub proof fn lemma_normalized_no_longer(text: Seq<char>)
    ensures
        normalized(text).len() <= text.len(),
{
    lemma_kept_prefix_no_longer(text, text.len());
}

proof fn lemma_kept_prefix_no_longer(text: Seq<char>, n: nat)
    ensures
        kept_prefix(text, n).len() <= n,
    decreases n,
{
    if n > 0 {
        lemma_kept_prefix_no_longer(text, (n - 1) as nat);
    }
}

/// `text` read from the left: where an escaped newline begins, its two
/// characters are passed over, and any other character is kept.
pub open spec fn scanned(text: Seq<char>) -> Seq<char>
    decreases text.len(),
{
    if text.len() == 0 {
        text
    } else if escape_at(text, 0) {
        scanned(text.skip(2))
    } else {
        seq![text[0]] + scanned(text.skip(1))
    }
}

/// Deleting every escaped newline is what one reading from the left does
/// that deletes each escaped newline it comes to and goes on behind it.
pub proof fn lemma_normalized_by_scanning(text: Seq<char>)
    ensures
        normalized(text) == scanned(text),
    decreases text.len(),
{
    if text.len() > 0 {
        if escape_at(text, 0) {
            let rest = text.skip(2);
            assert(text =~= Seq::<char>::empty() + escaped_newline() + rest);
            lemma_escaped_newline_removed(Seq::<char>::empty(), rest);
            assert(normalized(Seq::<char>::empty()) + normalized(rest) =~= normalized(rest));
            lemma_normalized_by_scanning(rest);
        } else {
            let first = seq![text[0]];
            let rest = text.skip(1);
            assert(text =~= first + rest);
            assert(!in_escape(first, 0));
            assert(kept_prefix(first, 1) == kept_prefix(first, 0).push(first[0]));
            assert(normalized(first) =~= first);
            lemma_normalized_concat(first, rest);
            lemma_normalized_by_scanning(rest);
        }
    }
}

} // verus!
