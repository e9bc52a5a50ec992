//! The extraction pass: from rows and a matcher to the tags of each row.
//!
//! A row is handled by itself and touches no shared state, so rows may be
//! handled in any order or at the same time ([`extract_row`]). What the rows
//! gave is then gathered in row order ([`collect`]); where two rows carry the
//! same identifier, the later row's tags stand. [`extract`] does both, one row
//! after the other.

use crate::matcher::Matcher;
use crate::normalize::{escaped_newline, lemma_escaped_newline_removed, normalize, normalized};
use crate::result_map::ResultMap;
use crate::trusted::{placed_at, successive_slices, texts};
use crate::vocabulary::Vocabulary;
use vstd::prelude::*;

verus! {

/// One record of the table: its description, where it has one, and its
/// identifier, where that could be read as a 64-bit integer.
#[derive(Debug, Clone, PartialEq, Eq)]
pub struct Row {
    pub description: Option<String>,
    pub id: Option<i64>,
}

/// What a row holds, as plain values.
pub ghost struct RowView {
    pub description: Option<Seq<char>>,
    pub id: Option<i64>,
}

impl View for Row {
    type V = RowView;

    open spec fn view(&self) -> RowView {
        RowView {
            description: match self.description {
                Some(text) => Some(text@),
                None => None,
            },
            id: self.id,
        }
    }
}

/// What handling one row gave.
#[derive(Debug, Clone, PartialEq, Eq)]
pub enum RowOutcome {
    /// The row has no description: it leaves no trace in the result.
    Skipped,
    /// The row was scanned: these are its identifier and the tags found.
    Tags { id: i64, tags: Vec<String> },
    /// The row has a description but no readable identifier.
    IdentifierInvalid,
}

/// What handling one row gave, as plain values.
pub ghost enum Finding {
    Skipped,
    Tags { id: i64, tags: Seq<Seq<char>> },
    IdentifierInvalid,
}

impl View for RowOutcome {
    type V = Finding;

    open spec fn view(&self) -> Finding {
        match self {
            RowOutcome::Skipped => Finding::Skipped,
            RowOutcome::Tags { id, tags } => Finding::Tags { id: *id, tags: texts(tags@) },
            RowOutcome::IdentifierInvalid => Finding::IdentifierInvalid,
        }
    }
}

/// Why an extraction pass was given up.
#[derive(Debug, Clone, Copy, PartialEq, Eq, Structural)]
pub enum ExtractError {
    /// The row at this position has a description but no readable identifier.
    RowIdentifierInvalid { row: usize },
}

/// The vocabulary to hold matches against, if there is one.
pub open spec fn filter_view(filter: Option<&Vocabulary>) -> Option<Set<Seq<char>>> {
    match filter {
        Some(vocabulary) => Some(vocabulary@),
        None => None,
    }
}

/// The matches that stay: all of them without a filter, else those that are
/// in the filter letter for letter. Order and repeats are kept.
pub open spec fn retained(found: Seq<Seq<char>>, filter: Option<Set<Seq<char>>>) -> Seq<Seq<char>> {
    match filter {
        Some(known) => found.filter(|word: Seq<char>| known.contains(word)),
        None => found,
    }
}

/// The tags of a description: it is cleaned of escaped newlines, then
/// scanned, then the matches are held against the filter.
pub open spec fn tags_in(matcher: Matcher, filter: Option<Set<Seq<char>>>, text: Seq<char>) -> Seq<
    Seq<char>,
> {
    retained(matcher.matches(normalized(text)), filter)
}

/// What handling `row` gives.
pub open spec fn finding(row: RowView, matcher: Matcher, filter: Option<Set<Seq<char>>>) -> Finding {
    match row.description {
        None => Finding::Skipped,
        Some(text) => match row.id {
            None => Finding::IdentifierInvalid,
            Some(id) => Finding::Tags { id, tags: tags_in(matcher, filter, text) },
        },
    }
}

/// What handling each of `rows` gives, in their order.
pub open spec fn findings(rows: Seq<Row>, matcher: Matcher, filter: Option<Set<Seq<char>>>) -> Seq<
    Finding,
> {
    rows.map_values(|row: Row| finding(row@, matcher, filter))
}

/// The result map of a list of findings: each scanned row's tags under its
/// identifier, a later row's in place of an earlier one's.
pub open spec fn collected(found: Seq<Finding>) -> Map<i64, Seq<Seq<char>>>
    decreases found.len(),
{
    if found.len() == 0 {
        Map::empty()
    } else {
        let earlier = collected(found.drop_last());
        match found.last() {
            Finding::Tags { id, tags } => earlier.insert(id, tags),
            _ => earlier,
        }
    }
}

/// Position `at` holds the first finding without a readable identifier.
pub open spec fn first_invalid(found: Seq<Finding>, at: int) -> bool {
    &&& 0 <= at < found.len()
    &&& found[at] is IdentifierInvalid
    &&& forall|i: int| 0 <= i < at ==> !(#[trigger] found[i] is IdentifierInvalid)
}

/// No finding is that of a row without a readable identifier.
pub open spec fn all_valid(found: Seq<Finding>) -> bool {
    forall|i: int| 0 <= i < found.len() ==> !(#[trigger] found[i] is IdentifierInvalid)
}

/// Holds `found` against `filter`: without a filter all matches stay, with
/// one those that are among its tags.
pub fn retain_known(found: Vec<String>, filter: Option<&Vocabulary>) -> (out: Vec<String>)
    ensures
        texts(out@) == retained(texts(found@), filter_view(filter)),
{
    match filter {
        None => found,
        Some(vocabulary) => {
            let ghost known = vocabulary@;
            let ghost keep = |word: Seq<char>| known.contains(word);
            let ghost all = texts(found@);
            let mut out: Vec<String> = Vec::new();
            let n = found.len();
            assert(texts(out@) =~= all.take(0).filter(keep)) by {
                reveal(Seq::filter);
            }
            for i in 0..n
                invariant
                    n == found@.len(),
                    all == texts(found@),
                    known == vocabulary@,
                    keep == |word: Seq<char>| known.contains(word),
                    texts(out@) == all.take(i as int).filter(keep),
            {
                let ghost before = texts(out@);
                assert(all.take(i + 1).drop_last() =~= all.take(i as int));
                assert(all.take(i + 1).last() == found@[i as int]@);
                assert(all.take(i + 1).filter(keep) == if keep(found@[i as int]@) {
                    before.push(found@[i as int]@)
                } else {
                    before
                }) by {
                    reveal(Seq::filter);
                }
                if vocabulary.contains(&found[i]) {
                    out.push(found[i].clone());
                    assert(texts(out@) =~= before.push(found@[i as int]@));
                }
            }
            assert(all.take(n as int) =~= all);
            out
        },
    }
}

/// The views of a list of outcomes, in the list's order.
pub open spec fn outcome_views(outcomes: Seq<RowOutcome>) -> Seq<Finding> {
    outcomes.map_values(|outcome: RowOutcome| outcome@)
}

/// What the matcher finds in the cleaned description of `row`, if it has
/// one, are stretches of that cleaned description, one after another.
pub open spec fn scanned_in_place(row: RowView, matcher: Matcher) -> bool {
    row.description matches Some(text) ==> successive_slices(
        matcher.matches(normalized(text)),
        normalized(text),
    )
}

/// Matches that are successive stretches of a text are so still when some
/// of them are dropped.
pub proof fn lemma_retained_in_place(
    found: Seq<Seq<char>>,
    filter: Option<Set<Seq<char>>>,
    text: Seq<char>,
)
    requires
        successive_slices(found, text),
    ensures
        successive_slices(retained(found, filter), text),
{
    match filter {
        None => {},
        Some(known) => {
            let cuts = choose|cuts: Seq<(int, int)>| placed_at(cuts, found, text);
            let keep = |word: Seq<char>| known.contains(word);
            let kept = lemma_filter_placed(cuts, found, text, keep);
        },
    }
}

/// `cut` is one of `cuts`.
spec fn among(cuts: Seq<(int, int)>, cut: (int, int)) -> bool {
    exists|i: int| 0 <= i < cuts.len() && cuts[i] == cut
}

/// The cuts of the pieces that pass `keep`: each is one of `cuts`, and
/// together they place the kept pieces.
proof fn lemma_filter_placed(
    cuts: Seq<(int, int)>,
    pieces: Seq<Seq<char>>,
    text: Seq<char>,
    keep: spec_fn(Seq<char>) -> bool,
) -> (kept: Seq<(int, int)>)
    requires
        placed_at(cuts, pieces, text),
    ensures
        placed_at(kept, pieces.filter(keep), text),
        forall|k: int| 0 <= k < kept.len() ==> among(cuts, #[trigger] kept[k]),
    decreases pieces.len(),
{
    reveal(Seq::filter);
    if pieces.len() == 0 {
        Seq::empty()
    } else {
        let shorter = cuts.drop_last();
        let earlier = lemma_filter_placed(shorter, pieces.drop_last(), text, keep);
        assert forall|k: int| 0 <= k < earlier.len() implies among(cuts, #[trigger] earlier[k])
            && earlier[k].1 <= cuts.last().0 by {
            assert(among(shorter, earlier[k]));
            let at = choose|at: int| 0 <= at < shorter.len() && shorter[at] == earlier[k];
            assert(cuts[at] == earlier[k]);
            assert(cuts[at].1 <= cuts[cuts.len() - 1].0);
        }
        if keep(pieces.last()) {
            let kept = earlier.push(cuts.last());
            assert(cuts[cuts.len() - 1] == cuts.last());
            assert(among(cuts, cuts.last()));
            assert forall|i: int, j: int| 0 <= i < j < kept.len() implies (#[trigger] kept[i]).1 <= (
            #[trigger] kept[j]).0 by {
                if j == kept.len() - 1 {
                    assert(kept[i] == earlier[i]);
                } else {
                    assert(kept[i] == earlier[i] && kept[j] == earlier[j]);
                }
            }
            assert forall|k: int| 0 <= k < kept.len() implies among(cuts, #[trigger] kept[k]) by {
                if k < earlier.len() {
                    assert(kept[k] == earlier[k]);
                }
            }
            kept
        } else {
            earlier
        }
    }
}

/// Handles one row. A row without a description is skipped. Any other row
/// has its description cleaned of escaped newlines and scanned, and the
/// matches held against `filter`; its identifier is read last, and a row
/// without one is reported as such.
pub fn extract_row(row: &Row, matcher: &Matcher, filter: Option<&Vocabulary>) -> (out: RowOutcome)
    ensures
        out@ == finding(row@, *matcher, filter_view(filter)),
        scanned_in_place(row@, *matcher),
        out matches RowOutcome::Tags { tags, .. } ==> successive_slices(
            texts(tags@),
            normalized(row@.description->0),
        ),
{
    match &row.description {
        None => RowOutcome::Skipped,
        Some(text) => {
            let clean = normalize(text.as_str());
            let found = matcher.find_all(clean.as_str());
            proof {
                lemma_retained_in_place(texts(found@), filter_view(filter), clean@);
            }
            let tags = retain_known(found, filter);
            match row.id {
                None => RowOutcome::IdentifierInvalid,
                Some(id) => RowOutcome::Tags { id, tags },
            }
        },
    }
}

/// Gathers what the rows gave, in row order. The first row without a
/// readable identifier ends the pass with an error that names its position.
/// Otherwise each scanned row's tags stand under its identifier, the tags of
/// a later row in place of those of an earlier row with the same identifier.
pub fn collect(outcomes: Vec<RowOutcome>) -> (out: Result<ResultMap, ExtractError>)
    ensures
        match out {
            Ok(map) => all_valid(outcome_views(outcomes@)) && map@ == collected(
                outcome_views(outcomes@),
            ),
            Err(ExtractError::RowIdentifierInvalid { row }) => first_invalid(
                outcome_views(outcomes@),
                row as int,
            ),
        },
{
    let ghost found = outcome_views(outcomes@);
    let mut map = ResultMap::new();
    let mut at: usize = 0;
    let n = outcomes.len();
    for outcome in it: outcomes
        invariant
            it.seq() == outcomes@,
            found == outcome_views(outcomes@),
            n == outcomes@.len(),
            at == it.index(),
            map@ == collected(found.take(at as int)),
            all_valid(found.take(at as int)),
    {
        assert(found.take(at + 1).drop_last() =~= found.take(at as int));
        assert(found.take(at + 1).last() == outcome@);
        match outcome {
            RowOutcome::Skipped => {},
            RowOutcome::Tags { id, tags } => {
                map.insert(id, tags);
            },
            RowOutcome::IdentifierInvalid => {
                assert forall|i: int| 0 <= i < at implies !(#[trigger] found[i]
                    is IdentifierInvalid) by {
                    assert(found.take(at as int)[i] == found[i]);
                }
                return Err(ExtractError::RowIdentifierInvalid { row: at });
            },
        }
        assert forall|i: int| 0 <= i < at + 1 implies !(#[trigger] found.take(at + 1)[i]
            is IdentifierInvalid) by {
            if i < at {
                assert(found.take(at as int)[i] == found.take(at + 1)[i]);
            }
        }
        at = at + 1;
    }
    assert(found.take(at as int) =~= found);
    Ok(map)
}

/// Runs one pass over `rows`, first to last: what [`extract_row`] gives for
/// each row, gathered as [`collect`] gathers it.
pub fn extract(rows: &Vec<Row>, matcher: &Matcher, filter: Option<&Vocabulary>) -> (out: Result<
    ResultMap,
    ExtractError,
>)
    ensures
        match out {
            Ok(map) => {
                &&& all_valid(findings(rows@, *matcher, filter_view(filter)))
                &&& map@ == collected(findings(rows@, *matcher, filter_view(filter)))
                &&& forall|i: int|
                    0 <= i < rows@.len() ==> scanned_in_place((#[trigger] rows@[i])@, *matcher)
            },
            Err(ExtractError::RowIdentifierInvalid { row }) => first_invalid(
                findings(rows@, *matcher, filter_view(filter)),
                row as int,
            ),
        },
{
    let ghost found = findings(rows@, *matcher, filter_view(filter));
    let mut map = ResultMap::new();
    let n = rows.len();
    for at in 0..n
        invariant
            n == rows@.len(),
            found == findings(rows@, *matcher, filter_view(filter)),
            map@ == collected(found.take(at as int)),
            all_valid(found.take(at as int)),
            forall|i: int| 0 <= i < at ==> scanned_in_place((#[trigger] rows@[i])@, *matcher),
    {
        let outcome = extract_row(&rows[at], matcher, filter);
        assert(found.take(at + 1).drop_last() =~= found.take(at as int));
        assert(found.take(at + 1).last() == outcome@);
        match outcome {
            RowOutcome::Skipped => {},
            RowOutcome::Tags { id, tags } => {
                map.insert(id, tags);
            },
            RowOutcome::IdentifierInvalid => {
                assert forall|i: int| 0 <= i < at implies !(#[trigger] found[i]
                    is IdentifierInvalid) by {
                    assert(found.take(at as int)[i] == found[i]);
                }
                return Err(ExtractError::RowIdentifierInvalid { row: at });
            },
        }
        assert forall|i: int| 0 <= i < at + 1 implies !(#[trigger] found.take(at + 1)[i]
            is IdentifierInvalid) by {
            if i < at {
                assert(found.take(at as int)[i] == found.take(at + 1)[i]);
            }
        }
    }
    assert(found.take(n as int) =~= found);
    Ok(map)
}

/// The finding is the tags of a scanned row with identifier `id`.
pub open spec fn gives(found: Finding, id: i64) -> bool {
    found matches Finding::Tags { id: own, .. } && own == id
}

/// The row has a description and the identifier `id`.
pub open spec fn described_as(row: RowView, id: i64) -> bool {
    row.description is Some && row.id == Some(id)
}

/// An identifier has an entry in the result exactly if some scanned row
/// carries it.
pub proof fn lemma_collected_keys(found: Seq<Finding>, id: i64)
    ensures
        collected(found).contains_key(id) <==> exists|i: int|
            0 <= i < found.len() && gives(#[trigger] found[i], id),
    decreases found.len(),
{
    if found.len() > 0 {
        let shorter = found.drop_last();
        lemma_collected_keys(shorter, id);
        if collected(found).contains_key(id) {
            if gives(found.last(), id) {
                assert(gives(found[found.len() - 1], id));
            } else {
                let at = choose|i: int| 0 <= i < shorter.len() && gives(#[trigger] shorter[i], id);
                assert(gives(found[at], id));
            }
        }
        if exists|i: int| 0 <= i < found.len() && gives(#[trigger] found[i], id) {
            let at = choose|i: int| 0 <= i < found.len() && gives(#[trigger] found[i], id);
            if at < shorter.len() {
                assert(gives(shorter[at], id));
            }
        }
    }
}

/// The entry of an identifier holds the tags of the last scanned row that
/// carries it.
pub proof fn lemma_last_finding_stands(found: Seq<Finding>, at: int, id: i64)
    requires
        0 <= at < found.len(),
        gives(found[at], id),
        forall|j: int| at < j < found.len() ==> !gives(#[trigger] found[j], id),
    ensures
        collected(found).contains_key(id),
        collected(found)[id] == found[at]->Tags_tags,
    decreases found.len(),
{
    if at < found.len() - 1 {
        let shorter = found.drop_last();
        assert(!gives(found[found.len() - 1], id));
        assert(shorter[at] == found[at]);
        assert forall|j: int| at < j < shorter.len() implies !gives(#[trigger] shorter[j], id) by {
            assert(shorter[j] == found[j]);
        }
        lemma_last_finding_stands(shorter, at, id);
    }
}

/// Gathering two runs of findings apart, and letting the entries of the
/// later run stand over those of the earlier, gives what gathering them as one
/// run gives.
pub proof fn lemma_collected_concat(first: Seq<Finding>, second: Seq<Finding>)
    ensures
        collected(first + second) == collected(first).union_prefer_right(collected(second)),
    decreases second.len(),
{
    if second.len() == 0 {
        assert(first + second =~= first);
        assert(collected(first).union_prefer_right(Map::empty()) =~= collected(first));
    } else {
        assert((first + second).drop_last() =~= first + second.drop_last());
        assert((first + second).last() == second.last());
        lemma_collected_concat(first, second.drop_last());
        let joint = collected(first).union_prefer_right(collected(second.drop_last()));
        match second.last() {
            Finding::Tags { id, tags } => {
                assert(joint.insert(id, tags) =~= collected(first).union_prefer_right(
                    collected(second.drop_last()).insert(id, tags),
                ));
            },
            _ => {},
        }
    }
}

/// A row without a description leaves no entry: an identifier is a key of
/// the result exactly if some row with a description carries it.
pub proof fn lemma_result_keys(
    rows: Seq<Row>,
    matcher: Matcher,
    filter: Option<Set<Seq<char>>>,
    id: i64,
)
    ensures
        collected(findings(rows, matcher, filter)).contains_key(id) <==> exists|i: int|
            0 <= i < rows.len() && described_as((#[trigger] rows[i])@, id),
{
    let found = findings(rows, matcher, filter);
    lemma_collected_keys(found, id);
    if exists|i: int| 0 <= i < found.len() && gives(#[trigger] found[i], id) {
        let at = choose|i: int| 0 <= i < found.len() && gives(#[trigger] found[i], id);
        assert(described_as(rows[at]@, id));
    }
    if exists|i: int| 0 <= i < rows.len() && described_as((#[trigger] rows[i])@, id) {
        let at = choose|i: int| 0 <= i < rows.len() && described_as((#[trigger] rows[i])@, id);
        assert(gives(found[at], id));
    }
}

/// Rows that share an identifier share one entry, and it holds the tags of
/// the last of them that has a description.
pub proof fn lemma_last_row_stands(
    rows: Seq<Row>,
    matcher: Matcher,
    filter: Option<Set<Seq<char>>>,
    at: int,
    id: i64,
)
    requires
        0 <= at < rows.len(),
        described_as(rows[at]@, id),
        forall|j: int| at < j < rows.len() ==> !described_as((#[trigger] rows[j])@, id),
    ensures
        collected(findings(rows, matcher, filter)).contains_key(id),
        collected(findings(rows, matcher, filter))[id] == tags_in(
            matcher,
            filter,
            rows[at]@.description->0,
        ),
{
    let found = findings(rows, matcher, filter);
    assert(gives(found[at], id));
    assert forall|j: int| at < j < found.len() implies !gives(#[trigger] found[j], id) by {
        assert(!described_as(rows[j]@, id));
    }
    lemma_last_finding_stands(found, at, id);
}

/// A description is cleaned before it is scanned: an escaped newline in it
/// is gone by then, and the scan sees what stood on its two sides, each
/// cleaned, as one text.
pub proof fn lemma_scan_follows_cleaning(
    matcher: Matcher,
    filter: Option<Set<Seq<char>>>,
    before: Seq<char>,
    after: Seq<char>,
)
    ensures
        tags_in(matcher, filter, before + escaped_newline() + after) == retained(
            matcher.matches(normalized(before) + normalized(after)),
            filter,
        ),
{
    lemma_escaped_newline_removed(before, after);
}

/// Each of a list of successive stretches of a text is a stretch of that
/// text, letter for letter as it stands there.
pub proof fn lemma_stands_in_text(pieces: Seq<Seq<char>>, text: Seq<char>, i: int)
    requires
        successive_slices(pieces, text),
        0 <= i < pieces.len(),
    ensures
        exists|from: int, to: int|
            0 <= from <= to <= text.len() && pieces[i] == #[trigger] text.subrange(from, to),
{
    let cuts = choose|cuts: Seq<(int, int)>| placed_at(cuts, pieces, text);
    assert(pieces[i] == text.subrange(cuts[i].0, cuts[i].1));
}

/// With a filter, every tag that stays is in the filter.
pub proof fn lemma_retained_are_known(found: Seq<Seq<char>>, known: Set<Seq<char>>, i: int)
    requires
        0 <= i < retained(found, Some(known)).len(),
    ensures
        known.contains(retained(found, Some(known))[i]),
{
    let keep = |word: Seq<char>| known.contains(word);
    found.lemma_filter_pred(keep, i);
}

} // verus!
