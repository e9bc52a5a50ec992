//! The result of one extraction pass: for each row identifier, the tags
//! found in that row's text.

use crate::trusted::texts;
use std::collections::HashMap;
use vstd::prelude::*;
use vstd::set::fold::{is_fun_commutative, lemma_fold_empty, lemma_fold_insert};
use vstd::std_specs::hash::spec_keys_iter;
use vstd::std_specs::iter::IteratorSpec;

verus! {

broadcast use vstd::std_specs::hash::group_hash_axioms;

/// A map from row identifier to the tags found in the row, in the order in
/// which they lie in its text, repeats included. An identifier has at most
/// one entry: a later entry for it takes the place of an earlier one.
#[derive(Debug, Clone, PartialEq, Eq)]
pub struct ResultMap {
    entries: HashMap<i64, Vec<String>>,
}

impl View for ResultMap {
    type V = Map<i64, Seq<Seq<char>>>;

    closed spec fn view(&self) -> Map<i64, Seq<Seq<char>>> {
        Map::new(
            |id: i64| self.entries@.contains_key(id),
            |id: i64| texts(self.entries@[id]@),
        )
    }
}

/// The number of tags in all entries of `map` together.
pub open spec fn total_tags(map: Map<i64, Seq<Seq<char>>>) -> nat {
    map.dom().fold(0nat, |sum: nat, id: i64| sum + map[id].len())
}

impl ResultMap {
    /// A map without entries.
    pub fn new() -> (out: ResultMap)
        ensures
            out@ == Map::<i64, Seq<Seq<char>>>::empty(),
    {
        let out = ResultMap { entries: HashMap::new() };
        assert(out@ =~= Map::empty());
        out
    }

    /// Sets the entry of `id` to `tags`, whether or not it had one.
    pub fn insert(&mut self, id: i64, tags: Vec<String>)
        ensures
            final(self)@ == old(self)@.insert(id, texts(tags@)),
    {
        self.entries.insert(id, tags);
        assert(self@ =~= old(self)@.insert(id, texts(tags@)));
    }

    /// The tags of `id`, if it has an entry.
    pub fn get(&self, id: i64) -> (out: Option<&Vec<String>>)
        ensures
            match out {
                Some(tags) => self@.contains_key(id) && texts(tags@) == self@[id],
                None => !self@.contains_key(id),
            },
    {
        self.entries.get(&id)
    }

    /// Tells whether `id` has an entry.
    pub fn contains_key(&self, id: i64) -> (out: bool)
        ensures
            out == self@.contains_key(id),
    {
        self.entries.contains_key(&id)
    }

    /// The number of entries.
    pub fn len(&self) -> (out: usize)
        ensures
            self@.dom().finite(),
            out == self@.len(),
    {
        assert(self@.dom() =~= self.entries@.dom());
        self.entries.len()
    }

    /// Tells whether the map has no entry.
    pub fn is_empty(&self) -> (out: bool)
        ensures
            out == (self@ == Map::<i64, Seq<Seq<char>>>::empty()),
    {
        let out = self.entries.len() == 0;
        assert(self@.dom() =~= self.entries@.dom());
        assert(out ==> self@ =~= Map::empty());
        out
    }

    /// Gives the entries up as a plain map, to be written out.
    pub fn into_entries(self) -> (out: HashMap<i64, Vec<String>>)
        ensures
            out@.dom() == self@.dom(),
            forall|id: i64| #[trigger] out@.contains_key(id) ==> texts(out@[id]@) == self@[id],
    {
        assert(self@.dom() =~= self.entries@.dom());
        self.entries
    }

    /// The identifiers that have an entry, each once, in no particular order.
    pub fn ids(&self) -> (out: Vec<i64>)
        ensures
            out@.no_duplicates(),
            out@.to_set() == self@.dom(),
    {
        let mut out: Vec<i64> = Vec::new();
        let ghost all = spec_keys_iter(&self.entries).remaining().unref();
        assert(self@.dom() =~= self.entries@.dom());
        for id in it: self.entries.keys()
            invariant
                it.seq().unref() == all,
                out@ == all.take(it.index()),
        {
            assert(all[it.index()] == *id);
            assert(all.take(it.index() + 1) =~= all.take(it.index()).push(*id));
            out.push(*id);
        }
        assert(out@ =~= all);
        assert(all.no_duplicates()) by {
            let keys = spec_keys_iter(&self.entries).remaining();
            assert forall|i: int, j: int| 0 <= i < all.len() && 0 <= j < all.len() && i != j implies all[i]
                != all[j] by {
                assert(keys[i] != keys[j]);
            }
        }
        out
    }

    /// The number of tags in all entries together, or the largest number
    /// there is if the count is beyond it.
    pub fn total_tags(&self) -> (out: usize)
        ensures
            out == if total_tags(self@) <= usize::MAX {
                total_tags(self@)
            } else {
                usize::MAX as nat
            },
    {
        let ids = self.ids();
        let ghost map = self@;
        let ghost count = |sum: nat, id: i64| sum + map[id].len();
        let mut out: usize = 0;
        let ghost mut exact: nat = 0;
        proof {
            lemma_fold_empty::<i64, nat>(0nat, count);
            assert(ids@.take(0).to_set() =~= Set::<i64>::empty());
        }
        let n = ids.len();
        for i in 0..n
            invariant
                n == ids@.len(),
                map == self@,
                count == |sum: nat, id: i64| sum + map[id].len(),
                ids@.no_duplicates(),
                ids@.to_set() == map.dom(),
                exact == ids@.take(i as int).to_set().fold(0nat, count),
                out == if exact <= usize::MAX {
                    exact
                } else {
                    usize::MAX as nat
                },
        {
            let ghost seen = ids@.take(i as int).to_set();
            let id = ids[i];
            proof {
                assert(ids@.to_set().contains(id));
                assert(!seen.contains(id)) by {
                    if seen.contains(id) {
                        let k = choose|k: int|
                            0 <= k < ids@.take(i as int).len() && ids@.take(i as int)[k] == id;
                        assert(ids@[k] == ids@[i as int]);
                    }
                }
                assert(seen.finite());
                assert(is_fun_commutative(count));
                lemma_fold_insert(seen, 0nat, count, id);
                assert(ids@.take(i + 1) =~= ids@.take(i as int).push(id));
                ids@.take(i as int).lemma_push_to_set_commute(id);
                exact = exact + map[id].len();
            }
            let entry = self.get(id);
            assert(entry is Some);
            if let Some(tags) = entry {
                let more = tags.len();
                assert(more == map[id].len());
                if more > usize::MAX - out {
                    out = usize::MAX;
                } else {
                    out = out + more;
                }
            }
        }
        assert(ids@.take(n as int) =~= ids@);
        out
    }

    /// Takes over the entries of `later`: where both maps have an entry for
    /// an identifier, that of `later` stands.
    pub fn merge(&mut self, later: ResultMap)
        ensures
            final(self)@ == old(self)@.union_prefer_right(later@),
    {
        let ids = later.ids();
        let ghost ours = self@;
        let ghost theirs = later@;
        let mut rest = later.entries;
        assert(forall|id: i64| theirs.contains_key(id) <==> rest@.contains_key(id));
        assert(self@ =~= ours.union_prefer_right(theirs.restrict(ids@.take(0).to_set())));
        let n = ids.len();
        assert forall|k: int| 0 <= k < n implies rest@.contains_key(#[trigger] ids@[k]) && texts(
            rest@[ids@[k]]@,
        ) == theirs[ids@[k]] by {
            assert(ids@.to_set().contains(ids@[k]));
        }
        for i in 0..n
            invariant
                n == ids@.len(),
                ids@.no_duplicates(),
                ids@.to_set() == theirs.dom(),
                self@ == ours.union_prefer_right(theirs.restrict(ids@.take(i as int).to_set())),
                forall|k: int|
                    i <= k < n ==> rest@.contains_key(#[trigger] ids@[k]) && texts(rest@[ids@[k]]@)
                        == theirs[ids@[k]],
        {
            let id = ids[i];
            let ghost seen = ids@.take(i as int).to_set();
            let ghost before = rest@;
            assert(rest@.contains_key(ids@[i as int]));
            let entry = rest.remove(&id);
            assert(entry is Some);
            if let Some(tags) = entry {
                assert(texts(tags@) == theirs[id]);
                self.insert(id, tags);
            }
            assert(rest@ == before.remove(id));
            assert forall|k: int| i + 1 <= k < n implies rest@.contains_key(#[trigger] ids@[k])
                && texts(rest@[ids@[k]]@) == theirs[ids@[k]] by {
                assert(ids@[k] != ids@[i as int]);
            }
            proof {
                assert(ids@.take(i + 1) =~= ids@.take(i as int).push(id));
                ids@.take(i as int).lemma_push_to_set_commute(id);
            }
            assert(ids@.to_set().contains(id));
            assert(self@ =~= ours.union_prefer_right(theirs.restrict(seen.insert(id))));
        }
        assert(ids@.take(n as int) =~= ids@);
        assert(theirs.restrict(theirs.dom()) =~= theirs);
    }
}

/// The count of a set of entries looks at those entries only.
proof fn lemma_count_by_entries(
    ids: Set<i64>,
    first: Map<i64, Seq<Seq<char>>>,
    second: Map<i64, Seq<Seq<char>>>,
)
    requires
        ids.finite(),
        forall|id: i64| ids.contains(id) ==> first[id].len() == second[id].len(),
    ensures
        ids.fold(0nat, |sum: nat, id: i64| sum + first[id].len()) == ids.fold(
            0nat,
            |sum: nat, id: i64| sum + second[id].len(),
        ),
    decreases ids.len(),
{
    let count_first = |sum: nat, id: i64| sum + first[id].len();
    let count_second = |sum: nat, id: i64| sum + second[id].len();
    if ids.len() == 0 {
        assert(ids =~= Set::<i64>::empty());
        lemma_fold_empty::<i64, nat>(0nat, count_first);
        lemma_fold_empty::<i64, nat>(0nat, count_second);
    } else {
        let id = ids.choose();
        let rest = ids.remove(id);
        lemma_count_by_entries(rest, first, second);
        assert(is_fun_commutative(count_first));
        assert(is_fun_commutative(count_second));
        lemma_fold_insert(rest, 0nat, count_first, id);
        lemma_fold_insert(rest, 0nat, count_second, id);
        assert(rest.insert(id) =~= ids);
    }
}

/// A map without entries holds no tags.
pub proof fn lemma_total_tags_empty()
    ensures
        total_tags(Map::<i64, Seq<Seq<char>>>::empty()) == 0,
{
    let map = Map::<i64, Seq<Seq<char>>>::empty();
    assert(map.dom() =~= Set::<i64>::empty());
    lemma_fold_empty::<i64, nat>(0nat, |sum: nat, id: i64| sum + map[id].len());
}

/// An entry for an identifier that had none adds its tags to the count.
pub proof fn lemma_total_tags_insert(map: Map<i64, Seq<Seq<char>>>, id: i64, tags: Seq<Seq<char>>)
    requires
        map.dom().finite(),
        !map.contains_key(id),
    ensures
        total_tags(map.insert(id, tags)) == total_tags(map) + tags.len(),
{
    let grown = map.insert(id, tags);
    let count_grown = |sum: nat, id: i64| sum + grown[id].len();
    assert(grown.dom() =~= map.dom().insert(id));
    assert(is_fun_commutative(count_grown));
    lemma_fold_insert(map.dom(), 0nat, count_grown, id);
    lemma_count_by_entries(map.dom(), grown, map);
}

/// A new entry for an identifier that had one puts its tags in place of the
/// old ones in the count.
pub proof fn lemma_total_tags_replace(map: Map<i64, Seq<Seq<char>>>, id: i64, tags: Seq<Seq<char>>)
    requires
        map.dom().finite(),
        map.contains_key(id),
    ensures
        total_tags(map.insert(id, tags)) + map[id].len() == total_tags(map) + tags.len(),
{
    let without = map.remove(id);
    lemma_total_tags_insert(without, id, tags);
    lemma_total_tags_insert(without, id, map[id]);
    assert(without.insert(id, tags) =~= map.insert(id, tags));
    assert(without.insert(id, map[id]) =~= map);
}

} // verus!
