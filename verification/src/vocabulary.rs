//! Tags and the vocabulary that holds them.

use vstd::prelude::*;

verus! {

/// A skill or technology name to look for: any text but the empty one.
#[derive(Debug)]
pub struct Tag {
    text: String,
}

impl View for Tag {
    type V = Seq<char>;

    closed spec fn view(&self) -> Seq<char> {
        self.text@
    }
}

impl Tag {
    #[verifier::type_invariant]
    spec fn not_empty(&self) -> bool {
        self.text@.len() > 0
    }

    /// Makes a tag of `text`, unless `text` is empty.
    pub fn new(text: String) -> (out: Option<Tag>)
        ensures
            out is None <==> text@.len() == 0,
            out matches Some(tag) ==> tag@ == text@,
    {
        if text.as_str().is_empty() {
            None
        } else {
            Some(Tag { text })
        }
    }

    /// The tag's text, which is never empty.
    pub fn as_str(&self) -> (out: &str)
        ensures
            out@ == self@,
            out@.len() > 0,
    {
        proof {
            use_type_invariant(self);
        }
        self.text.as_str()
    }

    /// A copy of the tag's text.
    pub fn to_text(&self) -> (out: String)
        ensures
            out@ == self@,
            out@.len() > 0,
    {
        proof {
            use_type_invariant(self);
        }
        self.text.clone()
    }
}

impl Clone for Tag {
    fn clone(&self) -> (out: Tag)
        ensures
            out@ == self@,
    {
        proof {
            use_type_invariant(self);
        }
        Tag { text: self.text.clone() }
    }
}

/// The texts of a list of tags, in the list's order.
pub open spec fn tag_texts(tags: Seq<Tag>) -> Seq<Seq<char>> {
    tags.map_values(|tag: Tag| tag@)
}

/// The set of known tags: each text at most once, in the order in which it
/// first came.
#[derive(Debug)]
pub struct Vocabulary {
    tags: Vec<Tag>,
}

impl View for Vocabulary {
    type V = Set<Seq<char>>;

    closed spec fn view(&self) -> Set<Seq<char>> {
        tag_texts(self.tags@).to_set()
    }
}

impl Vocabulary {
    #[verifier::type_invariant]
    spec fn distinct(&self) -> bool {
        tag_texts(self.tags@).no_duplicates()
    }

    /// The vocabulary's tags, first come first.
    pub closed spec fn entries(&self) -> Seq<Seq<char>> {
        tag_texts(self.tags@)
    }

    /// A vocabulary without tags.
    pub fn new() -> (out: Vocabulary)
        ensures
            out@ == Set::<Seq<char>>::empty(),
            out.entries() == Seq::<Seq<char>>::empty(),
    {
        let out = Vocabulary { tags: Vec::new() };
        assert(tag_texts(out.tags@) =~= Seq::empty());
        assert(out@ =~= Set::empty());
        out
    }

    /// The number of distinct tags.
    pub fn len(&self) -> (out: usize)
        ensures
            out == self@.len(),
            out == self.entries().len(),
            self@.finite(),
    {
        proof {
            use_type_invariant(self);
            tag_texts(self.tags@).unique_seq_to_set();
        }
        self.tags.len()
    }

    /// Tells whether `word` is one of the tags, letter for letter. The empty
    /// word never is.
    pub fn contains(&self, word: &String) -> (out: bool)
        ensures
            out == self@.contains(word@),
            out ==> word@.len() > 0,
    {
        let ghost texts = tag_texts(self.tags@);
        let n = self.tags.len();
        for i in 0..n
            invariant
                n == self.tags@.len(),
                texts == tag_texts(self.tags@),
                forall|j: int| 0 <= j < i ==> texts[j] != word@,
        {
            assert(texts[i as int] == self.tags@[i as int]@);
            let tag = &self.tags[i];
            if tag.text == *word {
                proof {
                    use_type_invariant(tag);
                }
                assert(texts.contains(word@));
                return true;
            }
        }
        assert(!texts.contains(word@));
        false
    }

    /// Adds `tag` unless the vocabulary has it already; tells whether it was
    /// added.
    pub fn insert(&mut self, tag: Tag) -> (added: bool)
        ensures
            final(self)@ == old(self)@.insert(tag@),
            added == !old(self)@.contains(tag@),
            added ==> final(self).entries() == old(self).entries().push(tag@),
            !added ==> final(self).entries() == old(self).entries(),
    {
        proof {
            use_type_invariant(&*self);
        }
        let ghost before = tag_texts(self.tags@);
        if self.contains(&tag.text) {
            assert(before.to_set().insert(tag@) =~= before.to_set());
            false
        } else {
            let mut tags: Vec<Tag> = Vec::new();
            assert(tag_texts(tags@) =~= Seq::empty());
            std::mem::swap(&mut tags, &mut self.tags);
            tags.push(tag);
            assert(tag_texts(tags@) =~= before.push(tag@));
            self.tags = tags;
            proof {
                before.lemma_push_to_set_commute(tag@);
            }
            true
        }
    }

    /// The vocabulary of the tags in `tags`: repeated tags count once.
    pub fn from_tags(tags: &Vec<Tag>) -> (out: Vocabulary)
        ensures
            out@ == tag_texts(tags@).to_set(),
    {
        let mut out = Vocabulary::new();
        let n = tags.len();
        for i in 0..n
            invariant
                n == tags@.len(),
                out@ == tag_texts(tags@).take(i as int).to_set(),
        {
            let ghost texts = tag_texts(tags@);
            out.insert(tags[i].clone());
            assert(texts.take(i + 1) =~= texts.take(i as int).push(tags@[i as int]@));
            proof {
                texts.take(i as int).lemma_push_to_set_commute(tags@[i as int]@);
            }
        }
        assert(tag_texts(tags@).take(n as int) =~= tag_texts(tags@));
        out
    }
}

} // verus!
