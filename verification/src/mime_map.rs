//! A map from media types to lists of desktop entry file names, kept in a
//! `Vec` with every key at most once.
use vstd::prelude::*;

use crate::mime_type::{self, MimeType};

verus! {

/// The text of each string of a list.
pub open spec fn strings_view(v: Seq<String>) -> Seq<Seq<char>> {
    v.map_values(|s: String| s@)
}

/// The map that inserting the pairs of `es` in order builds: a later pair
/// for a key replaces an earlier one.
pub open spec fn map_of(es: Seq<(Seq<char>, Seq<Seq<char>>)>) -> Map<Seq<char>, Seq<Seq<char>>>
    decreases es.len(),
{
    if es.len() == 0 {
        Map::empty()
    } else {
        map_of(es.drop_last()).insert(es.last().0, es.last().1)
    }
}

/// No key occurs twice.
pub open spec fn keys_unique(es: Seq<(Seq<char>, Seq<Seq<char>>)>) -> bool {
    forall|i: int, j: int| 0 <= i < j < es.len() ==> es[i].0 != es[j].0
}

/// Every key of the map reads back as the parser left it.
pub open spec fn keys_read_back(m: Map<Seq<char>, Seq<Seq<char>>>) -> bool {
    forall|k: Seq<char>| #[trigger] m.contains_key(k) ==> mime_type::text_reads_back(k)
}

/// A key of the map is the key of one of the pairs.
pub proof fn lemma_map_of_key(es: Seq<(Seq<char>, Seq<Seq<char>>)>, k: Seq<char>)
    requires
        map_of(es).contains_key(k),
    ensures
        exists|i: int| 0 <= i < es.len() && es[i].0 == k,
    decreases es.len(),
{
    if es.len() > 0 && k != es.last().0 {
        lemma_map_of_key(es.drop_last(), k);
        let i = choose|i: int| 0 <= i < es.len() - 1 && es.drop_last()[i].0 == k;
        assert(es[i].0 == k);
    }
}

/// Where the keys are unique, the map holds exactly the pairs of `es`.
pub proof fn lemma_map_of_unique(es: Seq<(Seq<char>, Seq<Seq<char>>)>)
    requires
        keys_unique(es),
    ensures
        forall|k: Seq<char>|
            #[trigger] map_of(es).contains_key(k) <==> exists|i: int| 0 <= i < es.len() && es[i].0 == k,
        forall|i: int| 0 <= i < es.len() ==> #[trigger] map_of(es)[es[i].0] == es[i].1,
    decreases es.len(),
{
    if es.len() > 0 {
        let init = es.drop_last();
        lemma_map_of_unique(init);
        assert forall|k: Seq<char>|
            #[trigger] map_of(es).contains_key(k) <==> exists|i: int| 0 <= i < es.len() && es[i].0 == k by {
            if map_of(es).contains_key(k) && k != es.last().0 {
                assert(map_of(init).contains_key(k));
                let i = choose|i: int| 0 <= i < init.len() && init[i].0 == k;
                assert(es[i].0 == k);
            }
            if exists|i: int| 0 <= i < es.len() && es[i].0 == k {
                let i = choose|i: int| 0 <= i < es.len() && es[i].0 == k;
                if i < es.len() - 1 {
                    assert(init[i].0 == k);
                    assert(map_of(init).contains_key(k));
                }
            }
        }
        assert forall|i: int| 0 <= i < es.len() implies #[trigger] map_of(es)[es[i].0] == es[i].1 by {
            if i < es.len() - 1 {
                assert(init[i] == es[i]);
                assert(es[i].0 != es.last().0);
                assert(map_of(init)[init[i].0] == init[i].1);
            }
        }
    }
}

/// Media types and the desktop entry file names registered for each.
pub struct MimeMap {
    entries: Vec<(MimeType, Vec<String>)>,
}

impl MimeMap {
    /// The pairs in the order the map keeps them.
    pub closed spec fn pairs(self) -> Seq<(Seq<char>, Seq<Seq<char>>)> {
        self.entries@.map_values(|e: (MimeType, Vec<String>)| (e.0@, strings_view(e.1@)))
    }

    #[verifier::type_invariant]
    pub(crate) closed spec fn unique(self) -> bool {
        &&& keys_unique(self.pairs())
        &&& forall|i: int| 0 <= i < self.entries@.len() ==> (#[trigger] self.entries@[i]).0.well_formed()
    }

    /// What the invariant gives: the keys are unique and read back, and the
    /// map holds each pair.
    pub(crate) proof fn lemma_pairs_model(self)
        requires
            self.unique(),
        ensures
            keys_unique(self.pairs()),
            keys_read_back(self.model()),
            forall|i: int|
                0 <= i < self.pairs().len() ==> self.model().contains_key(#[trigger] self.pairs()[i].0)
                    && self.model()[self.pairs()[i].0] == self.pairs()[i].1,
    {
        assert forall|k: Seq<char>| #[trigger] self.model().contains_key(k) implies mime_type::text_reads_back(k) by {
            lemma_map_of_key(self.pairs(), k);
            let i = choose|i: int| 0 <= i < self.pairs().len() && self.pairs()[i].0 == k;
            assert(self.entries@[i].0.well_formed());
        }
        lemma_map_of_unique(self.pairs());
        assert forall|i: int| 0 <= i < self.pairs().len() implies self.model().contains_key(#[trigger] self.pairs()[i].0)
            && self.model()[self.pairs()[i].0] == self.pairs()[i].1 by {
            assert(map_of(self.pairs())[self.pairs()[i].0] == self.pairs()[i].1);
        }
    }

    /// The map from each type's text to its file names.
    pub open spec fn model(self) -> Map<Seq<char>, Seq<Seq<char>>> {
        map_of(self.pairs())
    }

    /// An empty map.
    pub fn new() -> (res: MimeMap)
        ensures
            res.pairs() == Seq::<(Seq<char>, Seq<Seq<char>>)>::empty(),
            res.model() == Map::<Seq<char>, Seq<Seq<char>>>::empty(),
            keys_read_back(res.model()),
    {
        let res = MimeMap { entries: Vec::new() };
        assert(res.pairs() =~= Seq::<(Seq<char>, Seq<Seq<char>>)>::empty());
        res
    }

    /// The number of types in the map.
    pub fn len(&self) -> (res: usize)
        ensures
            res == self.pairs().len(),
    {
        self.entries.len()
    }

    /// The `i`th type and its file names, in the order the map keeps them.
    pub fn pair(&self, i: usize) -> (res: (&MimeType, &Vec<String>))
        requires
            i < self.pairs().len(),
        ensures
            res.0@ == self.pairs()[i as int].0,
            strings_view(res.1@) == self.pairs()[i as int].1,
    {
        let e = &self.entries[i];
        (&e.0, &e.1)
    }

    /// The position of `key`, if it is in the map.
    fn find(&self, key: &MimeType) -> (res: Option<usize>)
        ensures
            match res {
                Some(i) => i < self.pairs().len() && self.pairs()[i as int].0 == key@,
                None => forall|i: int| 0 <= i < self.pairs().len() ==> self.pairs()[i].0 != key@,
            },
    {
        let mut i: usize = 0;
        while i < self.entries.len()
            invariant
                i <= self.pairs().len(),
                self.pairs().len() == self.entries@.len(),
                forall|j: int| 0 <= j < i ==> self.pairs()[j].0 != key@,
            decreases self.entries@.len() - i,
        {
            if self.entries[i].0.same(key) {
                return Some(i);
            }
            i = i + 1;
        }
        None
    }

    /// The file names registered for `key` (`HashMap::get`).
    pub fn get(&self, key: &MimeType) -> (res: Option<&Vec<String>>)
        ensures
            match res {
                Some(v) => self.model().contains_key(key@) && self.model()[key@] == strings_view(v@),
                None => !self.model().contains_key(key@),
            },
    {
        proof {
            use_type_invariant(self);
            lemma_map_of_unique(self.pairs());
        }
        match self.find(key) {
            Some(i) => Some(&self.entries[i].1),
            None => None,
        }
    }

    /// Registers `value` for `key`, replacing what was registered for it
    /// (`HashMap::insert`). A new key goes to the end.
    pub fn insert(&mut self, key: MimeType, value: Vec<String>)
        ensures
            final(self).model() == old(self).model().insert(key@, strings_view(value@)),
            keys_read_back(final(self).model()),
    {
        proof {
            use_type_invariant(&*self);
            use_type_invariant(&key);
        }
        let ghost old_pairs = self.pairs();
        let ghost kv = (key@, strings_view(value@));
        match self.find(&key) {
            Some(i) => {
                let mut entries: Vec<(MimeType, Vec<String>)> = Vec::new();
                std::mem::swap(&mut entries, &mut self.entries);
                entries.set(i, (key, value));
                proof {
                    let np = entries@.map_values(|e: (MimeType, Vec<String>)| (e.0@, strings_view(e.1@)));
                    assert(np =~= old_pairs.update(i as int, kv));
                    lemma_map_of_unique(old_pairs);
                    lemma_map_of_unique(np);
                    assert(map_of(np) =~= map_of(old_pairs).insert(kv.0, kv.1)) by {
                        assert forall|k: Seq<char>| #[trigger] map_of(np).contains_key(k)
                            <==> map_of(old_pairs).insert(kv.0, kv.1).contains_key(k) by {
                            if map_of(old_pairs).contains_key(k) {
                                let j = choose|j: int| 0 <= j < old_pairs.len() && old_pairs[j].0 == k;
                                assert(np[j].0 == k);
                            }
                            if map_of(np).contains_key(k) {
                                let j = choose|j: int| 0 <= j < np.len() && np[j].0 == k;
                                if j != i {
                                    assert(old_pairs[j].0 == k);
                                }
                            }
                        }
                        assert forall|k: Seq<char>| #[trigger] map_of(np).contains_key(k) implies
                            map_of(np)[k] == map_of(old_pairs).insert(kv.0, kv.1)[k] by {
                            let j = choose|j: int| 0 <= j < np.len() && np[j].0 == k;
                            assert(map_of(np)[np[j].0] == np[j].1);
                            if j != i {
                                assert(map_of(old_pairs)[old_pairs[j].0] == old_pairs[j].1);
                            }
                        }
                    }
                }
                self.entries = entries;
            },
            None => {
                let mut entries: Vec<(MimeType, Vec<String>)> = Vec::new();
                std::mem::swap(&mut entries, &mut self.entries);
                entries.push((key, value));
                proof {
                    let np = entries@.map_values(|e: (MimeType, Vec<String>)| (e.0@, strings_view(e.1@)));
                    assert(np =~= old_pairs.push(kv));
                    assert(np.drop_last() =~= old_pairs);
                }
                self.entries = entries;
            },
        }
        proof {
            use_type_invariant(&*self);
            self.lemma_pairs_model();
        }
    }
}

} // verus!
