//! A finite set of entity keys.

use vstd::prelude::*;

verus! {

/// The keys as the sequence of their views.
pub open spec fn key_views(keys: Seq<String>) -> Seq<Seq<char>> {
    keys.map_values(|key: String| key@)
}

/// A set of entity keys. No key is kept twice.
pub struct EntitySet {
    keys: Vec<String>,
}

impl View for EntitySet {
    type V = Set<Seq<char>>;

    closed spec fn view(&self) -> Set<Seq<char>> {
        key_views(self.keys@).to_set()
    }
}

/// A key is in the set of the views exactly when some key has that view.
pub proof fn lemma_key_views_member(keys: Seq<String>, entity: Seq<char>)
    ensures
        key_views(keys).to_set().contains(entity) <==> exists|j: int|
            0 <= j < keys.len() && (#[trigger] keys[j])@ == entity,
{
    if exists|j: int| 0 <= j < keys.len() && (#[trigger] keys[j])@ == entity {
        let j = choose|j: int| 0 <= j < keys.len() && (#[trigger] keys[j])@ == entity;
        assert(key_views(keys)[j] == entity);
    }
}

impl EntitySet {
    /// No key occurs twice.
    pub closed spec fn wf(&self) -> bool {
        key_views(self.keys@).no_duplicates()
    }

    /// The keys in the order in which the set lists them.
    pub closed spec fn order(&self) -> Seq<Seq<char>> {
        key_views(self.keys@)
    }

    /// `order` lists each key of the set once, so the set is finite and as
    /// large as `order` is long.
    pub proof fn lemma_order(&self)
        requires
            self.wf(),
        ensures
            self@ == self.order().to_set(),
            self.order().no_duplicates(),
            self@.finite(),
            self@.len() == self.order().len(),
    {
        self.order().unique_seq_to_set();
    }

    pub fn new() -> (set: Self)
        ensures
            set.wf(),
            set@ == Set::<Seq<char>>::empty(),
            set.order() == Seq::<Seq<char>>::empty(),
    {
        EntitySet { keys: Vec::new() }
    }

    pub fn len(&self) -> (n: usize)
        requires
            self.wf(),
        ensures
            n == self@.len(),
            n == self.order().len(),
    {
        proof {
            self.lemma_order();
        }
        self.keys.len()
    }

    pub fn is_empty(&self) -> (empty: bool)
        ensures
            empty == (self@ == Set::<Seq<char>>::empty()),
    {
        proof {
            if self.keys.len() == 0 {
                assert(self@ =~= Set::<Seq<char>>::empty());
            } else {
                lemma_key_views_member(self.keys@, self.keys@[0]@);
            }
        }
        self.keys.len() == 0
    }

    /// Where `entity` stands among the keys, if it is one of them.
    fn position(&self, entity: &String) -> (at: Option<usize>)
        ensures
            match at {
                Some(i) => i < self.keys.len() && self.keys[i as int]@ == entity@
                    && self@.contains(entity@),
                None => !self@.contains(entity@),
            },
    {
        let mut i: usize = 0;
        while i < self.keys.len()
            invariant
                i <= self.keys.len(),
                forall|j: int| 0 <= j < i ==> self.keys[j]@ != entity@,
            decreases self.keys.len() - i,
        {
            if self.keys[i] == *entity {
                proof {
                    lemma_key_views_member(self.keys@, entity@);
                }
                return Some(i);
            }
            i += 1;
        }
        None
    }

    pub fn contains(&self, entity: &String) -> (found: bool)
        ensures
            found == self@.contains(entity@),
    {
        self.position(entity).is_some()
    }

    /// The keys of the set, each once.
    pub fn keys(&self) -> (keys: &Vec<String>)
        ensures
            key_views(keys@) == self.order(),
    {
        &self.keys
    }

    /// Puts `entity` into the set. Says whether it was new.
    pub fn insert(&mut self, entity: String) -> (fresh: bool)
        requires
            old(self).wf(),
        ensures
            final(self).wf(),
            final(self)@ == old(self)@.insert(entity@),
            fresh == !old(self)@.contains(entity@),
            final(self).order() == if fresh {
                old(self).order().push(entity@)
            } else {
                old(self).order()
            },
    {
        match self.position(&entity) {
            Some(_) => false,
            None => {
                let ghost before = self.keys@;
                self.keys.push(entity);
                proof {
                    assert(key_views(self.keys@) =~= key_views(before).push(entity@));
                    assert forall|e: Seq<char>|
                        self@.contains(e) == (key_views(before).to_set().contains(e) || e
                            == entity@) by {
                        lemma_key_views_member(self.keys@, e);
                        if key_views(before).to_set().contains(e) {
                            let j = choose|j: int|
                                0 <= j < before.len() && (#[trigger] before[j])@ == e;
                            assert(self.keys@[j]@ == e);
                        }
                        if e == entity@ {
                            assert(self.keys@[before.len() as int]@ == e);
                        }
                    }
                }
                true
            },
        }
    }

    /// Takes `entity` out of the set. Says whether it was in it.
    pub fn remove(&mut self, entity: &String) -> (found: bool)
        requires
            old(self).wf(),
        ensures
            final(self).wf(),
            final(self)@ == old(self)@.remove(entity@),
            found == old(self)@.contains(entity@),
            final(self).order() == if found {
                old(self).order().remove(old(self).order().index_of(entity@))
            } else {
                old(self).order()
            },
    {
        match self.position(entity) {
            Some(i) => {
                let ghost before = self.keys@;
                self.keys.remove(i);
                proof {
                    assert(key_views(self.keys@) =~= key_views(before).remove(i as int));
                    assert(key_views(before)[i as int] == entity@);
                    assert forall|e: Seq<char>|
                        self@.contains(e) == (key_views(before).to_set().contains(e) && e
                            != entity@) by {
                        lemma_key_views_member(self.keys@, e);
                        if key_views(before).to_set().contains(e) && e != entity@ {
                            let j = choose|j: int|
                                0 <= j < before.len() && (#[trigger] before[j])@ == e;
                            let k = if j < i { j } else { j - 1 };
                            assert(self.keys@[k]@ == e);
                        }
                    }
                }
                true
            },
            None => false,
        }
    }

    /// The keys that are both in `self` and in `other`.
    pub fn intersection(&self, other: &EntitySet) -> (both: EntitySet)
        requires
            self.wf(),
        ensures
            both.wf(),
            both@ == self@.intersect(other@),
            both.order() == self.order().filter(|key: Seq<char>| other@.contains(key)),
    {
        let mut both = EntitySet::new();
        let ghost shared = |key: Seq<char>| other@.contains(key);
        let mut i: usize = 0;
        while i < self.keys.len()
            invariant
                i <= self.keys.len(),
                self.wf(),
                both.wf(),
                both@ == key_views(self.keys@.take(i as int)).to_set().intersect(other@),
                shared == |key: Seq<char>| other@.contains(key),
                both.order() == key_views(self.keys@.take(i as int)).filter(shared),
            decreases self.keys.len() - i,
        {
            proof {
                key_views(self.keys@.take(i as int)).lemma_filter_push(
                    self.keys@[i as int]@,
                    shared,
                );
                assert(key_views(self.keys@.take(i + 1)) =~= key_views(
                    self.keys@.take(i as int),
                ).push(self.keys@[i as int]@));
                key_views(self.keys@.take(i as int)).lemma_push_to_set_commute(
                    self.keys@[i as int]@,
                );
            }
            if other.contains(&self.keys[i]) {
                proof {
                    let key = self.keys@[i as int]@;
                    if both@.contains(key) {
                        let j = choose|j: int|
                            0 <= j < self.keys@.take(i as int).len() && (
                            #[trigger] self.keys@.take(i as int)[j])@ == key;
                        assert(key_views(self.keys@)[j] == key_views(self.keys@)[i as int]);
                    }
                }
                both.insert(self.keys[i].clone());
            }
            i += 1;
        }
        assert(self.keys@.take(self.keys.len() as int) =~= self.keys@);
        both
    }

    /// A copy of the set.
    pub fn duplicate(&self) -> (copy: EntitySet)
        requires
            self.wf(),
        ensures
            copy.wf(),
            copy@ == self@,
            copy.order() == self.order(),
    {
        let mut keys: Vec<String> = Vec::new();
        let mut i: usize = 0;
        while i < self.keys.len()
            invariant
                i <= self.keys.len(),
                key_views(keys@) == key_views(self.keys@.take(i as int)),
            decreases self.keys.len() - i,
        {
            keys.push(self.keys[i].clone());
            proof {
                assert(key_views(self.keys@.take(i + 1)) =~= key_views(
                    self.keys@.take(i as int),
                ).push(self.keys@[i as int]@));
            }
            i += 1;
        }
        assert(self.keys@.take(self.keys.len() as int) =~= self.keys@);
        EntitySet { keys }
    }
}

} // verus!
