//! The registries: components by entity and type, subscribers by event type,
//! and a plain registry of values by type.

pub mod entity_registry;
pub mod event_registry;

use crate::traits::same_tag;
use std::any::TypeId;
use vstd::prelude::*;
use vstd::std_specs::cmp::PartialEqSpec;

verus! {

/// The values registered under one tag.
struct Shelf<T> {
    tag: TypeId,
    values: Vec<T>,
}

/// Some shelf has this tag.
spec fn has_shelf<T>(shelves: Seq<Shelf<T>>, tag: TypeId) -> bool {
    exists|s: int| 0 <= s < shelves.len() && (#[trigger] shelves[s]).tag == tag
}

/// Where the shelf with this tag stands.
spec fn shelf_at<T>(shelves: Seq<Shelf<T>>, tag: TypeId) -> int {
    choose|s: int| 0 <= s < shelves.len() && (#[trigger] shelves[s]).tag == tag
}

/// No two shelves have the same tag.
spec fn shelves_distinct<T>(shelves: Seq<Shelf<T>>) -> bool {
    forall|s: int, t: int|
        0 <= s < t < shelves.len() ==> (#[trigger] shelves[s]).tag != (#[trigger] shelves[t]).tag
}

/// The values under `tag`, in the order in which they came.
spec fn values_of<T>(shelves: Seq<Shelf<T>>, tag: TypeId) -> Seq<T> {
    if has_shelf(shelves, tag) {
        shelves[shelf_at(shelves, tag)].values@
    } else {
        Seq::empty()
    }
}

/// In a duplicate-free sequence of shelves the shelf at `s` is the one that
/// its tag finds.
proof fn lemma_shelf_found<T>(shelves: Seq<Shelf<T>>, s: int)
    requires
        shelves_distinct(shelves),
        0 <= s < shelves.len(),
    ensures
        has_shelf(shelves, shelves[s].tag),
        shelf_at(shelves, shelves[s].tag) == s,
        values_of(shelves, shelves[s].tag) == shelves[s].values@,
{
}

/// A shelf that gets another list keeps its tag, and no other shelf changes.
proof fn lemma_shelves_update<T>(shelves: Seq<Shelf<T>>, s: int, shelf: Shelf<T>)
    requires
        shelves_distinct(shelves),
        0 <= s < shelves.len(),
        shelf.tag == shelves[s].tag,
    ensures
        shelves_distinct(shelves.update(s, shelf)),
        forall|tag: TypeId|
            values_of(shelves.update(s, shelf), tag) == if tag == shelf.tag {
                shelf.values@
            } else {
                values_of(shelves, tag)
            },
{
    let after = shelves.update(s, shelf);
    assert forall|tag: TypeId|
        values_of(after, tag) == if tag == shelf.tag {
            shelf.values@
        } else {
            values_of(shelves, tag)
        } by {
        if !has_shelf(after, tag) && has_shelf(shelves, tag) {
            let a = shelf_at(shelves, tag);
            assert(after[a].tag == tag);
        }
    }
}

/// A new shelf under a tag that had none adds that tag and changes no other.
proof fn lemma_shelves_push<T>(shelves: Seq<Shelf<T>>, shelf: Shelf<T>)
    requires
        shelves_distinct(shelves),
        !has_shelf(shelves, shelf.tag),
    ensures
        shelves_distinct(shelves.push(shelf)),
        forall|tag: TypeId|
            values_of(shelves.push(shelf), tag) == if tag == shelf.tag {
                shelf.values@
            } else {
                values_of(shelves, tag)
            },
{
    let after = shelves.push(shelf);
    assert forall|tag: TypeId|
        values_of(after, tag) == if tag == shelf.tag {
            shelf.values@
        } else {
            values_of(shelves, tag)
        } by {
        if tag == shelf.tag {
            lemma_shelf_found(after, shelves.len() as int);
        } else if has_shelf(shelves, tag) {
            let a = shelf_at(shelves, tag);
            assert(after[a].tag == tag);
        }
    }
}

/// Some value of `values` equals `value`, as `T`'s `==` has it.
pub open spec fn holds_equal<T: PartialEq>(values: Seq<T>, value: T) -> bool {
    exists|i: int| 0 <= i < values.len() && (#[trigger] values[i]).eq_spec(&value)
}

/// Values by the tag of a type. Under one tag no value is kept that equals
/// one that is there already.
pub struct Registry<T> {
    registry: Vec<Shelf<T>>,
}

impl<T: PartialEq> Registry<T> {
    /// Each tag has its values in one list, and a tag that is known has a
    /// value.
    pub closed spec fn wf(&self) -> bool {
        &&& shelves_distinct(self.registry@)
        &&& forall|s: int|
            0 <= s < self.registry@.len() ==> (#[trigger] self.registry@[s]).values@.len() > 0
    }

    /// The values registered under `tag`, in the order in which they came.
    pub closed spec fn values(&self, tag: TypeId) -> Seq<T> {
        values_of(self.registry@, tag)
    }

    pub fn new() -> (registry: Self)
        ensures
            registry.wf(),
            forall|tag: TypeId| registry.values(tag) == Seq::<T>::empty(),
    {
        Registry { registry: Vec::new() }
    }

    /// Where the shelf of `tag` stands, if there is one.
    fn find(&self, tag: TypeId) -> (at: Option<usize>)
        ensures
            match at {
                Some(s) => s < self.registry@.len() && self.registry@[s as int].tag == tag,
                None => !has_shelf(self.registry@, tag),
            },
    {
        let mut s: usize = 0;
        while s < self.registry.len()
            invariant
                s <= self.registry@.len(),
                forall|t: int| 0 <= t < s ==> (#[trigger] self.registry@[t]).tag != tag,
            decreases self.registry@.len() - s,
        {
            if same_tag(self.registry[s].tag, tag) {
                return Some(s);
            }
            s += 1;
        }
        None
    }

    /// Registers `value` under `tag`, unless a value that equals it is
    /// registered there already: then the older one stays. Where `T`'s `==`
    /// follows no rule, either may happen.
    pub fn register(&mut self, tag: TypeId, value: Box<T>)
        requires
            old(self).wf(),
        ensures
            final(self).wf(),
            final(self).values(tag) == old(self).values(tag) || final(self).values(tag) == old(
                self,
            ).values(tag).push(*value),
            T::obeys_eq_spec() ==> final(self).values(tag) == if holds_equal(
                old(self).values(tag),
                *value,
            ) {
                old(self).values(tag)
            } else {
                old(self).values(tag).push(*value)
            },
            forall|other: TypeId| other != tag ==> final(self).values(other) == old(self).values(other),
    {
        let ghost shelves = self.registry@;
        match self.find(tag) {
            Some(s) => {
                let mut i: usize = 0;
                while i < self.registry[s].values.len()
                    invariant
                        old(self).wf(),
                        *self == *old(self),
                        self.registry@ == shelves,
                        s < shelves.len(),
                        shelves[s as int].tag == tag,
                        i <= shelves[s as int].values@.len(),
                        T::obeys_eq_spec() ==> forall|j: int|
                            0 <= j < i ==> !(#[trigger] shelves[s as int].values@[j]).eq_spec(&*value),
                    decreases shelves[s as int].values@.len() - i,
                {
                    if self.registry[s].values[i] == *value {
                        return;
                    }
                    i += 1;
                }
                self.registry[s].values.push(*value);
                proof {
                    lemma_shelves_update(shelves, s as int, self.registry@[s as int]);
                }
            },
            None => {
                let mut values: Vec<T> = Vec::new();
                values.push(*value);
                let shelf = Shelf { tag, values };
                proof {
                    lemma_shelves_push(shelves, shelf);
                }
                self.registry.push(shelf);
            },
        }
    }

    /// The values registered under `tag`. None where nothing was registered
    /// under it.
    pub fn get(&self, tag: TypeId) -> (found: Option<&Vec<T>>)
        requires
            self.wf(),
        ensures
            match found {
                Some(values) => values@ == self.values(tag) && values@.len() > 0,
                None => self.values(tag).len() == 0,
            },
    {
        match self.find(tag) {
            Some(s) => {
                Some(&self.registry[s].values)
            },
            None => None,
        }
    }
}

} // verus!
