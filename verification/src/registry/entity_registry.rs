//! The component store: at most one component of each type for each entity,
//! and for each type the set of the entities that have one.
//!
//! Slots and index entries are kept in vectors, so a lookup walks the slots
//! until it finds the one it wants.

use crate::entity_set::key_views;
use crate::entity_set::EntitySet;
use crate::state_queue::applied;
use crate::state_queue::committed;
use crate::state_queue::lemma_applied_next;
use crate::state_queue::CommitError;
use crate::state_queue::Edit;
use crate::traits::same_tag;
use crate::traits::Anyable;
use crate::traits::Erased;
use std::any::TypeId;
use vstd::pervasive::unreached;
use vstd::prelude::*;

verus! {

/// One component: the entity it belongs to, the tag of its type, and the cell
/// that holds it.
struct Slot<C> {
    entity: String,
    tag: TypeId,
    cell: C,
}

/// One entry of the reverse index: the entities that have a component of the
/// type with this tag.
struct Column {
    tag: TypeId,
    members: EntitySet,
}

/// The key of a slot: the entity and the tag.
spec fn slot_key<C>(slot: Slot<C>) -> (Seq<char>, TypeId) {
    (slot.entity@, slot.tag)
}

/// Some slot has this key.
spec fn has_slot<C>(slots: Seq<Slot<C>>, key: (Seq<char>, TypeId)) -> bool {
    exists|i: int| 0 <= i < slots.len() && slot_key(#[trigger] slots[i]) == key
}

/// Where the slot with this key stands.
spec fn slot_at<C>(slots: Seq<Slot<C>>, key: (Seq<char>, TypeId)) -> int {
    choose|i: int| 0 <= i < slots.len() && slot_key(#[trigger] slots[i]) == key
}

/// No two slots have the same key.
spec fn slots_distinct<C>(slots: Seq<Slot<C>>) -> bool {
    forall|i: int, j: int|
        0 <= i < j < slots.len() ==> slot_key(#[trigger] slots[i]) != slot_key(#[trigger] slots[j])
}

/// The cells by key.
spec fn slots_view<C>(slots: Seq<Slot<C>>) -> Map<(Seq<char>, TypeId), C> {
    Map::new(
        |key: (Seq<char>, TypeId)| has_slot(slots, key),
        |key: (Seq<char>, TypeId)| slots[slot_at(slots, key)].cell,
    )
}

/// Some column has this tag.
spec fn has_column(columns: Seq<Column>, tag: TypeId) -> bool {
    exists|c: int| 0 <= c < columns.len() && (#[trigger] columns[c]).tag == tag
}

/// Where the column with this tag stands.
spec fn column_at(columns: Seq<Column>, tag: TypeId) -> int {
    choose|c: int| 0 <= c < columns.len() && (#[trigger] columns[c]).tag == tag
}

/// No two columns have the same tag, and each column's set is in order.
spec fn columns_distinct(columns: Seq<Column>) -> bool {
    &&& forall|c: int, d: int|
        0 <= c < d < columns.len() ==> (#[trigger] columns[c]).tag != (#[trigger] columns[d]).tag
    &&& forall|c: int| 0 <= c < columns.len() ==> (#[trigger] columns[c]).members.wf()
}

/// The entities that the reverse index lists under `tag`.
spec fn members_of(columns: Seq<Column>, tag: TypeId) -> Set<Seq<char>> {
    if has_column(columns, tag) {
        columns[column_at(columns, tag)].members@
    } else {
        Set::empty()
    }
}

/// The order in which the reverse index lists the entities under `tag`.
spec fn listing_of(columns: Seq<Column>, tag: TypeId) -> Seq<Seq<char>> {
    if has_column(columns, tag) {
        columns[column_at(columns, tag)].members.order()
    } else {
        Seq::empty()
    }
}

/// In a duplicate-free sequence of slots the slot at `i` is the one that its
/// key finds.
proof fn lemma_slot_found<C>(slots: Seq<Slot<C>>, i: int)
    requires
        slots_distinct(slots),
        0 <= i < slots.len(),
    ensures
        has_slot(slots, slot_key(slots[i])),
        slot_at(slots, slot_key(slots[i])) == i,
        slots_view(slots).contains_key(slot_key(slots[i])),
        slots_view(slots)[slot_key(slots[i])] == slots[i].cell,
{
}

/// In a duplicate-free sequence of columns the column at `c` is the one that
/// its tag finds.
proof fn lemma_column_found(columns: Seq<Column>, c: int)
    requires
        columns_distinct(columns),
        0 <= c < columns.len(),
    ensures
        has_column(columns, columns[c].tag),
        column_at(columns, columns[c].tag) == c,
        members_of(columns, columns[c].tag) == columns[c].members@,
        listing_of(columns, columns[c].tag) == columns[c].members.order(),
{
}

/// A new slot under a key that was free adds that key and changes no other.
proof fn lemma_slots_push<C>(slots: Seq<Slot<C>>, slot: Slot<C>)
    requires
        slots_distinct(slots),
        !has_slot(slots, slot_key(slot)),
    ensures
        slots_distinct(slots.push(slot)),
        slots_view(slots.push(slot)) == slots_view(slots).insert(slot_key(slot), slot.cell),
        forall|key: (Seq<char>, TypeId)|
            has_slot(slots.push(slot), key) == (has_slot(slots, key) || key == slot_key(slot)),
{
    let after = slots.push(slot);
    assert forall|key: (Seq<char>, TypeId)|
        has_slot(after, key) == (has_slot(slots, key) || key == slot_key(slot)) by {
        if has_slot(slots, key) {
            let i = slot_at(slots, key);
            assert(slot_key(after[i]) == key);
        }
        if key == slot_key(slot) {
            assert(slot_key(after[slots.len() as int]) == key);
        }
    }
}

/// A slot that gets another cell keeps its key, and no other key changes.
proof fn lemma_slots_update<C>(slots: Seq<Slot<C>>, i: int, slot: Slot<C>)
    requires
        slots_distinct(slots),
        0 <= i < slots.len(),
        slot_key(slot) == slot_key(slots[i]),
    ensures
        slots_distinct(slots.update(i, slot)),
        slots_view(slots.update(i, slot)) == slots_view(slots).insert(slot_key(slot), slot.cell),
        forall|key: (Seq<char>, TypeId)| has_slot(slots.update(i, slot), key) == has_slot(slots, key),
{
    let after = slots.update(i, slot);
    assert forall|key: (Seq<char>, TypeId)| has_slot(after, key) == has_slot(slots, key) by {
        if has_slot(slots, key) {
            let a = slot_at(slots, key);
            assert(slot_key(after[a]) == key);
        }
    }
}

/// A slot that leaves takes its key with it, and no other key changes.
proof fn lemma_slots_remove<C>(slots: Seq<Slot<C>>, i: int)
    requires
        slots_distinct(slots),
        0 <= i < slots.len(),
    ensures
        slots_distinct(slots.remove(i)),
        slots_view(slots.remove(i)) == slots_view(slots).remove(slot_key(slots[i])),
        forall|key: (Seq<char>, TypeId)|
            has_slot(slots.remove(i), key) == (has_slot(slots, key) && key != slot_key(slots[i])),
{
    let after = slots.remove(i);
    let gone = slot_key(slots[i]);
    assert forall|key: (Seq<char>, TypeId)|
        has_slot(after, key) == (has_slot(slots, key) && key != gone) by {
        if has_slot(slots, key) && key != gone {
            let a0 = slot_at(slots, key);
            let a = if a0 < i { a0 } else { a0 - 1 };
            assert(slot_key(after[a]) == key);
        }
    }
}

/// A column that gets another set keeps its tag, and no other column changes.
proof fn lemma_columns_update(columns: Seq<Column>, c: int, column: Column)
    requires
        columns_distinct(columns),
        0 <= c < columns.len(),
        column.tag == columns[c].tag,
        column.members.wf(),
    ensures
        columns_distinct(columns.update(c, column)),
        forall|tag: TypeId|
            members_of(columns.update(c, column), tag) == if tag == column.tag {
                column.members@
            } else {
                members_of(columns, tag)
            },
        forall|tag: TypeId| has_column(columns.update(c, column), tag) == has_column(columns, tag),
        forall|tag: TypeId|
            listing_of(columns.update(c, column), tag) == if tag == column.tag {
                column.members.order()
            } else {
                listing_of(columns, tag)
            },
{
    let after = columns.update(c, column);
    assert forall|tag: TypeId| has_column(after, tag) == has_column(columns, tag) by {
        if has_column(columns, tag) {
            let a = column_at(columns, tag);
            assert(after[a].tag == tag);
        }
    }
}

/// A new column under a tag that had none adds that tag and changes no other.
proof fn lemma_columns_push(columns: Seq<Column>, column: Column)
    requires
        columns_distinct(columns),
        !has_column(columns, column.tag),
        column.members.wf(),
    ensures
        columns_distinct(columns.push(column)),
        forall|tag: TypeId|
            members_of(columns.push(column), tag) == if tag == column.tag {
                column.members@
            } else {
                members_of(columns, tag)
            },
        forall|tag: TypeId|
            listing_of(columns.push(column), tag) == if tag == column.tag {
                column.members.order()
            } else {
                listing_of(columns, tag)
            },
{
    let after = columns.push(column);
    assert forall|tag: TypeId|
        members_of(after, tag) == (if tag == column.tag {
            column.members@
        } else {
            members_of(columns, tag)
        }) && listing_of(after, tag) == (if tag == column.tag {
            column.members.order()
        } else {
            listing_of(columns, tag)
        }) by {
        if tag == column.tag {
            lemma_column_found(after, columns.len() as int);
        } else if has_column(columns, tag) {
            let a = column_at(columns, tag);
            assert(after[a].tag == tag);
        }
    }
}

/// The component of type `T` that `entity` has in `store`, if it has one.
pub open spec fn component_in<C: Erased, T: Anyable<C>>(
    store: Map<(Seq<char>, TypeId), C>,
    entity: Seq<char>,
) -> Option<T> {
    if store.contains_key((entity, T::type_tag())) {
        T::from_cell(store[(entity, T::type_tag())])
    } else {
        None
    }
}

/// The entities that have in `store` a component of the type with this tag.
pub open spec fn entities_in<C>(store: Map<(Seq<char>, TypeId), C>, tag: TypeId) -> Set<Seq<char>> {
    Set::new(|entity: Seq<char>| store.contains_key((entity, tag)))
}

/// The entities that have in `store` a component of each of these types;
/// none where no type is named.
pub open spec fn entities_in_all<C>(store: Map<(Seq<char>, TypeId), C>, tags: Seq<TypeId>) -> Set<
    Seq<char>,
> {
    if tags.len() == 0 {
        Set::empty()
    } else {
        Set::new(
            |entity: Seq<char>|
                forall|i: int| 0 <= i < tags.len() ==> store.contains_key((entity, tags[i])),
        )
    }
}

/// A component that was added is the one that is found, and one that was
/// removed is found no more.
pub proof fn lemma_add_get_remove<C: Erased, T: Anyable<C>>(
    store: Map<(Seq<char>, TypeId), C>,
    entity: Seq<char>,
    component: T,
)
    ensures
        component_in::<C, T>(
            store.insert((entity, T::type_tag()), component.as_cell()),
            entity,
        ) == Some(component),
        component_in::<C, T>(store.remove((entity, T::type_tag())), entity).is_none(),
{
    T::lemma_as_cell(component);
}

/// The entities with a tag are those that had it before and the one that
/// was given a component of it; those that had it before without the one
/// that lost it. Under every other tag nothing changes.
pub proof fn lemma_entities_follow<C>(
    store: Map<(Seq<char>, TypeId), C>,
    entity: Seq<char>,
    tag: TypeId,
    cell: C,
    other: TypeId,
)
    ensures
        entities_in(store.insert((entity, tag), cell), tag) == entities_in(store, tag).insert(
            entity,
        ),
        entities_in(store.remove((entity, tag)), tag) == entities_in(store, tag).remove(entity),
        other != tag ==> entities_in(store.insert((entity, tag), cell), other) == entities_in(
            store,
            other,
        ),
        other != tag ==> entities_in(store.remove((entity, tag)), other) == entities_in(
            store,
            other,
        ),
{
}

/// The entities with all of some types are those that are in the set of
/// each of them: the order in which the types are named, and how often, has
/// no part in it.
pub proof fn lemma_entities_in_all<C>(
    store: Map<(Seq<char>, TypeId), C>,
    tags: Seq<TypeId>,
    others: Seq<TypeId>,
    first: TypeId,
    second: TypeId,
)
    ensures
        entities_in_all(store, Seq::<TypeId>::empty()) == Set::<Seq<char>>::empty(),
        entities_in_all(store, seq![first]) == entities_in(store, first),
        entities_in_all(store, seq![first, second]) == entities_in(store, first).intersect(
            entities_in(store, second),
        ),
        entities_in_all(store, seq![first, second]) == entities_in_all(store, seq![second, first]),
        tags.len() > 0 && tags.to_set() == others.to_set() ==> entities_in_all(store, tags)
            == entities_in_all(store, others),
{
    assert(entities_in_all(store, seq![first]) =~= entities_in(store, first)) by {
        assert forall|entity: Seq<char>|
            entities_in_all(store, seq![first]).contains(entity) == entities_in(
                store,
                first,
            ).contains(entity) by {
            assert(seq![first][0] == first);
        }
    }
    if tags.len() > 0 && tags.to_set() == others.to_set() {
        assert(tags.to_set().contains(tags[0]));
        assert forall|entity: Seq<char>|
            entities_in_all(store, tags).contains(entity) == entities_in_all(
                store,
                others,
            ).contains(entity) by {
            if entities_in_all(store, tags).contains(entity) {
                assert forall|i: int| 0 <= i < others.len() implies store.contains_key(
                    (entity, others[i]),
                ) by {
                    assert(others.to_set().contains(others[i]));
                }
            }
            if entities_in_all(store, others).contains(entity) {
                assert forall|i: int| 0 <= i < tags.len() implies store.contains_key(
                    (entity, tags[i]),
                ) by {
                    assert(tags.to_set().contains(tags[i]));
                }
            }
        }
    }
}

/// The component store.
///
/// Its view maps each pair of an entity and a tag to the cell that holds the
/// component of that type for that entity.
pub struct EntityRegistry<C> {
    entities: Vec<Slot<C>>,
    components: Vec<Column>,
}

impl<C> View for EntityRegistry<C> {
    type V = Map<(Seq<char>, TypeId), C>;

    closed spec fn view(&self) -> Map<(Seq<char>, TypeId), C> {
        slots_view(self.entities@)
    }
}

impl<C: Erased> EntityRegistry<C> {
    /// Each pair of an entity and a tag has at most one slot, each cell holds
    /// a value of the type that its slot's tag names, and the reverse index
    /// lists an entity under a tag exactly when the pair has a slot.
    pub closed spec fn wf(&self) -> bool {
        &&& slots_distinct(self.entities@)
        &&& columns_distinct(self.components@)
        &&& forall|i: int|
            0 <= i < self.entities@.len() ==> (#[trigger] self.entities@[i]).cell.held()
                == self.entities@[i].tag
        &&& forall|tag: TypeId, entity: Seq<char>|
            #![trigger members_of(self.components@, tag).contains(entity)]
            #![trigger has_slot(self.entities@, (entity, tag))]
            members_of(self.components@, tag).contains(entity) <==> has_slot(
                self.entities@,
                (entity, tag),
            )
    }

    /// The entities that have a component of the type with this tag.
    pub open spec fn entities_with(&self, tag: TypeId) -> Set<Seq<char>> {
        entities_in(self@, tag)
    }

    /// The entities that have a component of each of these types; none where
    /// no type is named.
    pub open spec fn entities_with_all(&self, tags: Seq<TypeId>) -> Set<Seq<char>> {
        entities_in_all(self@, tags)
    }

    /// The order in which the store lists the entities with this tag.
    pub closed spec fn listing(&self, tag: TypeId) -> Seq<Seq<char>> {
        listing_of(self.components@, tag)
    }

    /// The component of type `T` that `entity` has, if it has one.
    pub open spec fn component<T: Anyable<C>>(&self, entity: Seq<char>) -> Option<T> {
        component_in::<C, T>(self@, entity)
    }

    /// Every cell holds a value of the type that its tag names.
    pub proof fn lemma_cells_typed(&self, entity: Seq<char>, tag: TypeId)
        requires
            self.wf(),
            self@.contains_key((entity, tag)),
        ensures
            self@[(entity, tag)].held() == tag,
    {
        lemma_slot_found(self.entities@, slot_at(self.entities@, (entity, tag)));
    }

    /// The listing under a tag names each entity with that tag once.
    pub proof fn lemma_listing(&self, tag: TypeId)
        requires
            self.wf(),
        ensures
            self.listing(tag).no_duplicates(),
            self.listing(tag).to_set() == self.entities_with(tag),
            self.entities_with(tag).finite(),
            self.entities_with(tag).len() == self.listing(tag).len(),
    {
        assert(members_of(self.components@, tag) =~= self.entities_with(tag)) by {
            assert forall|entity: Seq<char>|
                members_of(self.components@, tag).contains(entity) == self.entities_with(
                    tag,
                ).contains(entity) by {
                assert(members_of(self.components@, tag).contains(entity) <==> has_slot(
                    self.entities@,
                    (entity, tag),
                ));
            }
        }
        if has_column(self.components@, tag) {
            self.components@[column_at(self.components@, tag)].members.lemma_order();
        }
    }

    pub fn new() -> (store: Self)
        ensures
            store.wf(),
            store@ == Map::<(Seq<char>, TypeId), C>::empty(),
    {
        EntityRegistry { entities: Vec::new(), components: Vec::new() }
    }

    /// Where the slot of `entity` and `tag` stands, if there is one.
    fn find(&self, entity: &String, tag: TypeId) -> (at: Option<usize>)
        ensures
            match at {
                Some(i) => i < self.entities@.len() && slot_key(self.entities@[i as int]) == (
                    entity@,
                    tag,
                ),
                None => !has_slot(self.entities@, (entity@, tag)),
            },
    {
        let mut i: usize = 0;
        while i < self.entities.len()
            invariant
                i <= self.entities@.len(),
                forall|j: int| 0 <= j < i ==> slot_key(#[trigger] self.entities@[j]) != (entity@, tag),
            decreases self.entities@.len() - i,
        {
            if same_tag(self.entities[i].tag, tag) && self.entities[i].entity == *entity {
                return Some(i);
            }
            i += 1;
        }
        None
    }

    /// Where the column of `tag` stands, if there is one.
    fn find_column(&self, tag: TypeId) -> (at: Option<usize>)
        ensures
            match at {
                Some(c) => c < self.components@.len() && self.components@[c as int].tag == tag,
                None => !has_column(self.components@, tag),
            },
    {
        let mut c: usize = 0;
        while c < self.components.len()
            invariant
                c <= self.components@.len(),
                forall|d: int| 0 <= d < c ==> (#[trigger] self.components@[d]).tag != tag,
            decreases self.components@.len() - c,
        {
            if same_tag(self.components[c].tag, tag) {
                return Some(c);
            }
            c += 1;
        }
        None
    }

    /// Gives `entity` the component `component`. One of the same type that it
    /// had before is replaced.
    pub fn add_component<T: Anyable<C>>(&mut self, entity: String, component: T)
        requires
            old(self).wf(),
        ensures
            final(self).wf(),
            final(self)@ == old(self)@.insert((entity@, T::type_tag()), component.as_cell()),
            final(self).component::<T>(entity@) == Some(component),
            final(self).entities_with(T::type_tag()) == old(self).entities_with(
                T::type_tag(),
            ).insert(entity@),
            forall|tag: TypeId|
                final(self).listing(tag) == if tag == T::type_tag() && !old(self)@.contains_key(
                    (entity@, tag),
                ) {
                    old(self).listing(tag).push(entity@)
                } else {
                    old(self).listing(tag)
                },
    {
        let tag = T::tag();
        let cell = component.into_cell();
        proof {
            T::lemma_as_cell(component);
        }
        let ghost slots = self.entities@;
        let ghost columns = self.components@;
        match self.find(&entity, tag) {
            Some(i) => {
                let slot = Slot { entity, tag, cell };
                proof {
                    lemma_slots_update(slots, i as int, slot);
                }
                self.entities[i] = slot;
            },
            None => {
                match self.find_column(tag) {
                    Some(c) => {
                        self.components[c].members.insert(entity.clone());
                        proof {
                            lemma_columns_update(columns, c as int, self.components@[c as int]);
                        }
                    },
                    None => {
                        let mut members = EntitySet::new();
                        members.insert(entity.clone());
                        let column = Column { tag, members };
                        proof {
                            lemma_columns_push(columns, column);
                        }
                        self.components.push(column);
                    },
                }
                let slot = Slot { entity, tag, cell };
                proof {
                    lemma_slots_push(slots, slot);
                }
                self.entities.push(slot);
            },
        }
    }

    /// The component of type `T` that `entity` has. There is none exactly when
    /// the store has no slot for the pair.
    pub fn get_component<T: Anyable<C>>(&self, entity: &String) -> (found: Option<&T>)
        requires
            self.wf(),
        ensures
            found.is_some() == self@.contains_key((entity@, T::type_tag())),
            match found {
                Some(component) => self.component::<T>(entity@) == Some(*component),
                None => self.component::<T>(entity@).is_none(),
            },
    {
        let tag = T::tag();
        match self.find(entity, tag) {
            Some(i) => {
                proof {
                    T::lemma_from_cell(self.entities@[i as int].cell);
                }
                T::downcast_ref(&self.entities[i].cell)
            },
            None => None,
        }
    }

    /// The component of type `T` that `entity` has, to be changed in place.
    /// Whatever is written through the reference is what the store holds
    /// afterwards; nothing else changes.
    pub fn get_component_mut<T: Anyable<C>>(&mut self, entity: &String) -> (found: Option<&mut T>)
        requires
            old(self).wf(),
        ensures
            final(self).wf(),
            found.is_some() == old(self)@.contains_key((entity@, T::type_tag())),
            match found {
                Some(component) => old(self).component::<T>(entity@) == Some(*component)
                    && final(self)@ == old(self)@.insert(
                    (entity@, T::type_tag()),
                    (*final(component)).as_cell(),
                ),
                None => final(self)@ == old(self)@,
            },
            forall|tag: TypeId| final(self).listing(tag) == old(self).listing(tag),
    {
        let tag = T::tag();
        let ghost slots = self.entities@;
        match self.find(entity, tag) {
            Some(i) => {
                proof {
                    T::lemma_from_cell(slots[i as int].cell);
                }
                let slot = &mut self.entities[i];
                match T::downcast_mut(&mut slot.cell) {
                    Some(component) => {
                        proof {
                            T::lemma_as_cell(*final(component));
                            let after = Slot {
                                entity: slots[i as int].entity,
                                tag: slots[i as int].tag,
                                cell: (*final(component)).as_cell(),
                            };
                            lemma_slots_update(slots, i as int, after);
                        }
                        Some(component)
                    },
                    None => None,
                }
            },
            None => None,
        }
    }

    /// Takes from `entity` its component of type `T`, if it has one.
    pub fn remove_component<T: Anyable<C>>(&mut self, entity: &String)
        requires
            old(self).wf(),
        ensures
            final(self).wf(),
            final(self)@ == old(self)@.remove((entity@, T::type_tag())),
            final(self).component::<T>(entity@).is_none(),
            final(self).entities_with(T::type_tag()) == old(self).entities_with(
                T::type_tag(),
            ).remove(entity@),
            forall|tag: TypeId|
                final(self).listing(tag) == if tag == T::type_tag() && old(self)@.contains_key(
                    (entity@, tag),
                ) {
                    old(self).listing(tag).remove(old(self).listing(tag).index_of(entity@))
                } else {
                    old(self).listing(tag)
                },
    {
        let tag = T::tag();
        let ghost slots = self.entities@;
        let ghost columns = self.components@;
        match self.find(entity, tag) {
            Some(i) => {
                proof {
                    lemma_slots_remove(slots, i as int);
                    assert(has_slot(slots, (entity@, tag)));
                }
                self.entities.remove(i);
                match self.find_column(tag) {
                    Some(c) => {
                        self.components[c].members.remove(entity);
                        proof {
                            lemma_columns_update(columns, c as int, self.components@[c as int]);
                        }
                    },
                    None => {},
                }
            },
            None => {},
        }
    }

    /// The entities that have a component of type `T`, each once, in the
    /// store's order. None where the store knows nothing of `T`.
    pub fn get_entities_by_component<T: Anyable<C>>(&self) -> (found: Vec<&String>)
        requires
            self.wf(),
        ensures
            found@.map_values(|entity: &String| entity@) == self.listing(T::type_tag()),
    {
        let tag = T::tag();
        let mut found: Vec<&String> = Vec::new();
        match self.find_column(tag) {
            Some(c) => {
                let keys = self.components[c].members.keys();
                let mut i: usize = 0;
                while i < keys.len()
                    invariant
                        i <= keys@.len(),
                        found@.map_values(|entity: &String| entity@) == key_views(keys@.take(i as int)),
                    decreases keys@.len() - i,
                {
                    let ghost before = found@;
                    found.push(&keys[i]);
                    proof {
                        assert(found@.map_values(|entity: &String| entity@) =~= before.map_values(
                            |entity: &String| entity@,
                        ).push(keys@[i as int]@));
                    }
                    i += 1;
                }
            },
            None => {},
        }
        found
    }

    /// The components of type `T`, one for each entity that has one, in the
    /// order of the listing. None where no entity has one.
    pub fn get_components<T: Anyable<C>>(&self) -> (found: Option<Vec<&T>>)
        requires
            self.wf(),
        ensures
            found.is_some() == (self.listing(T::type_tag()).len() > 0),
            found matches Some(components) ==> {
                &&& components@.len() == self.listing(T::type_tag()).len()
                &&& forall|i: int|
                    0 <= i < components@.len() ==> self.component::<T>(
                        self.listing(T::type_tag())[i],
                    ) == Some(*#[trigger] components@[i])
            },
    {
        let entities = self.get_entities_by_component::<T>();
        if entities.len() == 0 {
            return None;
        }
        let ghost listing = self.listing(T::type_tag());
        let mut components: Vec<&T> = Vec::new();
        let mut i: usize = 0;
        while i < entities.len()
            invariant
                self.wf(),
                i <= entities@.len(),
                listing == self.listing(T::type_tag()),
                entities@.map_values(|entity: &String| entity@) == listing,
                components@.len() == i,
                forall|j: int|
                    0 <= j < i ==> self.component::<T>(listing[j]) == Some(
                        *#[trigger] components@[j],
                    ),
            decreases entities@.len() - i,
        {
            proof {
                self.lemma_listing(T::type_tag());
                assert(listing.to_set().contains(listing[i as int]));
            }
            match self.get_component::<T>(entities[i]) {
                Some(component) => {
                    components.push(component);
                },
                None => unreached(),
            }
            i += 1;
        }
        Some(components)
    }

    /// `order` names columns, the smaller sets first.
    spec fn ascending(&self, order: Seq<usize>) -> bool {
        &&& forall|p: int| 0 <= p < order.len() ==> (#[trigger] order[p]) < self.components@.len()
        &&& forall|p: int, q: int|
            0 <= p < q < order.len() ==> self.components@[(#[trigger] order[p]) as int].members@.len()
                <= self.components@[(#[trigger] order[q]) as int].members@.len()
    }

    /// `order` names the column of `tag`.
    spec fn picked(&self, order: Seq<usize>, tag: TypeId) -> bool {
        exists|p: int|
            0 <= p < order.len() && (#[trigger] order[p]) < self.components@.len()
                && self.components@[order[p] as int].tag == tag
    }

    /// Puts column `c` into `order` behind the columns that are no larger.
    fn insert_by_size(&self, order: &mut Vec<usize>, c: usize)
        requires
            self.wf(),
            c < self.components@.len(),
            self.ascending(old(order)@),
        ensures
            self.ascending(final(order)@),
            exists|p: int| 0 <= p <= old(order)@.len() && final(order)@ == old(order)@.insert(p, c),
    {
        let size = self.components[c].members.len();
        let mut p: usize = 0;
        while p < order.len() && self.components[order[p]].members.len() <= size
            invariant
                self.wf(),
                self.ascending(order@),
                p <= order@.len(),
                size == self.components@[c as int].members@.len(),
                forall|q: int|
                    0 <= q < p ==> self.components@[(#[trigger] order@[q]) as int].members@.len()
                        <= size,
            decreases order@.len() - p,
        {
            p += 1;
        }
        order.insert(p, c);
    }

    /// The entities that have a component of each of the types that
    /// `components` names. The sets are taken in the order of their sizes,
    /// the smallest first. Where `components` is empty, or names a type of
    /// which the store has no component, the result is empty.
    pub fn get_entities_by_components(&self, components: &Vec<TypeId>) -> (found: EntitySet)
        requires
            self.wf(),
        ensures
            found.wf(),
            found@ == self.entities_with_all(components@),
    {
        let mut order: Vec<usize> = Vec::new();
        let mut k: usize = 0;
        while k < components.len()
            invariant
                self.wf(),
                k <= components@.len(),
                self.ascending(order@),
                order@.len() == k,
                forall|j: int| 0 <= j < k ==> self.picked(order@, #[trigger] components@[j]),
                forall|p: int|
                    0 <= p < order@.len() ==> exists|j: int|
                        0 <= j < k && #[trigger] components@[j] == self.components@[(
                        #[trigger] order@[p]) as int].tag,
            decreases components@.len() - k,
        {
            match self.find_column(components[k]) {
                None => {
                    return EntitySet::new();
                },
                Some(c) => {
                    let ghost before = order@;
                    self.insert_by_size(&mut order, c);
                    proof {
                        let at = choose|at: int|
                            0 <= at <= before.len() && order@ == before.insert(at, c);
                        assert forall|j: int| 0 <= j < k + 1 implies self.picked(
                            order@,
                            #[trigger] components@[j],
                        ) by {
                            if j < k {
                                let p = choose|p: int|
                                    0 <= p < before.len() && (#[trigger] before[p])
                                        < self.components@.len()
                                        && self.components@[before[p] as int].tag == components@[j];
                                let p1 = if p < at { p } else { p + 1 };
                                assert(order@[p1] == before[p]);
                            } else {
                                assert(order@[at] == c);
                            }
                        }
                    }
                },
            }
            k += 1;
        }
        if order.len() == 0 {
            return EntitySet::new();
        }
        let mut found = self.components[order[0]].members.duplicate();
        let mut p: usize = 1;
        while p < order.len()
            invariant
                self.wf(),
                self.ascending(order@),
                found.wf(),
                1 <= p <= order@.len(),
                forall|entity: Seq<char>|
                    found@.contains(entity) <==> forall|q: int|
                        0 <= q < p ==> self.components@[(#[trigger] order@[q]) as int].members@.contains(
                            entity,
                        ),
            decreases order@.len() - p,
        {
            found = found.intersection(&self.components[order[p]].members);
            p += 1;
        }
        found
    }
}

impl<C: Erased> Default for EntityRegistry<C> {
    /// A store without components.
    fn default() -> (store: Self)
        ensures
            store.wf(),
            store@ == Map::<(Seq<char>, TypeId), C>::empty(),
    {
        EntityRegistry::new()
    }
}

impl<C: Erased + 'static> EntityRegistry<C> {
    /// Carries out `edits` on the component of `entity` with this tag, in
    /// their order and each once, and says how many were carried out. An
    /// edit that fails ends it: the component stays as the edits before it
    /// left it. Where `entity` has no such component, nothing is carried out.
    pub fn apply_edits(&mut self, entity: &String, tag: TypeId, edits: &Vec<Edit<C>>) -> (outcome:
        Result<usize, CommitError>)
        requires
            old(self).wf(),
        ensures
            final(self).wf(),
            committed(old(self)@, final(self)@, (entity@, tag), edits@, outcome),
            forall|other: TypeId| final(self).listing(other) == old(self).listing(other),
    {
        let ghost slots = self.entities@;
        let ghost key = (entity@, tag);
        match self.find(entity, tag) {
            None => Ok(0),
            Some(i) => {
                let mut count: usize = 0;
                while count < edits.len()
                    invariant
                        old(self).wf(),
                        key == (entity@, tag),
                        slots == old(self).entities@,
                        slots_distinct(slots),
                        count <= edits@.len(),
                        i < slots.len(),
                        slot_key(slots[i as int]) == key,
                        slots[i as int].cell.held() == tag,
                        self.entities@.len() == slots.len(),
                        self.components == old(self).components,
                        forall|j: int|
                            0 <= j < slots.len() && j != i ==> self.entities@[j] == slots[j],
                        slot_key(self.entities@[i as int]) == key,
                        self.entities@[i as int].cell.held() == tag,
                        applied(
                            edits@,
                            slots[i as int].cell,
                            self.entities@[i as int].cell,
                            count as nat,
                        ),
                    decreases edits@.len() - count,
                {
                    let ghost between = self.entities@[i as int].cell;
                    let done = edits[count].apply(&mut self.entities[i].cell);
                    if !done {
                        proof {
                            lemma_slots_update(slots, i as int, self.entities@[i as int]);
                            assert(self.entities@ =~= slots.update(
                                i as int,
                                self.entities@[i as int],
                            ));
                        }
                        return Err(CommitError { applied: count });
                    }
                    proof {
                        lemma_applied_next(
                            edits@,
                            slots[i as int].cell,
                            between,
                            self.entities@[i as int].cell,
                            count as nat,
                        );
                    }
                    count += 1;
                }
                proof {
                    lemma_slots_update(slots, i as int, self.entities@[i as int]);
                    assert(self.entities@ =~= slots.update(i as int, self.entities@[i as int]));
                }
                Ok(count)
            },
        }
    }
}

} // verus!
