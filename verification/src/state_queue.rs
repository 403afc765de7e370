//! Deferred edits: requests to change a component, kept in the order in
//! which they came and carried out later, all at once, for one component at
//! a time.

use crate::traits::same_tag;
use crate::traits::Anyable;
use crate::traits::Erased;
use std::any::TypeId;
use std::marker::PhantomData;
use vstd::prelude::*;

verus! {

/// An edit behind a box.
trait Mutation<C: Erased>: Send {
    /// `after` is what the edit may make of the cell `before`: another cell,
    /// or nothing where the edit fails.
    spec fn yields(&self, before: C, after: Option<C>) -> bool;

    /// Carries the edit out on `target` and says whether it succeeded. An
    /// edit that fails leaves `target` as it was.
    fn apply(&self, target: &mut C) -> (done: bool)
        ensures
            self.yields(
                *old(target),
                if done {
                    Some(*final(target))
                } else {
                    None
                },
            ),
            !done ==> *final(target) == *old(target),
            final(target).held() == old(target).held(),
    ;
}

/// What the function `edit` may make of a cell when it is used as an edit of
/// components of type `T`. From a cell that holds a `T` it makes the cell of
/// a value that `edit` may return; it fails where `edit` may return nothing,
/// and on a cell that holds no `T`.
pub open spec fn edit_yields<C: Erased, T: Anyable<C>, F: Fn(&T) -> Option<T>>(
    edit: F,
    before: C,
    after: Option<C>,
) -> bool {
    match T::from_cell(before) {
        Some(value) => match after {
            Some(cell) => exists|changed: T|
                call_ensures(edit, (&value,), Some(changed)) && cell == changed.as_cell(),
            None => call_ensures(edit, (&value,), None),
        },
        None => after.is_none(),
    }
}

/// A function on components of type `T`, to be used on cells.
#[verifier::reject_recursive_types(C)]
#[verifier::reject_recursive_types(T)]
#[verifier::reject_recursive_types(F)]
struct TypedEdit<C, T, F: Fn(&T) -> Option<T>> {
    edit: F,
    marker: PhantomData<(C, T)>,
}

impl<C, T, F: Fn(&T) -> Option<T>> TypedEdit<C, T, F> {
    /// The function takes every component of its type.
    #[verifier::type_invariant]
    spec fn total(self) -> bool {
        forall|value: T| call_requires(self.edit, (&value,))
    }
}

impl<C: Erased + Send, T: Anyable<C> + Send, F: Fn(&T) -> Option<T> + Send> Mutation<C> for TypedEdit<
    C,
    T,
    F,
> {
    closed spec fn yields(&self, before: C, after: Option<C>) -> bool {
        edit_yields::<C, T, F>(self.edit, before, after)
    }

    fn apply(&self, target: &mut C) -> (done: bool) {
        proof {
            use_type_invariant(self);
        }
        match T::downcast_mut(target) {
            Some(value) => {
                match (self.edit)(&*value) {
                    Some(changed) => {
                        proof {
                            T::lemma_as_cell(changed);
                            T::lemma_from_cell(*old(target));
                        }
                        *value = changed;
                        true
                    },
                    None => {
                        proof {
                            T::lemma_from_cell(*old(target));
                        }
                        false
                    },
                }
            },
            None => false,
        }
    }
}

/// One staged edit.
#[verifier::reject_recursive_types(C)]
pub struct Edit<C: Erased + 'static> {
    edit: Box<dyn Mutation<C>>,
}

impl<C: Erased + 'static> Edit<C> {
    /// `after` is what the edit may make of the cell `before`: another cell,
    /// or nothing where the edit fails.
    pub closed spec fn yields(&self, before: C, after: Option<C>) -> bool {
        self.edit.yields(before, after)
    }

    /// The edit of components of type `T` that `edit` describes.
    fn typed<T, F>(edit: F) -> (staged: Self) where
        C: Send,
        T: Anyable<C> + Send + 'static,
        F: Fn(&T) -> Option<T> + Send + 'static,

        requires
            forall|value: T| call_requires(edit, (&value,)),
        ensures
            forall|before: C, after: Option<C>|
                staged.yields(before, after) <==> edit_yields::<C, T, F>(edit, before, after),
    {
        let typed: TypedEdit<C, T, F> = TypedEdit { edit, marker: PhantomData };
        Edit { edit: Box::new(typed) }
    }

    /// Carries the edit out on `target` and says whether it succeeded. An
    /// edit that fails leaves `target` as it was, and no edit changes the
    /// type of what the cell holds.
    pub fn apply(&self, target: &mut C) -> (done: bool)
        ensures
            self.yields(
                *old(target),
                if done {
                    Some(*final(target))
                } else {
                    None
                },
            ),
            !done ==> *final(target) == *old(target),
            final(target).held() == old(target).held(),
    {
        self.edit.apply(target)
    }
}

/// The first `count` of `edits` can be carried out one after the other, in
/// their order and each once, and lead from `before` to `after`.
pub open spec fn applied<C: Erased + 'static>(
    edits: Seq<Edit<C>>,
    before: C,
    after: C,
    count: nat,
) -> bool
    decreases count,
{
    if count == 0 {
        after == before
    } else {
        &&& count <= edits.len()
        &&& exists|between: C|
            applied(edits, before, between, (count - 1) as nat) && (
            #[trigger] edits[count - 1].yields(between, Some(after)))
    }
}

/// Where the first `count` edits lead to `between` and the next one makes
/// `after` of it, the first `count + 1` edits lead to `after`.
pub proof fn lemma_applied_next<C: Erased + 'static>(
    edits: Seq<Edit<C>>,
    before: C,
    between: C,
    after: C,
    count: nat,
)
    requires
        count < edits.len(),
        applied(edits, before, between, count),
        edits[count as int].yields(between, Some(after)),
    ensures
        applied(edits, before, after, count + 1),
{
    assert(edits[count + 1 - 1].yields(between, Some(after)));
}

/// What a batch does is the same whatever is staged behind it.
pub proof fn lemma_applied_prefix<C: Erased + 'static>(
    edits: Seq<Edit<C>>,
    later: Seq<Edit<C>>,
    before: C,
    after: C,
    count: nat,
)
    requires
        count <= edits.len(),
    ensures
        applied(edits + later, before, after, count) == applied(edits, before, after, count),
    decreases count,
{
    if count > 0 {
        assert((edits + later)[count - 1] == edits[count - 1]);
        let prior = (count - 1) as nat;
        assert forall|between: C|
            #[trigger] applied(edits + later, before, between, prior) == applied(
                edits,
                before,
                between,
                prior,
            ) by {
            lemma_applied_prefix(edits, later, before, between, prior);
        }
        if applied(edits + later, before, after, count) {
            let between = choose|between: C|
                applied(edits + later, before, between, (count - 1) as nat) && (#[trigger] (edits
                    + later)[count - 1].yields(between, Some(after)));
            assert(applied(edits, before, between, prior));
        }
        if applied(edits, before, after, count) {
            let between = choose|between: C|
                applied(edits, before, between, (count - 1) as nat) && (
                #[trigger] edits[count - 1].yields(between, Some(after)));
            assert(applied(edits + later, before, between, (count - 1) as nat));
        }
    }
}

/// Two batches committed one after the other do what the two would do as
/// one batch: the edits of the second start from what the first left.
pub proof fn lemma_applied_concat<C: Erased + 'static>(
    first: Seq<Edit<C>>,
    second: Seq<Edit<C>>,
    before: C,
    after: C,
    count: nat,
)
    requires
        count <= second.len(),
    ensures
        applied(first + second, before, after, first.len() + count) <==> exists|between: C|
            applied(first, before, between, first.len()) && #[trigger] applied(
                second,
                between,
                after,
                count,
            ),
    decreases count,
{
    let all = first + second;
    if count == 0 {
        lemma_applied_prefix(first, second, before, after, first.len());
        if applied(all, before, after, first.len()) {
            assert(applied(first, before, after, first.len()) && applied(second, after, after, 0));
        }
    } else {
        let total = first.len() + count;
        assert(all[total - 1] == second[count - 1]);
        let prior = (count - 1) as nat;
        assert forall|middle: C|
            #[trigger] applied(all, before, middle, (first.len() + prior) as nat) <==> exists|
                between: C,
            |
                applied(first, before, between, first.len()) && #[trigger] applied(
                    second,
                    between,
                    middle,
                    prior,
                ) by {
            lemma_applied_concat(first, second, before, middle, prior);
        }
        if applied(all, before, after, total) {
            let middle = choose|middle: C|
                applied(all, before, middle, (total - 1) as nat) && (#[trigger] all[total
                    - 1].yields(middle, Some(after)));
            let between = choose|between: C|
                applied(first, before, between, first.len()) && #[trigger] applied(
                    second,
                    between,
                    middle,
                    (count - 1) as nat,
                );
            assert(applied(second, between, after, count));
        }
        if exists|between: C|
            applied(first, before, between, first.len()) && #[trigger] applied(
                second,
                between,
                after,
                count,
            ) {
            let between = choose|between: C|
                applied(first, before, between, first.len()) && #[trigger] applied(
                    second,
                    between,
                    after,
                    count,
                );
            let middle = choose|middle: C|
                applied(second, between, middle, (count - 1) as nat) && (#[trigger] second[count
                    - 1].yields(middle, Some(after)));
            assert(applied(all, before, middle, (total - 1) as nat));
        }
    }
}

/// Why a commit stopped early: the edit after the first `applied` ones
/// failed. The component is as those left it, and the edits behind the one
/// that failed are dropped with it.
#[derive(Debug, Clone, Copy, PartialEq, Eq, Structural)]
pub struct CommitError {
    pub applied: usize,
}

/// What a commit of `edits` to the component under `key` makes of a store
/// and says of it. Where the store has no such component, nothing changes
/// and nothing is carried out. Else the edits are carried out in their
/// order, each once, up to the first that fails, and nothing but that
/// component changes.
pub open spec fn committed<C: Erased + 'static>(
    before: Map<(Seq<char>, TypeId), C>,
    after: Map<(Seq<char>, TypeId), C>,
    key: (Seq<char>, TypeId),
    edits: Seq<Edit<C>>,
    outcome: Result<usize, CommitError>,
) -> bool {
    if before.contains_key(key) {
        &&& after.contains_key(key)
        &&& after == before.insert(key, after[key])
        &&& match outcome {
            Ok(count) => count == edits.len() && applied(
                edits,
                before[key],
                after[key],
                count as nat,
            ),
            Err(error) => error.applied < edits.len() && applied(
                edits,
                before[key],
                after[key],
                error.applied as nat,
            ) && edits[error.applied as int].yields(after[key], None),
        }
    } else {
        after == before && outcome == Ok::<usize, CommitError>(0)
    }
}

/// The edits staged for one component.
#[verifier::reject_recursive_types(C)]
struct Pending<C: Erased + 'static> {
    entity: String,
    tag: TypeId,
    edits: Vec<Edit<C>>,
}

/// The key of a queue: the entity and the tag.
spec fn pending_key<C: Erased + 'static>(pending: Pending<C>) -> (Seq<char>, TypeId) {
    (pending.entity@, pending.tag)
}

/// Some queue has this key.
spec fn has_pending<C: Erased + 'static>(queues: Seq<Pending<C>>, key: (Seq<char>, TypeId)) -> bool {
    exists|q: int| 0 <= q < queues.len() && pending_key(#[trigger] queues[q]) == key
}

/// Where the queue with this key stands.
spec fn pending_at<C: Erased + 'static>(queues: Seq<Pending<C>>, key: (Seq<char>, TypeId)) -> int {
    choose|q: int| 0 <= q < queues.len() && pending_key(#[trigger] queues[q]) == key
}

/// No two queues have the same key.
spec fn pending_distinct<C: Erased + 'static>(queues: Seq<Pending<C>>) -> bool {
    forall|q: int, r: int|
        0 <= q < r < queues.len() ==> pending_key(#[trigger] queues[q]) != pending_key(
            #[trigger] queues[r],
        )
}

/// The edits staged under `key`, oldest first.
spec fn staged_of<C: Erased + 'static>(queues: Seq<Pending<C>>, key: (Seq<char>, TypeId)) -> Seq<
    Edit<C>,
> {
    if has_pending(queues, key) {
        queues[pending_at(queues, key)].edits@
    } else {
        Seq::empty()
    }
}

/// In a duplicate-free sequence of queues the queue at `q` is the one that
/// its key finds.
proof fn lemma_pending_found<C: Erased + 'static>(queues: Seq<Pending<C>>, q: int)
    requires
        pending_distinct(queues),
        0 <= q < queues.len(),
    ensures
        has_pending(queues, pending_key(queues[q])),
        pending_at(queues, pending_key(queues[q])) == q,
        staged_of(queues, pending_key(queues[q])) == queues[q].edits@,
{
}

/// A queue that gets another list keeps its key, and no other queue changes.
proof fn lemma_pending_update<C: Erased + 'static>(
    queues: Seq<Pending<C>>,
    q: int,
    pending: Pending<C>,
)
    requires
        pending_distinct(queues),
        0 <= q < queues.len(),
        pending_key(pending) == pending_key(queues[q]),
    ensures
        pending_distinct(queues.update(q, pending)),
        forall|key: (Seq<char>, TypeId)|
            staged_of(queues.update(q, pending), key) == if key == pending_key(pending) {
                pending.edits@
            } else {
                staged_of(queues, key)
            },
{
    let after = queues.update(q, pending);
    assert forall|key: (Seq<char>, TypeId)|
        staged_of(after, key) == if key == pending_key(pending) {
            pending.edits@
        } else {
            staged_of(queues, key)
        } by {
        if !has_pending(after, key) && has_pending(queues, key) {
            let a = pending_at(queues, key);
            assert(pending_key(after[a]) == key);
        }
    }
}

/// A new queue under a key that had none adds that key and changes no other.
proof fn lemma_pending_push<C: Erased + 'static>(queues: Seq<Pending<C>>, pending: Pending<C>)
    requires
        pending_distinct(queues),
        !has_pending(queues, pending_key(pending)),
    ensures
        pending_distinct(queues.push(pending)),
        forall|key: (Seq<char>, TypeId)|
            staged_of(queues.push(pending), key) == if key == pending_key(pending) {
                pending.edits@
            } else {
                staged_of(queues, key)
            },
{
    let after = queues.push(pending);
    assert forall|key: (Seq<char>, TypeId)|
        staged_of(after, key) == if key == pending_key(pending) {
            pending.edits@
        } else {
            staged_of(queues, key)
        } by {
        if key == pending_key(pending) {
            lemma_pending_found(after, queues.len() as int);
        } else if has_pending(queues, key) {
            let a = pending_at(queues, key);
            assert(pending_key(after[a]) == key);
        }
    }
}

/// A queue that leaves takes its edits with it, and no other queue changes.
proof fn lemma_pending_remove<C: Erased + 'static>(queues: Seq<Pending<C>>, q: int)
    requires
        pending_distinct(queues),
        0 <= q < queues.len(),
    ensures
        pending_distinct(queues.remove(q)),
        forall|key: (Seq<char>, TypeId)|
            staged_of(queues.remove(q), key) == if key == pending_key(queues[q]) {
                Seq::empty()
            } else {
                staged_of(queues, key)
            },
{
    let after = queues.remove(q);
    let gone = pending_key(queues[q]);
    assert forall|key: (Seq<char>, TypeId)|
        staged_of(after, key) == if key == gone {
            Seq::empty()
        } else {
            staged_of(queues, key)
        } by {
        if !has_pending(after, key) && key != gone && has_pending(queues, key) {
            let a0 = pending_at(queues, key);
            let a = if a0 < q { a0 } else { a0 - 1 };
            assert(pending_key(after[a]) == key);
        }
    }
}

/// The staged edits of a store, by component.
#[verifier::reject_recursive_types(C)]
pub struct StateQueue<C: Erased + 'static> {
    queues: Vec<Pending<C>>,
}

impl<C: Erased + 'static> StateQueue<C> {
    /// Each component has its edits in one list.
    pub closed spec fn wf(&self) -> bool {
        pending_distinct(self.queues@)
    }

    /// The edits staged for the component of `entity` with this tag, oldest
    /// first.
    pub closed spec fn staged(&self, entity: Seq<char>, tag: TypeId) -> Seq<Edit<C>> {
        staged_of(self.queues@, (entity, tag))
    }

    pub fn new() -> (queue: Self)
        ensures
            queue.wf(),
            forall|entity: Seq<char>, tag: TypeId|
                queue.staged(entity, tag) == Seq::<Edit<C>>::empty(),
    {
        StateQueue { queues: Vec::new() }
    }

    /// Where the queue of `entity` and `tag` stands, if there is one.
    fn find(&self, entity: &String, tag: TypeId) -> (at: Option<usize>)
        ensures
            match at {
                Some(q) => q < self.queues@.len() && pending_key(self.queues@[q as int]) == (
                    entity@,
                    tag,
                ),
                None => !has_pending(self.queues@, (entity@, tag)),
            },
    {
        let mut q: usize = 0;
        while q < self.queues.len()
            invariant
                q <= self.queues@.len(),
                forall|r: int|
                    0 <= r < q ==> pending_key(#[trigger] self.queues@[r]) != (entity@, tag),
            decreases self.queues@.len() - q,
        {
            if same_tag(self.queues[q].tag, tag) && self.queues[q].entity == *entity {
                return Some(q);
            }
            q += 1;
        }
        None
    }

    /// Stages `edit` for the component of type `T` of `entity`, behind the
    /// edits that are staged for it already. The component is not touched.
    pub fn stage<T, F>(&mut self, entity: String, edit: F) where
        C: Send,
        T: Anyable<C> + Send + 'static,
        F: Fn(&T) -> Option<T> + Send + 'static,

        requires
            old(self).wf(),
            forall|value: T| call_requires(edit, (&value,)),
        ensures
            final(self).wf(),
            final(self).staged(entity@, T::type_tag()).len() == old(self).staged(
                entity@,
                T::type_tag(),
            ).len() + 1,
            final(self).staged(entity@, T::type_tag()).drop_last() == old(self).staged(
                entity@,
                T::type_tag(),
            ),
            forall|before: C, after: Option<C>|
                final(self).staged(entity@, T::type_tag()).last().yields(before, after)
                    <==> edit_yields::<C, T, F>(edit, before, after),
            forall|other: Seq<char>, tag: TypeId|
                (other, tag) != (entity@, T::type_tag()) ==> final(self).staged(other, tag) == old(
                    self,
                ).staged(other, tag),
    {
        let tag = T::tag();
        let staged = Edit::typed::<T, F>(edit);
        let ghost queues = self.queues@;
        match self.find(&entity, tag) {
            Some(q) => {
                self.queues[q].edits.push(staged);
                proof {
                    lemma_pending_update(queues, q as int, self.queues@[q as int]);
                }
            },
            None => {
                let mut edits: Vec<Edit<C>> = Vec::new();
                edits.push(staged);
                let pending = Pending { entity, tag, edits };
                proof {
                    lemma_pending_push(queues, pending);
                }
                self.queues.push(pending);
            },
        }
    }

    /// Takes out the edits staged for the component of `entity` with this
    /// tag, oldest first. What is staged for it afterwards goes into the
    /// next batch.
    pub fn take(&mut self, entity: &String, tag: TypeId) -> (batch: Vec<Edit<C>>)
        requires
            old(self).wf(),
        ensures
            final(self).wf(),
            batch@ == old(self).staged(entity@, tag),
            final(self).staged(entity@, tag) == Seq::<Edit<C>>::empty(),
            forall|other: Seq<char>, other_tag: TypeId|
                (other, other_tag) != (entity@, tag) ==> final(self).staged(other, other_tag)
                    == old(self).staged(other, other_tag),
    {
        let ghost queues = self.queues@;
        match self.find(entity, tag) {
            Some(q) => {
                proof {
                    lemma_pending_remove(queues, q as int);
                }
                let pending = self.queues.remove(q);
                pending.edits
            },
            None => Vec::new(),
        }
    }
}

impl<C: Erased + 'static> StateQueue<C> {
    /// Carries out on the component of `entity` with this tag, in `store`,
    /// the edits that are staged for it, oldest first and each once. The
    /// batch is taken out before the first edit runs. An edit that fails
    /// ends the commit: the component stays as the edits before it left it,
    /// and the rest of the batch is dropped.
    pub fn commit(
        &mut self,
        store: &mut crate::registry::entity_registry::EntityRegistry<C>,
        entity: &String,
        tag: TypeId,
    ) -> (outcome: Result<usize, CommitError>)
        requires
            old(self).wf(),
            old(store).wf(),
        ensures
            final(self).wf(),
            final(store).wf(),
            committed(
                old(store)@,
                final(store)@,
                (entity@, tag),
                old(self).staged(entity@, tag),
                outcome,
            ),
            final(self).staged(entity@, tag) == Seq::<Edit<C>>::empty(),
            forall|other: Seq<char>, other_tag: TypeId|
                (other, other_tag) != (entity@, tag) ==> final(self).staged(other, other_tag)
                    == old(self).staged(other, other_tag),
    {
        let batch = self.take(entity, tag);
        store.apply_edits(entity, tag, &batch)
    }
}

} // verus!
