//! The event bus: subscribers by the type of event they wait for, called in
//! the order in which they subscribed.

use crate::traits::same_tag;
use crate::traits::Anyable;
use crate::traits::Erased;
use std::any::TypeId;
use std::marker::PhantomData;
use vstd::prelude::*;

verus! {

/// A callback behind a box: it waits for events of one type and answers
/// each of them.
pub trait Handler<C: Erased, R> {
    /// The tag of the type of event that the handler waits for.
    spec fn expects(&self) -> TypeId;

    /// `answer` is something the handler may say to `event`.
    spec fn answers(&self, event: C, answer: R) -> bool;

    /// Hands `event` to the callback if it is of the type the handler waits
    /// for, and gives back what the callback said. An event of another type
    /// is dropped.
    fn notify(&self, event: &C) -> (answer: Option<R>)
        ensures
            answer.is_some() == (event.held() == self.expects()),
            answer matches Some(said) ==> self.answers(*event, said),
    ;
}

/// A callback for events of type `E`, to be called with events in cells.
#[verifier::reject_recursive_types(C)]
#[verifier::reject_recursive_types(E)]
#[verifier::reject_recursive_types(R)]
#[verifier::reject_recursive_types(F)]
struct Subscriber<C, E, R, F: Fn(&E) -> R> {
    callback: F,
    marker: PhantomData<(C, E, R)>,
}

impl<C, E, R, F: Fn(&E) -> R> Subscriber<C, E, R, F> {
    /// The callback takes every event of its type.
    #[verifier::type_invariant]
    spec fn total(self) -> bool {
        forall|event: E| call_requires(self.callback, (&event,))
    }
}

impl<C: Erased, E: Anyable<C>, R, F: Fn(&E) -> R> Handler<C, R> for Subscriber<C, E, R, F> {
    open spec fn expects(&self) -> TypeId {
        E::type_tag()
    }

    closed spec fn answers(&self, event: C, answer: R) -> bool {
        E::from_cell(event) matches Some(typed) && call_ensures(self.callback, (&typed,), answer)
    }

    fn notify(&self, event: &C) -> (answer: Option<R>) {
        proof {
            use_type_invariant(self);
            E::lemma_from_cell(*event);
        }
        match E::downcast_ref(event) {
            Some(typed) => Some((self.callback)(typed)),
            None => None,
        }
    }
}

/// One subscription: the callback, and the filter that was given with it.
/// The bus keeps the filter and never reads it.
#[verifier::reject_recursive_types(C)]
#[verifier::reject_recursive_types(R)]
pub struct EventSubscriptionArgs<C: Erased + 'static, R: 'static>(
    pub Box<dyn Handler<C, R>>,
    pub Option<Vec<TypeId>>,
);

impl<C: Erased + 'static, R: 'static> EventSubscriptionArgs<C, R> {
    /// A subscription of `callback` to events of type `E`, with `filter`
    /// kept beside it.
    fn typed<E, F>(callback: F, filter: Option<Vec<TypeId>>) -> (subscription: Self) where
        E: Anyable<C> + 'static,
        F: Fn(&E) -> R + 'static,

        requires
            forall|event: E| call_requires(callback, (&event,)),
        ensures
            subscription.0.expects() == E::type_tag(),
            subscription.1 == filter,
            forall|event: C, answer: R|
                subscription.0.answers(event, answer) <==> (E::from_cell(event) matches Some(
                    typed,
                ) && call_ensures(callback, (&typed,), answer)),
    {
        let subscriber: Subscriber<C, E, R, F> = Subscriber { callback, marker: PhantomData };
        EventSubscriptionArgs(Box::new(subscriber), filter)
    }

    /// Calls the callback with `event`, if the event is of its type.
    pub fn invoke(&self, event: &C) -> (answer: Option<R>)
        ensures
            answer.is_some() == (event.held() == self.0.expects()),
            answer matches Some(said) ==> self.0.answers(*event, said),
    {
        self.0.notify(event)
    }
}

/// The subscriptions to one type of event.
#[verifier::reject_recursive_types(C)]
#[verifier::reject_recursive_types(R)]
struct Topic<C: Erased + 'static, R: 'static> {
    tag: TypeId,
    subscriptions: Vec<EventSubscriptionArgs<C, R>>,
}

/// Some topic has this tag.
spec fn has_topic<C: Erased + 'static, R: 'static>(topics: Seq<Topic<C, R>>, tag: TypeId) -> bool {
    exists|t: int| 0 <= t < topics.len() && (#[trigger] topics[t]).tag == tag
}

/// Where the topic with this tag stands.
spec fn topic_at<C: Erased + 'static, R: 'static>(topics: Seq<Topic<C, R>>, tag: TypeId) -> int {
    choose|t: int| 0 <= t < topics.len() && (#[trigger] topics[t]).tag == tag
}

/// No two topics have the same tag.
spec fn topics_distinct<C: Erased + 'static, R: 'static>(topics: Seq<Topic<C, R>>) -> bool {
    forall|t: int, u: int|
        0 <= t < u < topics.len() ==> (#[trigger] topics[t]).tag != (#[trigger] topics[u]).tag
}

/// The subscriptions under `tag`, oldest first.
spec fn subscriptions_of<C: Erased + 'static, R: 'static>(topics: Seq<Topic<C, R>>, tag: TypeId) -> Seq<
    EventSubscriptionArgs<C, R>,
> {
    if has_topic(topics, tag) {
        topics[topic_at(topics, tag)].subscriptions@
    } else {
        Seq::empty()
    }
}

/// In a duplicate-free sequence of topics the topic at `t` is the one that
/// its tag finds.
proof fn lemma_topic_found<C: Erased + 'static, R: 'static>(topics: Seq<Topic<C, R>>, t: int)
    requires
        topics_distinct(topics),
        0 <= t < topics.len(),
    ensures
        has_topic(topics, topics[t].tag),
        topic_at(topics, topics[t].tag) == t,
        subscriptions_of(topics, topics[t].tag) == topics[t].subscriptions@,
{
}

/// A topic that gets another list keeps its tag, and no other topic changes.
proof fn lemma_topics_update<C: Erased + 'static, R: 'static>(topics: Seq<Topic<C, R>>, t: int, topic: Topic<C, R>)
    requires
        topics_distinct(topics),
        0 <= t < topics.len(),
        topic.tag == topics[t].tag,
    ensures
        topics_distinct(topics.update(t, topic)),
        forall|tag: TypeId|
            subscriptions_of(topics.update(t, topic), tag) == if tag == topic.tag {
                topic.subscriptions@
            } else {
                subscriptions_of(topics, tag)
            },
{
    let after = topics.update(t, topic);
    assert forall|tag: TypeId|
        subscriptions_of(after, tag) == if tag == topic.tag {
            topic.subscriptions@
        } else {
            subscriptions_of(topics, tag)
        } by {
        if !has_topic(after, tag) && has_topic(topics, tag) {
            let a = topic_at(topics, tag);
            assert(after[a].tag == tag);
        }
    }
}

/// A new topic under a tag that had none adds that tag and changes no other.
proof fn lemma_topics_push<C: Erased + 'static, R: 'static>(topics: Seq<Topic<C, R>>, topic: Topic<C, R>)
    requires
        topics_distinct(topics),
        !has_topic(topics, topic.tag),
    ensures
        topics_distinct(topics.push(topic)),
        forall|tag: TypeId|
            subscriptions_of(topics.push(topic), tag) == if tag == topic.tag {
                topic.subscriptions@
            } else {
                subscriptions_of(topics, tag)
            },
{
    let after = topics.push(topic);
    assert forall|tag: TypeId|
        subscriptions_of(after, tag) == if tag == topic.tag {
            topic.subscriptions@
        } else {
            subscriptions_of(topics, tag)
        } by {
        if tag == topic.tag {
            lemma_topic_found(after, topics.len() as int);
        } else if has_topic(topics, tag) {
            let a = topic_at(topics, tag);
            assert(after[a].tag == tag);
        }
    }
}

/// `answers` holds what the subscriptions said to `event`, one answer for
/// each subscription and in their order.
pub open spec fn answered<C: Erased + 'static, R: 'static>(
    subscriptions: Seq<EventSubscriptionArgs<C, R>>,
    event: C,
    answers: Seq<R>,
) -> bool {
    &&& answers.len() == subscriptions.len()
    &&& forall|i: int|
        0 <= i < subscriptions.len() ==> (#[trigger] subscriptions[i]).0.answers(event, answers[i])
}

/// Where nothing has subscribed, nothing answers. A subscription that comes
/// last answers last, behind the answers of those that were there before it.
pub proof fn lemma_answered_in_order<C: Erased + 'static, R: 'static>(
    subscriptions: Seq<EventSubscriptionArgs<C, R>>,
    newest: EventSubscriptionArgs<C, R>,
    event: C,
    answers: Seq<R>,
)
    ensures
        answered(Seq::<EventSubscriptionArgs<C, R>>::empty(), event, answers) <==> answers.len()
            == 0,
        answered(subscriptions.push(newest), event, answers) <==> {
            &&& answers.len() > 0
            &&& answered(subscriptions, event, answers.drop_last())
            &&& newest.0.answers(event, answers.last())
        },
{
    let longer = subscriptions.push(newest);
    if answered(longer, event, answers) {
        assert(longer[subscriptions.len() as int] == newest);
        assert forall|i: int| 0 <= i < subscriptions.len() implies (
        #[trigger] subscriptions[i]).0.answers(event, answers.drop_last()[i]) by {
            assert(longer[i] == subscriptions[i]);
        }
    }
}

/// A subscription that is put behind others leaves their filters as they
/// were, and its own filter is found where it was put, as it was given.
pub proof fn lemma_filters_kept<C: Erased + 'static, R: 'static>(
    subscriptions: Seq<EventSubscriptionArgs<C, R>>,
    longer: Seq<EventSubscriptionArgs<C, R>>,
    filter: Option<Vec<TypeId>>,
)
    requires
        longer.len() == subscriptions.len() + 1,
        longer.drop_last() == subscriptions,
        longer.last().1 == filter,
    ensures
        longer[subscriptions.len() as int].1 == filter,
        forall|i: int| 0 <= i < subscriptions.len() ==> (#[trigger] longer[i]).1 == subscriptions[i].1,
{
}

/// The event bus.
#[verifier::reject_recursive_types(C)]
#[verifier::reject_recursive_types(R)]
pub struct EventRegistry<C: Erased + 'static, R: 'static> {
    subscribers: Vec<Topic<C, R>>,
}

impl<C: Erased + 'static, R: 'static> EventRegistry<C, R> {
    /// Each type of event has its subscriptions in one list, and each
    /// subscription waits for the type under which it is kept.
    pub closed spec fn wf(&self) -> bool {
        &&& topics_distinct(self.subscribers@)
        &&& forall|t: int|
            0 <= t < self.subscribers@.len() ==> (#[trigger] self.subscribers@[t]).subscriptions@.len()
                > 0
        &&& forall|t: int, i: int|
            0 <= t < self.subscribers@.len() && 0 <= i < self.subscribers@[t].subscriptions@.len()
                ==> (#[trigger] self.subscribers@[t].subscriptions@[i]).0.expects()
                == self.subscribers@[t].tag
    }

    /// The subscriptions to events of the type with this tag, oldest first.
    pub closed spec fn subscriptions(&self, tag: TypeId) -> Seq<EventSubscriptionArgs<C, R>> {
        subscriptions_of(self.subscribers@, tag)
    }

    /// Each subscription under a tag waits for events of that tag.
    pub proof fn lemma_subscriptions_expect(&self, tag: TypeId, i: int)
        requires
            self.wf(),
            0 <= i < self.subscriptions(tag).len(),
        ensures
            self.subscriptions(tag)[i].0.expects() == tag,
    {
        let t = topic_at(self.subscribers@, tag);
    }

    pub fn new() -> (bus: Self)
        ensures
            bus.wf(),
            forall|tag: TypeId| bus.subscriptions(tag) == Seq::<EventSubscriptionArgs<C, R>>::empty(),
    {
        EventRegistry { subscribers: Vec::new() }
    }

    /// Where the topic of `tag` stands, if there is one.
    fn find_topic(&self, tag: TypeId) -> (at: Option<usize>)
        ensures
            match at {
                Some(t) => t < self.subscribers@.len() && self.subscribers@[t as int].tag == tag,
                None => !has_topic(self.subscribers@, tag),
            },
    {
        let mut t: usize = 0;
        while t < self.subscribers.len()
            invariant
                t <= self.subscribers@.len(),
                forall|u: int| 0 <= u < t ==> (#[trigger] self.subscribers@[u]).tag != tag,
            decreases self.subscribers@.len() - t,
        {
            if same_tag(self.subscribers[t].tag, tag) {
                return Some(t);
            }
            t += 1;
        }
        None
    }

    /// Registers `callback` for events of type `E`, behind the callbacks
    /// that are registered for `E` already.
    pub fn subscribe<E>(&mut self, callback: impl Fn(&E) -> R + 'static) where
        E: Anyable<C> + 'static,

        requires
            old(self).wf(),
            forall|event: E| call_requires(callback, (&event,)),
        ensures
            final(self).wf(),
            final(self).subscriptions(E::type_tag()).len() == old(self).subscriptions(
                E::type_tag(),
            ).len() + 1,
            final(self).subscriptions(E::type_tag()).drop_last() == old(self).subscriptions(
                E::type_tag(),
            ),
            final(self).subscriptions(E::type_tag()).last().1.is_none(),
            forall|event: C, answer: R|
                final(self).subscriptions(E::type_tag()).last().0.answers(event, answer) <==> (
                E::from_cell(event) matches Some(typed) && call_ensures(
                    callback,
                    (&typed,),
                    answer,
                )),
            forall|tag: TypeId|
                tag != E::type_tag() ==> final(self).subscriptions(tag) == old(self).subscriptions(
                    tag,
                ),
    {
        self.subscribe_with_filter::<E>(callback, None);
    }

    /// Registers `callback` for events of type `E` and keeps `filter` with
    /// it. The filter has no part in which events the callback is called
    /// with.
    pub fn subscribe_with_filter<E>(
        &mut self,
        callback: impl Fn(&E) -> R + 'static,
        filter: Option<Vec<TypeId>>,
    ) where
        E: Anyable<C> + 'static,

        requires
            old(self).wf(),
            forall|event: E| call_requires(callback, (&event,)),
        ensures
            final(self).wf(),
            final(self).subscriptions(E::type_tag()).len() == old(self).subscriptions(
                E::type_tag(),
            ).len() + 1,
            final(self).subscriptions(E::type_tag()).drop_last() == old(self).subscriptions(
                E::type_tag(),
            ),
            final(self).subscriptions(E::type_tag()).last().1 == filter,
            forall|event: C, answer: R|
                final(self).subscriptions(E::type_tag()).last().0.answers(event, answer) <==> (
                E::from_cell(event) matches Some(typed) && call_ensures(
                    callback,
                    (&typed,),
                    answer,
                )),
            forall|tag: TypeId|
                tag != E::type_tag() ==> final(self).subscriptions(tag) == old(self).subscriptions(
                    tag,
                ),
    {
        let tag = E::tag();
        let subscription = EventSubscriptionArgs::typed::<E, _>(callback, filter);
        let ghost topics = self.subscribers@;
        match self.find_topic(tag) {
            Some(t) => {
                self.subscribers[t].subscriptions.push(subscription);
                proof {
                    lemma_topics_update(topics, t as int, self.subscribers@[t as int]);
                }
            },
            None => {
                let mut subscriptions: Vec<EventSubscriptionArgs<C, R>> = Vec::new();
                subscriptions.push(subscription);
                let topic = Topic { tag, subscriptions };
                proof {
                    lemma_topics_push(topics, topic);
                }
                self.subscribers.push(topic);
            },
        }
    }

    /// Hands `event` to every subscription to events of its type, in the
    /// order in which they were registered, and gives back what each of them
    /// said. No other subscription is touched.
    pub fn invoke(&self, event: C) -> (answers: Vec<R>)
        requires
            self.wf(),
        ensures
            answered(self.subscriptions(event.held()), event, answers@),
    {
        let tag = event.tag();
        let mut answers: Vec<R> = Vec::new();
        match self.find_topic(tag) {
            Some(t) => {
                let subscriptions = &self.subscribers[t].subscriptions;
                let mut i: usize = 0;
                while i < subscriptions.len()
                    invariant
                        i <= subscriptions@.len(),
                        answers@.len() == i,
                        tag == event.held(),
                        forall|j: int|
                            0 <= j < subscriptions@.len() ==> (#[trigger] subscriptions@[j]).0.expects()
                                == tag,
                        forall|j: int|
                            0 <= j < i ==> (#[trigger] subscriptions@[j]).0.answers(
                                event,
                                answers@[j],
                            ),
                    decreases subscriptions@.len() - i,
                {
                    match subscriptions[i].invoke(&event) {
                        Some(said) => {
                            answers.push(said);
                        },
                        None => {},
                    }
                    i += 1;
                }
            },
            None => {},
        }
        answers
    }

    /// Hands `event` to every subscription to events of type `E`, in the
    /// order in which they were registered, and gives back what each of them
    /// said.
    pub fn publish<E: Anyable<C>>(&self, event: E) -> (answers: Vec<R>)
        requires
            self.wf(),
        ensures
            answered(self.subscriptions(E::type_tag()), event.as_cell(), answers@),
    {
        proof {
            E::lemma_as_cell(event);
        }
        self.invoke(event.into_cell())
    }

    /// The subscriptions to events of type `E`, oldest first. None where
    /// nothing has subscribed to `E`.
    pub fn get_subscriptions<E: Anyable<C>>(&self) -> (found: Option<
        &Vec<EventSubscriptionArgs<C, R>>,
    >)
        requires
            self.wf(),
        ensures
            match found {
                Some(subscriptions) => subscriptions@ == self.subscriptions(E::type_tag())
                    && subscriptions@.len() > 0,
                None => self.subscriptions(E::type_tag()).len() == 0,
            },
    {
        match self.find_topic(E::tag()) {
            Some(t) => {
                Some(&self.subscribers[t].subscriptions)
            },
            None => None,
        }
    }
}

} // verus!
