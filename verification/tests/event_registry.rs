use isle::registry::event_registry::EventRegistry;
use isle::traits::Anyable;
use isle::traits::Erased;
use std::any::Any;
use std::any::TypeId;
use std::sync::Arc;
use std::sync::Mutex;

struct Cell(Box<dyn Any>);

// `held`, `type_tag`, `as_cell`, `from_cell` and the two lemmas are what proofs
// are stated with. Nothing that runs calls them.
impl Erased for Cell {
    fn held(&self) -> TypeId {
        unreachable!()
    }

    fn tag(&self) -> TypeId {
        (*self.0).type_id()
    }
}

struct MyEvent {}

impl Anyable<Cell> for MyEvent {
    fn type_tag() -> TypeId {
        unreachable!()
    }

    fn as_cell(self) -> Cell {
        unreachable!()
    }

    fn from_cell(_: Cell) -> Option<MyEvent> {
        unreachable!()
    }

    fn lemma_as_cell(_: MyEvent) {
        unreachable!()
    }

    fn lemma_from_cell(_: Cell) {
        unreachable!()
    }

    fn tag() -> TypeId {
        TypeId::of::<MyEvent>()
    }

    fn into_cell(self) -> Cell {
        Cell(Box::new(self))
    }

    fn downcast_ref(cell: &Cell) -> Option<&MyEvent> {
        cell.0.downcast_ref::<MyEvent>()
    }

    fn downcast_mut(cell: &mut Cell) -> Option<&mut MyEvent> {
        cell.0.downcast_mut::<MyEvent>()
    }
}

#[test]
fn test_event_registry() {
    let mut registry: EventRegistry<Cell, ()> = EventRegistry::new();

    let counter: Arc<Mutex<u32>> = Arc::new(Mutex::new(0));
    let c_ref = counter.clone();

    registry.subscribe(move |_: &MyEvent| {
        let mut v = c_ref.lock().unwrap();
        *v += 1;
    });

    registry.invoke(Cell(Box::new(MyEvent {})));
    registry.invoke(Cell(Box::new(MyEvent {})));

    assert_eq!(2, *counter.lock().unwrap());
}

#[test]
fn test_filter_registry() {
    let mut registry: EventRegistry<Cell, ()> = EventRegistry::new();

    registry.subscribe_with_filter::<MyEvent>(
        |_| {},
        Some(vec![TypeId::of::<i32>(), TypeId::of::<i64>()]),
    );
    let subscriptions = registry.get_subscriptions::<MyEvent>().unwrap();
    assert_eq!(subscriptions.len(), 1);

    let filter = subscriptions[0].1.as_ref().unwrap();
    assert_eq!(filter.len(), 2);
    assert_eq!(filter, &vec![TypeId::of::<i32>(), TypeId::of::<i64>()])
}

#[derive(Debug, PartialEq)]
struct DamageEvent {
    amount: u32,
}

impl Anyable<Cell> for DamageEvent {
    fn type_tag() -> TypeId {
        unreachable!()
    }

    fn as_cell(self) -> Cell {
        unreachable!()
    }

    fn from_cell(_: Cell) -> Option<DamageEvent> {
        unreachable!()
    }

    fn lemma_as_cell(_: DamageEvent) {
        unreachable!()
    }

    fn lemma_from_cell(_: Cell) {
        unreachable!()
    }

    fn tag() -> TypeId {
        TypeId::of::<DamageEvent>()
    }

    fn into_cell(self) -> Cell {
        Cell(Box::new(self))
    }

    fn downcast_ref(cell: &Cell) -> Option<&DamageEvent> {
        cell.0.downcast_ref::<DamageEvent>()
    }

    fn downcast_mut(cell: &mut Cell) -> Option<&mut DamageEvent> {
        cell.0.downcast_mut::<DamageEvent>()
    }
}

#[test]
fn counter_counts_two_published_events() {
    let mut registry: EventRegistry<Cell, ()> = EventRegistry::new();
    let counter: Arc<Mutex<u32>> = Arc::new(Mutex::new(0));
    let c_ref = counter.clone();
    registry.subscribe(move |_: &DamageEvent| {
        *c_ref.lock().unwrap() += 1;
    });

    registry.publish(DamageEvent { amount: 3 });
    registry.publish(DamageEvent { amount: 3 });

    assert_eq!(*counter.lock().unwrap(), 2);
}

#[test]
fn subscribers_are_called_once_each_in_the_order_they_came() {
    let mut registry: EventRegistry<Cell, u32> = EventRegistry::new();
    let order: Arc<Mutex<Vec<&str>>> = Arc::new(Mutex::new(Vec::new()));

    let first = order.clone();
    registry.subscribe(move |event: &DamageEvent| {
        first.lock().unwrap().push("first");
        event.amount
    });
    let second = order.clone();
    registry.subscribe_with_filter(
        move |event: &DamageEvent| {
            second.lock().unwrap().push("second");
            event.amount * 2
        },
        Some(Vec::new()),
    );
    let stranger = order.clone();
    registry.subscribe(move |_: &MyEvent| {
        stranger.lock().unwrap().push("stranger");
        99
    });
    let third = order.clone();
    registry.subscribe(move |event: &DamageEvent| {
        third.lock().unwrap().push("third");
        event.amount * 3
    });

    let answers = registry.publish(DamageEvent { amount: 5 });
    assert_eq!(answers, vec![5, 10, 15]);
    assert_eq!(*order.lock().unwrap(), vec!["first", "second", "third"]);

    let answers = registry.invoke(Cell(Box::new(MyEvent {})));
    assert_eq!(answers, vec![99]);
    assert_eq!(*order.lock().unwrap(), vec!["first", "second", "third", "stranger"]);
}

#[test]
fn event_without_subscribers_is_dropped() {
    let mut registry: EventRegistry<Cell, u32> = EventRegistry::new();
    assert!(registry.publish(DamageEvent { amount: 1 }).is_empty());
    assert!(registry.get_subscriptions::<DamageEvent>().is_none());

    registry.subscribe(|_: &MyEvent| 1);
    assert!(registry.publish(DamageEvent { amount: 1 }).is_empty());
    assert!(registry.invoke(Cell(Box::new(7_u8))).is_empty());
    assert!(registry.get_subscriptions::<DamageEvent>().is_none());
    assert_eq!(registry.get_subscriptions::<MyEvent>().unwrap().len(), 1);
}

#[test]
fn filter_has_no_part_in_dispatch() {
    let mut registry: EventRegistry<Cell, u32> = EventRegistry::new();
    registry.subscribe_with_filter(
        |event: &DamageEvent| event.amount,
        Some(vec![TypeId::of::<MyEvent>()]),
    );
    assert_eq!(registry.publish(DamageEvent { amount: 4 }), vec![4]);
}

#[test]
fn filters_come_back_as_they_were_given() {
    let mut registry: EventRegistry<Cell, ()> = EventRegistry::new();
    let long = vec![TypeId::of::<i64>(), TypeId::of::<i32>(), TypeId::of::<i64>()];
    registry.subscribe(|_: &DamageEvent| {});
    registry.subscribe_with_filter(|_: &DamageEvent| {}, Some(long.clone()));
    registry.subscribe_with_filter(|_: &DamageEvent| {}, Some(Vec::new()));
    registry.subscribe_with_filter(|_: &DamageEvent| {}, None);

    let subscriptions = registry.get_subscriptions::<DamageEvent>().unwrap();
    assert_eq!(subscriptions.len(), 4);
    assert_eq!(subscriptions[0].1, None);
    assert_eq!(subscriptions[1].1, Some(long));
    assert_eq!(subscriptions[2].1, Some(Vec::new()));
    assert_eq!(subscriptions[3].1, None);
}

#[test]
fn subscription_answers_events_of_its_type_only() {
    let mut registry: EventRegistry<Cell, u32> = EventRegistry::new();
    registry.subscribe(|event: &DamageEvent| event.amount + 1);
    let subscriptions = registry.get_subscriptions::<DamageEvent>().unwrap();

    assert_eq!(subscriptions[0].invoke(&Cell(Box::new(DamageEvent { amount: 8 }))), Some(9));
    assert_eq!(subscriptions[0].invoke(&Cell(Box::new(MyEvent {}))), None);
    assert_eq!(subscriptions[0].0.notify(&Cell(Box::new(DamageEvent { amount: 1 }))), Some(2));
}
