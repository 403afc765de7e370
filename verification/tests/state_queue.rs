use isle::registry::entity_registry::EntityRegistry;
use isle::state_queue::CommitError;
use isle::state_queue::StateQueue;
use isle::traits::Anyable;
use isle::traits::Erased;
use std::any::Any;
use std::any::TypeId;

struct Cell(Box<dyn Any + Send>);

// `held`, `type_tag`, `as_cell`, `from_cell` and the two lemmas are what proofs
// are stated with. Nothing that runs calls them.
impl Erased for Cell {
    fn held(&self) -> TypeId {
        unreachable!()
    }

    fn tag(&self) -> TypeId {
        (*self.0).type_id()
    }
}

#[derive(Debug, PartialEq, Clone, Copy)]
struct Health {
    hp: i32,
}

impl Anyable<Cell> for Health {
    fn type_tag() -> TypeId {
        unreachable!()
    }

    fn as_cell(self) -> Cell {
        unreachable!()
    }

    fn from_cell(_: Cell) -> Option<Health> {
        unreachable!()
    }

    fn lemma_as_cell(_: Health) {
        unreachable!()
    }

    fn lemma_from_cell(_: Cell) {
        unreachable!()
    }

    fn tag() -> TypeId {
        TypeId::of::<Health>()
    }

    fn into_cell(self) -> Cell {
        Cell(Box::new(self))
    }

    fn downcast_ref(cell: &Cell) -> Option<&Health> {
        cell.0.downcast_ref::<Health>()
    }

    fn downcast_mut(cell: &mut Cell) -> Option<&mut Health> {
        cell.0.downcast_mut::<Health>()
    }
}

#[derive(Debug, PartialEq, Clone, Copy)]
struct Mana {
    points: u32,
}

impl Anyable<Cell> for Mana {
    fn type_tag() -> TypeId {
        unreachable!()
    }

    fn as_cell(self) -> Cell {
        unreachable!()
    }

    fn from_cell(_: Cell) -> Option<Mana> {
        unreachable!()
    }

    fn lemma_as_cell(_: Mana) {
        unreachable!()
    }

    fn lemma_from_cell(_: Cell) {
        unreachable!()
    }

    fn tag() -> TypeId {
        TypeId::of::<Mana>()
    }

    fn into_cell(self) -> Cell {
        Cell(Box::new(self))
    }

    fn downcast_ref(cell: &Cell) -> Option<&Mana> {
        cell.0.downcast_ref::<Mana>()
    }

    fn downcast_mut(cell: &mut Cell) -> Option<&mut Mana> {
        cell.0.downcast_mut::<Mana>()
    }
}

fn hero() -> String {
    String::from("hero")
}

fn store_with_hero(hp: i32) -> EntityRegistry<Cell> {
    let mut store = EntityRegistry::new();
    store.add_component(hero(), Health { hp });
    store
}

#[test]
fn staged_damage_is_applied_on_commit() {
    let mut store = store_with_hero(10);
    let mut queue: StateQueue<Cell> = StateQueue::new();

    queue.stage(hero(), |h: &Health| Some(Health { hp: h.hp - 3 }));
    assert_eq!(store.get_component::<Health>(&hero()), Some(&Health { hp: 10 }));

    let outcome = queue.commit(&mut store, &hero(), TypeId::of::<Health>());
    assert_eq!(outcome, Ok(1));
    assert_eq!(store.get_component::<Health>(&hero()).unwrap().hp, 7);
}

#[test]
fn edits_run_once_and_in_the_order_staged() {
    let mut store = store_with_hero(10);
    let mut queue: StateQueue<Cell> = StateQueue::new();

    queue.stage(hero(), |h: &Health| Some(Health { hp: h.hp * 2 }));
    queue.stage(hero(), |h: &Health| Some(Health { hp: h.hp + 1 }));
    queue.stage(hero(), |h: &Health| Some(Health { hp: h.hp * 3 }));

    assert_eq!(queue.commit(&mut store, &hero(), TypeId::of::<Health>()), Ok(3));
    assert_eq!(store.get_component::<Health>(&hero()), Some(&Health { hp: 63 }));

    assert_eq!(queue.commit(&mut store, &hero(), TypeId::of::<Health>()), Ok(0));
    assert_eq!(store.get_component::<Health>(&hero()), Some(&Health { hp: 63 }));
}

#[test]
fn failing_edit_ends_the_commit() {
    let mut store = store_with_hero(10);
    let mut queue: StateQueue<Cell> = StateQueue::new();

    queue.stage(hero(), |h: &Health| Some(Health { hp: h.hp - 4 }));
    queue.stage(hero(), |h: &Health| if h.hp > 8 { Some(Health { hp: 0 }) } else { None });
    queue.stage(hero(), |h: &Health| Some(Health { hp: h.hp + 100 }));

    let outcome = queue.commit(&mut store, &hero(), TypeId::of::<Health>());
    assert_eq!(outcome, Err(CommitError { applied: 1 }));
    assert_eq!(store.get_component::<Health>(&hero()), Some(&Health { hp: 6 }));

    assert_eq!(queue.commit(&mut store, &hero(), TypeId::of::<Health>()), Ok(0));
    assert_eq!(store.get_component::<Health>(&hero()), Some(&Health { hp: 6 }));
}

#[test]
fn first_edit_failing_leaves_the_component_untouched() {
    let mut store = store_with_hero(10);
    let mut queue: StateQueue<Cell> = StateQueue::new();
    queue.stage(hero(), |_: &Health| None);
    queue.stage(hero(), |h: &Health| Some(Health { hp: h.hp + 1 }));

    let outcome = queue.commit(&mut store, &hero(), TypeId::of::<Health>());
    assert_eq!(outcome, Err(CommitError { applied: 0 }));
    assert_eq!(store.get_component::<Health>(&hero()), Some(&Health { hp: 10 }));
}

#[test]
fn commit_without_component_applies_nothing() {
    let mut store: EntityRegistry<Cell> = EntityRegistry::new();
    let mut queue: StateQueue<Cell> = StateQueue::new();
    queue.stage(hero(), |h: &Health| Some(Health { hp: h.hp - 3 }));

    assert_eq!(queue.commit(&mut store, &hero(), TypeId::of::<Health>()), Ok(0));
    assert_eq!(store.get_component::<Health>(&hero()), None);

    store.add_component(hero(), Health { hp: 10 });
    assert_eq!(queue.commit(&mut store, &hero(), TypeId::of::<Health>()), Ok(0));
    assert_eq!(store.get_component::<Health>(&hero()), Some(&Health { hp: 10 }));
}

#[test]
fn commit_with_nothing_staged_changes_nothing() {
    let mut store = store_with_hero(10);
    let mut queue: StateQueue<Cell> = StateQueue::new();
    assert_eq!(queue.commit(&mut store, &hero(), TypeId::of::<Health>()), Ok(0));
    assert_eq!(store.get_component::<Health>(&hero()), Some(&Health { hp: 10 }));
}

#[test]
fn edits_wait_for_the_commit_of_their_own_component() {
    let mut store = store_with_hero(10);
    store.add_component(hero(), Mana { points: 5 });
    store.add_component(String::from("rogue"), Health { hp: 20 });
    let mut queue: StateQueue<Cell> = StateQueue::new();

    queue.stage(hero(), |h: &Health| Some(Health { hp: h.hp - 1 }));
    queue.stage(hero(), |m: &Mana| Some(Mana { points: m.points + 1 }));
    queue.stage(String::from("rogue"), |h: &Health| Some(Health { hp: h.hp - 2 }));
    queue.stage(hero(), |h: &Health| Some(Health { hp: h.hp - 1 }));

    assert_eq!(queue.commit(&mut store, &hero(), TypeId::of::<Mana>()), Ok(1));
    assert_eq!(store.get_component::<Mana>(&hero()), Some(&Mana { points: 6 }));
    assert_eq!(store.get_component::<Health>(&hero()), Some(&Health { hp: 10 }));
    assert_eq!(store.get_component::<Health>(&String::from("rogue")), Some(&Health { hp: 20 }));

    assert_eq!(queue.commit(&mut store, &hero(), TypeId::of::<Health>()), Ok(2));
    assert_eq!(store.get_component::<Health>(&hero()), Some(&Health { hp: 8 }));
    assert_eq!(store.get_component::<Health>(&String::from("rogue")), Some(&Health { hp: 20 }));

    assert_eq!(queue.commit(&mut store, &String::from("rogue"), TypeId::of::<Health>()), Ok(1));
    assert_eq!(store.get_component::<Health>(&String::from("rogue")), Some(&Health { hp: 18 }));
}

#[test]
fn edits_staged_after_the_batch_was_taken_go_into_the_next() {
    let mut store = store_with_hero(10);
    let mut queue: StateQueue<Cell> = StateQueue::new();

    queue.stage(hero(), |h: &Health| Some(Health { hp: h.hp - 3 }));
    let batch = queue.take(&hero(), TypeId::of::<Health>());
    assert_eq!(batch.len(), 1);

    queue.stage(hero(), |h: &Health| Some(Health { hp: h.hp * 10 }));

    assert_eq!(store.apply_edits(&hero(), TypeId::of::<Health>(), &batch), Ok(1));
    assert_eq!(store.get_component::<Health>(&hero()), Some(&Health { hp: 7 }));

    assert_eq!(queue.commit(&mut store, &hero(), TypeId::of::<Health>()), Ok(1));
    assert_eq!(store.get_component::<Health>(&hero()), Some(&Health { hp: 70 }));
    assert!(queue.take(&hero(), TypeId::of::<Health>()).is_empty());
}

#[test]
fn one_edit_applied_by_hand() {
    let mut queue: StateQueue<Cell> = StateQueue::new();
    queue.stage(hero(), |h: &Health| if h.hp > 0 { Some(Health { hp: h.hp - 1 }) } else { None });
    let batch = queue.take(&hero(), TypeId::of::<Health>());

    let mut cell = Health { hp: 1 }.into_cell();
    assert!(batch[0].apply(&mut cell));
    assert_eq!(Health::downcast_ref(&cell), Some(&Health { hp: 0 }));
    assert!(!batch[0].apply(&mut cell));
    assert_eq!(Health::downcast_ref(&cell), Some(&Health { hp: 0 }));

    let mut other = Mana { points: 3 }.into_cell();
    assert!(!batch[0].apply(&mut other));
    assert_eq!(Mana::downcast_ref(&other), Some(&Mana { points: 3 }));
}

#[test]
fn commit_leaves_the_index_alone() {
    let mut store = store_with_hero(10);
    let mut queue: StateQueue<Cell> = StateQueue::new();
    queue.stage(hero(), |h: &Health| Some(Health { hp: h.hp - 3 }));
    queue.commit(&mut store, &hero(), TypeId::of::<Health>()).unwrap();
    assert_eq!(store.get_entities_by_component::<Health>(), vec![&hero()]);
}
