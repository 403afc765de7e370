use isle::ecs::EntityProxy;
use isle::ecs::ECS;
use isle::registry::entity_registry::EntityRegistry;
use isle::traits::Anyable;
use isle::traits::Erased;
use std::any::Any;
use std::any::TypeId;

struct Cell(Box<dyn Any + Send>);

// `held`, `type_tag`, `as_cell`, `from_cell` and the two lemmas are what proofs
// are stated with. Nothing that runs calls them.
impl Erased for Cell {
    fn held(&self) -> TypeId {
        unreachable!()
    }

    fn tag(&self) -> TypeId {
        (*self.0).type_id()
    }
}

#[derive(Debug, PartialEq, Clone, Copy)]
struct Health {
    hp: i32,
}

impl Anyable<Cell> for Health {
    fn type_tag() -> TypeId {
        unreachable!()
    }

    fn as_cell(self) -> Cell {
        unreachable!()
    }

    fn from_cell(_: Cell) -> Option<Health> {
        unreachable!()
    }

    fn lemma_as_cell(_: Health) {
        unreachable!()
    }

    fn lemma_from_cell(_: Cell) {
        unreachable!()
    }

    fn tag() -> TypeId {
        TypeId::of::<Health>()
    }

    fn into_cell(self) -> Cell {
        Cell(Box::new(self))
    }

    fn downcast_ref(cell: &Cell) -> Option<&Health> {
        cell.0.downcast_ref::<Health>()
    }

    fn downcast_mut(cell: &mut Cell) -> Option<&mut Health> {
        cell.0.downcast_mut::<Health>()
    }
}

#[derive(Debug, PartialEq)]
struct Hit {
    amount: i32,
}

impl Anyable<Cell> for Hit {
    fn type_tag() -> TypeId {
        unreachable!()
    }

    fn as_cell(self) -> Cell {
        unreachable!()
    }

    fn from_cell(_: Cell) -> Option<Hit> {
        unreachable!()
    }

    fn lemma_as_cell(_: Hit) {
        unreachable!()
    }

    fn lemma_from_cell(_: Cell) {
        unreachable!()
    }

    fn tag() -> TypeId {
        TypeId::of::<Hit>()
    }

    fn into_cell(self) -> Cell {
        Cell(Box::new(self))
    }

    fn downcast_ref(cell: &Cell) -> Option<&Hit> {
        cell.0.downcast_ref::<Hit>()
    }

    fn downcast_mut(cell: &mut Cell) -> Option<&mut Hit> {
        cell.0.downcast_mut::<Hit>()
    }
}

#[test]
fn proxy_reads_and_writes_its_entity() {
    let mut registry: EntityRegistry<Cell> = EntityRegistry::new();
    registry.add_component(String::from("hero"), Health { hp: 10 });
    registry.add_component(String::from("rogue"), Health { hp: 20 });

    let mut proxy = EntityProxy(String::from("hero"), &mut registry);
    assert_eq!(proxy.get_component::<Health>(), Some(&Health { hp: 10 }));
    assert_eq!(proxy.get_component::<Hit>(), None);
    proxy.get_component_mut::<Health>().unwrap().hp = 3;
    assert!(proxy.get_component_mut::<Hit>().is_none());
    assert_eq!(proxy.get_component::<Health>(), Some(&Health { hp: 3 }));

    assert_eq!(registry.get_component::<Health>(&String::from("hero")), Some(&Health { hp: 3 }));
    assert_eq!(registry.get_component::<Health>(&String::from("rogue")), Some(&Health { hp: 20 }));

    let nobody = EntityProxy(String::from("nobody"), &mut registry);
    assert_eq!(nobody.get_component::<Health>(), None);
}

#[test]
fn new_simulation_is_empty() {
    let ecs: ECS<Cell, i32> = ECS::new();
    assert!(ecs.entities.get_entities_by_component::<Health>().is_empty());
    assert!(ecs.events.get_subscriptions::<Hit>().is_none());
    assert!(ecs.events.publish(Hit { amount: 1 }).is_empty());
}

#[test]
fn hit_is_staged_while_the_store_is_read_and_committed_later() {
    let mut ecs: ECS<Cell, i32> = ECS::new();
    ecs.entities.add_component(String::from("hero"), Health { hp: 10 });
    ecs.entities.add_component(String::from("rogue"), Health { hp: 5 });
    ecs.events.subscribe(|hit: &Hit| hit.amount);

    let amounts = ecs.events.publish(Hit { amount: 3 });
    assert_eq!(amounts, vec![3]);

    let names: Vec<String> =
        ecs.entities.get_entities_by_component::<Health>().into_iter().cloned().collect();
    for name in &names {
        let amount = amounts[0];
        ecs.staged.stage(name.clone(), move |h: &Health| Some(Health { hp: h.hp - amount }));
        assert!(ecs.entities.get_component::<Health>(name).is_some());
    }
    assert_eq!(ecs.entities.get_component::<Health>(&names[0]), Some(&Health { hp: 10 }));

    for name in &names {
        assert_eq!(ecs.staged.commit(&mut ecs.entities, name, TypeId::of::<Health>()), Ok(1));
    }
    assert_eq!(
        ecs.entities.get_component::<Health>(&String::from("hero")),
        Some(&Health { hp: 7 })
    );
    assert_eq!(
        ecs.entities.get_component::<Health>(&String::from("rogue")),
        Some(&Health { hp: 2 })
    );
}
