use isle::registry::Registry;
use std::any::TypeId;

#[test]
fn new_registry_knows_nothing() {
    let registry: Registry<u32> = Registry::new();
    assert!(registry.get(TypeId::of::<u8>()).is_none());
}

#[test]
fn registered_values_are_found_under_their_tag() {
    let mut registry: Registry<String> = Registry::new();
    registry.register(TypeId::of::<u8>(), Box::new(String::from("a")));
    registry.register(TypeId::of::<u16>(), Box::new(String::from("b")));
    registry.register(TypeId::of::<u8>(), Box::new(String::from("c")));

    assert_eq!(
        registry.get(TypeId::of::<u8>()),
        Some(&vec![String::from("a"), String::from("c")])
    );
    assert_eq!(registry.get(TypeId::of::<u16>()), Some(&vec![String::from("b")]));
    assert_eq!(registry.get(TypeId::of::<u32>()), None);
}

#[test]
fn equal_value_is_not_kept_twice() {
    let mut registry: Registry<u32> = Registry::new();
    registry.register(TypeId::of::<u8>(), Box::new(1));
    registry.register(TypeId::of::<u8>(), Box::new(2));
    registry.register(TypeId::of::<u8>(), Box::new(1));
    registry.register(TypeId::of::<u16>(), Box::new(1));

    assert_eq!(registry.get(TypeId::of::<u8>()), Some(&vec![1, 2]));
    assert_eq!(registry.get(TypeId::of::<u16>()), Some(&vec![1]));
}
