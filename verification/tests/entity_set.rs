use isle::entity_set::EntitySet;

fn name(text: &str) -> String {
    String::from(text)
}

#[test]
fn new_set_is_empty() {
    let set = EntitySet::new();
    assert!(set.is_empty());
    assert_eq!(set.len(), 0);
    assert!(!set.contains(&name("a")));
    assert!(set.keys().is_empty());
}

#[test]
fn insert_keeps_each_key_once() {
    let mut set = EntitySet::new();
    assert!(set.insert(name("a")));
    assert!(set.insert(name("b")));
    assert!(!set.insert(name("a")));
    assert_eq!(set.len(), 2);
    assert!(set.contains(&name("a")));
    assert!(set.contains(&name("b")));
    assert!(!set.contains(&name("c")));
    assert_eq!(set.keys(), &vec![name("a"), name("b")]);
}

#[test]
fn remove_takes_the_key_out() {
    let mut set = EntitySet::new();
    set.insert(name("a"));
    set.insert(name("b"));
    set.insert(name("c"));
    assert!(set.remove(&name("b")));
    assert!(!set.remove(&name("b")));
    assert!(!set.remove(&name("z")));
    assert_eq!(set.len(), 2);
    assert!(!set.contains(&name("b")));
    assert_eq!(set.keys(), &vec![name("a"), name("c")]);
}

#[test]
fn intersection_holds_what_both_hold() {
    let mut left = EntitySet::new();
    let mut right = EntitySet::new();
    for key in ["a", "b", "c", "d"] {
        left.insert(name(key));
    }
    for key in ["d", "x", "b"] {
        right.insert(name(key));
    }
    let both = left.intersection(&right);
    assert_eq!(both.keys(), &vec![name("b"), name("d")]);
    let none = left.intersection(&EntitySet::new());
    assert!(none.is_empty());
    let flipped = right.intersection(&left);
    assert_eq!(flipped.len(), 2);
    assert!(flipped.contains(&name("b")));
    assert!(flipped.contains(&name("d")));
}

#[test]
fn duplicate_is_a_copy() {
    let mut set = EntitySet::new();
    set.insert(name("a"));
    set.insert(name("b"));
    let mut copy = set.duplicate();
    assert_eq!(copy.keys(), set.keys());
    copy.remove(&name("a"));
    assert!(set.contains(&name("a")));
    assert!(!copy.contains(&name("a")));
}
