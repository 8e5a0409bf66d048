use gossip_dag::id::Id;
use gossip_dag::unit::Unit;

#[test]
fn union_is_idempotent_and_grows() {
    let genesis = Unit::new_genesis(vec![Id(1)]);
    let mut a = Unit::new(genesis.duplicate(), vec![1, 2], vec![Id(1)]);
    let b = Unit::new(genesis.duplicate(), vec![1, 2], vec![Id(2), Id(3)]);
    assert_eq!(a.identifier, b.identifier);
    a.union(&b);
    assert_eq!(a.observers.len(), 3);
    let once = a.observers.clone();
    a.union(&b);
    assert_eq!(a.observers, once);
}

#[test]
fn add_child_and_observer_are_set_inserts() {
    let mut g = Unit::new_genesis(vec![Id(1)]);
    g.add_observer(&Id(2));
    g.add_observer(&Id(2));
    assert_eq!(g.observers.len(), 2);
    g.add_child(vec![9; 32]);
    g.add_child(vec![9; 32]);
    assert_eq!(g.children.len(), 1);
}

#[test]
fn identifier_is_content_addressed() {
    let genesis = Unit::new_genesis(vec![Id(1)]);
    let a = Unit::new(genesis.duplicate(), vec![5], vec![Id(1)]);
    let b = Unit::new(genesis.duplicate(), vec![5], vec![Id(2)]);
    let c = Unit::new(genesis.duplicate(), vec![6], vec![Id(1)]);
    assert_eq!(a.identifier, b.identifier);
    assert_ne!(a.identifier, c.identifier);
    assert_eq!(a.parent, genesis.identifier);
    assert_eq!(a.identifier.len(), 32);
}
