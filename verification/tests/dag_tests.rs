use gossip_dag::dag::Dag;
use gossip_dag::id::Id;
use gossip_dag::unit::Unit;

fn payload_index(d: &Dag, payload: &[u8]) -> Option<usize> {
    (0..d.units.len()).find(|&i| d.units[i].payload == payload)
}

fn unit_observers(u: &Unit) -> Vec<u64> {
    let mut v: Vec<u64> = u.observers.iter().map(|id| id.0).collect();
    v.sort();
    v
}

fn dags_identical(a: &Dag, b: &Dag) -> bool {
    a.majority == b.majority && a.genesis_identifier == b.genesis_identifier
        && a.units.len() == b.units.len()
        && (0..a.units.len()).all(|i| {
            let x = &a.units[i];
            let y = &b.units[i];
            x.identifier == y.identifier && x.parent == y.parent && x.payload == y.payload
                && x.observers == y.observers && x.children == y.children
        })
}

#[test]
fn two_peers_one_event() {
    let mut d1 = Dag::new(Id(1));
    d1.set_majority(2);
    let mut d2 = Dag::new(Id(2));
    d2.set_majority(2);
    d1.new_payload(vec![1], &Id(1));
    d2.union(&d1);
    d1.union(&d2);
    assert_eq!(d1.units.len(), 2);
    assert_eq!(d2.units.len(), 2);
    // Merging alone never adds the receiver as an observer; the unit becomes
    // stable once the second peer reports the same event, which lands on the
    // existing unit instead of creating a new one.
    let i = payload_index(&d2, &[1]).unwrap();
    assert_eq!(unit_observers(&d2.units[i]), vec![1]);
    d2.new_payload(vec![1], &Id(2));
    d1.union(&d2);
    assert_eq!(d2.units.len(), 2);
    assert_eq!(d1.units.len(), 2);
    let i1 = payload_index(&d1, &[1]).unwrap();
    assert_eq!(unit_observers(&d1.units[i1]), vec![1, 2]);
    assert!(d1.units[i1].observers.len() >= 2);
}

#[test]
fn independent_same_event() {
    let mut d1 = Dag::new(Id(1));
    d1.set_majority(2);
    let mut d2 = Dag::new(Id(2));
    d2.set_majority(2);
    d1.new_payload(vec![7], &Id(1));
    d2.new_payload(vec![7], &Id(2));
    d1.union(&d2);
    d2.union(&d1);
    assert_eq!(d1.units.len(), 2);
    assert_eq!(d2.units.len(), 2);
    let i = payload_index(&d1, &[7]).unwrap();
    assert_eq!(unit_observers(&d1.units[i]), vec![1, 2]);
}

#[test]
fn three_peers_sequence() {
    let mut d1 = Dag::new(Id(1));
    let mut d2 = Dag::new(Id(2));
    let mut d3 = Dag::new(Id(3));
    for d in [&mut d1, &mut d2, &mut d3] {
        d.set_majority(2);
    }
    d1.new_payload(vec![b'a'], &Id(1));
    d2.union(&d1);
    d2.new_payload(vec![b'b'], &Id(2));
    d3.union(&d2);
    d3.new_payload(vec![b'c'], &Id(3));
    for _ in 0..4 {
        let s1 = d1.duplicate();
        let s2 = d2.duplicate();
        let s3 = d3.duplicate();
        d1.union(&s2);
        d1.union(&s3);
        d2.union(&s1);
        d2.union(&s3);
        d3.union(&s1);
        d3.union(&s2);
        // Each host reports every event it hears of; repeats land on the
        // existing units and only widen their observer sets.
        for (d, own) in [(&mut d1, 1u64), (&mut d2, 2), (&mut d3, 3)] {
            for p in [b'a', b'b', b'c'] {
                d.new_payload(vec![p], &Id(own));
            }
        }
    }
    let mut longest = 0;
    for d in [&d1, &d2, &d3] {
        assert_eq!(d.units.len(), 4);
        for p in [vec![b'a'], vec![b'b'], vec![b'c']] {
            let i = payload_index(d, &p).unwrap();
            assert!(d.units[i].observers.len() >= 2, "payload {:?} under-observed", p);
        }
        for u in &d.units {
            if u.children.is_empty() {
                let mut len = 0;
                let mut cur = u.identifier.clone();
                while cur != d.genesis_identifier {
                    let i = d.units.iter().position(|x| x.identifier == cur).unwrap();
                    cur = d.units[i].parent.clone();
                    len += 1;
                }
                if len > longest {
                    longest = len;
                }
            }
        }
    }
    assert_eq!(longest, 3);
}

#[test]
fn best_parent_tie_break() {
    // Two childless units under genesis, both unstable, equal stable-prefix
    // counts and observer counts, neither observed by the caller: the
    // lexicographically greater identifier wins.
    let mut d1 = Dag::new(Id(1));
    d1.set_majority(5);
    d1.new_payload(vec![1], &Id(1));
    let mut d2 = Dag::new(Id(2));
    d2.set_majority(5);
    d2.new_payload(vec![2], &Id(2));
    d1.union(&d2);
    let ia = payload_index(&d1, &[1]).unwrap();
    let ib = payload_index(&d1, &[2]).unwrap();
    let greater = if d1.units[ia].identifier > d1.units[ib].identifier {
        d1.units[ia].identifier.clone()
    } else {
        d1.units[ib].identifier.clone()
    };
    let best = d1.get_best_parent(&Id(9));
    assert_eq!(best.identifier, greater);
    let best_again = d1.get_best_parent(&Id(9));
    assert_eq!(best_again.identifier, greater);
}

#[test]
fn duplicate_payload_suppressed() {
    let mut d = Dag::new(Id(1));
    d.new_payload(vec![9], &Id(1));
    assert_eq!(d.units.len(), 2);
    d.new_payload(vec![9], &Id(2));
    assert_eq!(d.units.len(), 2);
    let i = payload_index(&d, &[9]).unwrap();
    assert_eq!(unit_observers(&d.units[i]), vec![1, 2]);
}

#[test]
fn idempotent_gossip() {
    let mut a = Dag::new(Id(1));
    a.new_payload(vec![3], &Id(1));
    a.new_payload(vec![4], &Id(1));
    let mut b = Dag::new(Id(1));
    b.union(&a);
    let snapshot = b.duplicate();
    b.union(&a);
    assert!(dags_identical(&b, &snapshot));
}

#[test]
fn observer_sets_grow_only() {
    let mut d = Dag::new(Id(1));
    d.new_payload(vec![5], &Id(1));
    let before = d.duplicate();
    let mut other = Dag::new(Id(2));
    other.new_payload(vec![6], &Id(2));
    d.union(&other);
    for u0 in &before.units {
        let u1 = d.units.iter().find(|u| u.identifier == u0.identifier).unwrap();
        for o in &u0.observers {
            assert!(u1.observers.contains(o));
        }
        for c in &u0.children {
            assert!(u1.children.contains(c));
        }
    }
}

#[test]
fn genesis_is_unique_and_shared() {
    let d1 = Dag::new(Id(1));
    let d2 = Dag::new(Id(2));
    assert_eq!(d1.genesis_identifier, d2.genesis_identifier);
    assert_eq!(d1.units.len(), 1);
    assert_eq!(d1.units[0].identifier, d1.genesis_identifier);
    assert_eq!(d1.units[0].parent, vec![0, 0, 0]);
    assert_eq!(d1.units[0].payload, vec![0, 0, 0]);
    assert_eq!(d1.units[0].identifier.len(), 32);
}
