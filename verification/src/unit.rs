//! A unit: one vertex of the DAG, representing one observation of one payload
//! along one branch. Its identifier, parent and payload are immutable; its
//! observer and child sets only ever grow.

use vstd::prelude::*;
use crate::bytes::copy_bytes;
use crate::digest::{compute_unit_id, genesis_identifier, sentinel, sentinel_bytes, unit_id_of};
use crate::id::Id;

verus! {

broadcast use vstd::seq_lib::group_seq_properties, vstd::seq_lib::group_seq_lib_default;

/// A unit in the DAG.
pub struct Unit {
    /// Identifier of this unit: the digest of (parent payload, payload).
    pub identifier: Vec<u8>,
    /// Identifier of the parent unit (the sentinel for genesis).
    pub parent: Vec<u8>,
    /// The event observed.
    pub payload: Vec<u8>,
    /// The peers that have witnessed this exact unit.
    pub observers: Vec<Id>,
    /// Identifiers of units naming this one as parent; kept only so that
    /// childlessness is a cheap test, and only ever a superset hint.
    pub children: Vec<Vec<u8>>,
}

/// The mathematical value of a unit: its byte strings as sequences and its
/// two grow-only collections as sets.
pub struct UnitView {
    pub identifier: Seq<u8>,
    pub parent: Seq<u8>,
    pub payload: Seq<u8>,
    pub observers: Set<Id>,
    pub children: Set<Seq<u8>>,
}

/// The views of a sequence of byte strings.
pub open spec fn views_of(s: Seq<Vec<u8>>) -> Seq<Seq<u8>> {
    s.map_values(|c: Vec<u8>| c@)
}

impl View for Unit {
    type V = UnitView;

    open spec fn view(&self) -> UnitView {
        UnitView {
            identifier: self.identifier@,
            parent: self.parent@,
            payload: self.payload@,
            observers: self.observers@.to_set(),
            children: views_of(self.children@).to_set(),
        }
    }
}

impl Unit {
    /// Well-formedness: the identifier is a digest and the two sets are
    /// stored without duplicates, so their lengths are the set sizes.
    pub open spec fn inv(&self) -> bool {
        &&& self.identifier@.len() == 32
        &&& self.observers@.no_duplicates()
        &&& views_of(self.children@).no_duplicates()
    }

    /// The stored observer list has exactly the size of the observer set.
    pub proof fn lemma_observer_count(&self)
        requires
            self.inv(),
        ensures
            self@.observers.len() == self.observers@.len(),
            self@.observers.finite(),
    {
        self.observers@.unique_seq_to_set();
    }

    /// Generate the genesis unit: sentinel parent, sentinel payload, and the
    /// supplied observers.
    pub fn new_genesis(observers: Vec<Id>) -> (r: Unit)
        requires
            observers@.no_duplicates(),
        ensures
            r.inv(),
            r@.identifier == genesis_identifier(),
            r@.parent == sentinel(),
            r@.payload == sentinel(),
            r@.observers == observers@.to_set(),
            r@.children == Set::<Seq<u8>>::empty(),
            r.observers@ == observers@,
            r.children@.len() == 0,
    {
        let parent = sentinel_bytes();
        let payload = sentinel_bytes();
        let identifier = compute_unit_id(&parent, &payload);
        let r = Unit { identifier, parent, payload, observers, children: Vec::new() };
        proof {
            assert(views_of(r.children@).to_set() =~= Set::<Seq<u8>>::empty());
        }
        r
    }

    /// Create a new unit extending `parent` with `payload`, witnessed by the
    /// supplied observers.
    pub fn new(parent: Unit, payload: Vec<u8>, observers: Vec<Id>) -> (r: Unit)
        requires
            observers@.no_duplicates(),
        ensures
            r.inv(),
            r@.identifier == unit_id_of(parent@.payload, payload@),
            r@.parent == parent@.identifier,
            r@.payload == payload@,
            r@.observers == observers@.to_set(),
            r@.children == Set::<Seq<u8>>::empty(),
            r.observers@ == observers@,
            r.children@.len() == 0,
    {
        let identifier = compute_unit_id(&parent.payload, &payload);
        let r = Unit {
            identifier,
            parent: parent.identifier,
            payload,
            observers,
            children: Vec::new(),
        };
        proof {
            assert(views_of(r.children@).to_set() =~= Set::<Seq<u8>>::empty());
        }
        r
    }

    /// Union with the other unit: both grow-only sets absorb the other's
    /// elements; the immutable fields are untouched.
    pub fn union(&mut self, other: &Unit)
        requires
            old(self).inv(),
        ensures
            final(self).inv(),
            final(self).identifier@ == old(self).identifier@,
            final(self).parent@ == old(self).parent@,
            final(self).payload@ == old(self).payload@,
            final(self)@.observers == old(self)@.observers + other@.observers,
            final(self)@.children == old(self)@.children + other@.children,
            old(self)@.observers == final(self)@.observers && old(self)@.children
                == final(self)@.children ==> final(self).observers@ == old(self).observers@
                && final(self).children@ == old(self).children@,
    {
        let mut i: usize = 0;
        while i < other.observers.len()
            invariant
                old(self).inv(),
                self.inv(),
                self.identifier@ == old(self).identifier@,
                self.parent@ == old(self).parent@,
                self.payload@ == old(self).payload@,
                self.children@ == old(self).children@,
                i <= other.observers@.len(),
                self@.observers == old(self)@.observers + other.observers@.take(
                    i as int,
                ).to_set(),
                other.observers@.take(i as int).to_set().subset_of(old(self)@.observers)
                    ==> self.observers@ == old(self).observers@,
            decreases other.observers@.len() - i,
        {
            let x = other.observers[i];
            let ghost prev = self.observers@;
            proof {
                assert(other.observers@.take(i + 1).drop_last() =~= other.observers@.take(
                    i as int,
                ));
                assert(other.observers@.take(i + 1).last() == x);
                assert(other.observers@.take(i + 1).to_set() =~= other.observers@.take(
                    i as int,
                ).to_set().insert(x));
            }
            insert_observer(&mut self.observers, x);
            proof {
                assert(self@.observers =~= old(self)@.observers + other.observers@.take(
                    i + 1,
                ).to_set());
                if other.observers@.take(i + 1).to_set().subset_of(old(self)@.observers) {
                    assert(other.observers@.take(i + 1).to_set().contains(x));
                    assert(other.observers@.take(i as int).to_set().subset_of(old(
                        self,
                    )@.observers));
                    assert(prev == old(self).observers@);
                    assert(prev.to_set().contains(x));
                    assert(prev.contains(x));
                    assert(self.observers@ == old(self).observers@);
                }
            }
            i += 1;
        }
        proof {
            assert(other.observers@.take(other.observers@.len() as int) =~= other.observers@);
            assert(self@.observers =~= old(self)@.observers + other@.observers);
        }
        let mut j: usize = 0;
        let ghost mid = *self;
        while j < other.children.len()
            invariant
                mid.inv(),
                self.inv(),
                self.identifier@ == mid.identifier@,
                self.parent@ == mid.parent@,
                self.payload@ == mid.payload@,
                self.observers@ == mid.observers@,
                j <= other.children@.len(),
                self@.children == mid@.children + views_of(other.children@).take(
                    j as int,
                ).to_set(),
                views_of(other.children@).take(j as int).to_set().subset_of(mid@.children)
                    ==> self.children@ == mid.children@,
            decreases other.children@.len() - j,
        {
            let c = copy_bytes(&other.children[j]);
            let ghost prev = self.children@;
            proof {
                assert(views_of(other.children@).take(j + 1).drop_last() =~= views_of(
                    other.children@,
                ).take(j as int));
                assert(views_of(other.children@).take(j + 1).last() == c@);
                assert(views_of(other.children@).take(j + 1).to_set() =~= views_of(
                    other.children@,
                ).take(j as int).to_set().insert(c@));
            }
            insert_child(&mut self.children, c);
            proof {
                assert(self@.children =~= mid@.children + views_of(other.children@).take(
                    j + 1,
                ).to_set());
                if views_of(other.children@).take(j + 1).to_set().subset_of(mid@.children) {
                    assert(views_of(other.children@).take(j + 1).to_set().contains(c@));
                    assert(views_of(other.children@).take(j as int).to_set().subset_of(
                        mid@.children,
                    ));
                    assert(prev == mid.children@);
                    assert(views_of(prev).to_set().contains(c@));
                    assert(views_of(prev).contains(c@));
                    assert(self.children@ == mid.children@);
                }
            }
            j += 1;
        }
        proof {
            assert(views_of(other.children@).take(views_of(other.children@).len() as int)
                =~= views_of(other.children@));
            assert(self@.children =~= mid@.children + other@.children);
            if old(self)@.observers == self@.observers && old(self)@.children == self@.children {
                assert(other@.observers.subset_of(old(self)@.observers)) by {
                    assert forall|x: Id| other@.observers.contains(x) implies old(
                        self,
                    )@.observers.contains(x) by {
                        assert(self@.observers.contains(x));
                    }
                }
                assert(other.observers@.take(other.observers@.len() as int) =~= other.observers@);
                assert(other@.children.subset_of(mid@.children)) by {
                    assert forall|c: Seq<u8>| other@.children.contains(c) implies mid@.children.contains(
                        c,
                    ) by {
                        assert(self@.children.contains(c));
                    }
                }
                assert(views_of(other.children@).take(views_of(other.children@).len() as int)
                    =~= views_of(other.children@));
            }
        }
    }

    /// Record a new child identifier.
    pub fn add_child(&mut self, child: Vec<u8>)
        requires
            old(self).inv(),
        ensures
            final(self).inv(),
            final(self).identifier@ == old(self).identifier@,
            final(self).parent@ == old(self).parent@,
            final(self).payload@ == old(self).payload@,
            final(self).observers@ == old(self).observers@,
            final(self)@.children == old(self)@.children.insert(child@),
            old(self)@.children.contains(child@) ==> final(self).children@ == old(
                self,
            ).children@,
    {
        insert_child(&mut self.children, child);
    }

    /// Record a new observer.
    pub fn add_observer(&mut self, id: &Id)
        requires
            old(self).inv(),
        ensures
            final(self).inv(),
            final(self).identifier@ == old(self).identifier@,
            final(self).parent@ == old(self).parent@,
            final(self).payload@ == old(self).payload@,
            final(self).children@ == old(self).children@,
            final(self)@.observers == old(self)@.observers.insert(*id),
            old(self)@.observers.contains(*id) ==> final(self).observers@ == old(
                self,
            ).observers@,
    {
        insert_observer(&mut self.observers, *id);
    }

    /// Copy this unit field by field.
    pub fn duplicate(&self) -> (r: Unit)
        ensures
            r.identifier@ == self.identifier@,
            r.parent@ == self.parent@,
            r.payload@ == self.payload@,
            r.observers@ == self.observers@,
            views_of(r.children@) == views_of(self.children@),
            r@ == self@,
            self.inv() ==> r.inv(),
    {
        let mut children: Vec<Vec<u8>> = Vec::new();
        let mut i: usize = 0;
        while i < self.children.len()
            invariant
                i <= self.children@.len(),
                children@.len() == i,
                forall|k: int| 0 <= k < i ==> children@[k]@ == self.children@[k]@,
            decreases self.children@.len() - i,
        {
            children.push(copy_bytes(&self.children[i]));
            i += 1;
        }
        proof {
            assert(views_of(children@) =~= views_of(self.children@));
        }
        let mut observers: Vec<Id> = Vec::new();
        let mut j: usize = 0;
        while j < self.observers.len()
            invariant
                j <= self.observers@.len(),
                observers@ == self.observers@.take(j as int),
            decreases self.observers@.len() - j,
        {
            observers.push(self.observers[j]);
            proof {
                assert(observers@ =~= self.observers@.take(j + 1));
            }
            j += 1;
        }
        proof {
            assert(self.observers@.take(self.observers@.len() as int) =~= self.observers@);
        }
        let r = Unit {
            identifier: copy_bytes(&self.identifier),
            parent: copy_bytes(&self.parent),
            payload: copy_bytes(&self.payload),
            observers,
            children,
        };
        proof {
            assert(views_of(r.children@) =~= views_of(self.children@));
            assert(r@.observers =~= self@.observers);
            assert(r@.children =~= self@.children);
        }
        r
    }

    /// Whether this unit has no recorded children.
    pub fn is_childless(&self) -> (r: bool)
        ensures
            r == (self@.children =~= Set::<Seq<u8>>::empty()),
            r == (self.children@.len() == 0),
    {
        proof {
            let s = views_of(self.children@);
            if self.children@.len() == 0 {
                assert(s.to_set() =~= Set::<Seq<u8>>::empty());
            } else {
                assert(s[0] == self.children@[0]@);
                assert(s.contains(s[0]));
                assert(s.to_set().contains(s[0]));
            }
        }
        self.children.len() == 0
    }
}

/// Insert an observer into a duplicate-free list unless it is present.
fn insert_observer(v: &mut Vec<Id>, x: Id)
    requires
        old(v)@.no_duplicates(),
    ensures
        final(v)@.no_duplicates(),
        final(v)@.to_set() == old(v)@.to_set().insert(x),
        old(v)@.contains(x) ==> final(v)@ == old(v)@,
        !old(v)@.contains(x) ==> final(v)@ == old(v)@.push(x),
{
    let mut i: usize = 0;
    while i < v.len()
        invariant
            v@ == old(v)@,
            v@.no_duplicates(),
            i <= v@.len(),
            forall|j: int| 0 <= j < i ==> v@[j] != x,
        decreases v@.len() - i,
    {
        if v[i] == x {
            proof {
                assert(v@.to_set().insert(x) =~= v@.to_set());
            }
            return ;
        }
        i += 1;
    }
    assert(!v@.contains(x));
    v.push(x);
    proof {
        let s = old(v)@;
        assert(v@ == s.push(x));
        assert forall|a: int, b: int| 0 <= a < b < v@.len() implies v@[a] != v@[b] by {
            if b == s.len() {
                assert(v@[a] == s[a]);
                assert(s.contains(s[a]));
            }
        }
        assert(v@.no_duplicates());
        assert(v@.to_set() =~= s.to_set().insert(x));
    }
}

/// Insert a child identifier into a duplicate-free list unless it is present.
fn insert_child(v: &mut Vec<Vec<u8>>, x: Vec<u8>)
    requires
        views_of(old(v)@).no_duplicates(),
    ensures
        views_of(final(v)@).no_duplicates(),
        views_of(final(v)@).to_set() == views_of(old(v)@).to_set().insert(x@),
        views_of(old(v)@).contains(x@) ==> final(v)@ == old(v)@,
        !views_of(old(v)@).contains(x@) ==> final(v)@ == old(v)@.push(x),
{
    let mut i: usize = 0;
    while i < v.len()
        invariant
            v@ == old(v)@,
            views_of(v@).no_duplicates(),
            i <= v@.len(),
            forall|j: int| 0 <= j < i ==> views_of(v@)[j] != x@,
        decreases v@.len() - i,
    {
        if crate::bytes::bytes_eq(&v[i], &x) {
            proof {
                assert(views_of(v@)[i as int] == x@);
                assert(views_of(v@).contains(x@));
                assert(views_of(v@).to_set().insert(x@) =~= views_of(v@).to_set());
            }
            return ;
        }
        i += 1;
    }
    assert(!views_of(v@).contains(x@));
    v.push(x);
    proof {
        let s = views_of(old(v)@);
        assert(views_of(v@) =~= s.push(x@));
        assert forall|a: int, b: int| 0 <= a < b < views_of(v@).len() implies views_of(v@)[a]
            != views_of(v@)[b] by {
            if b == s.len() {
                assert(views_of(v@)[a] == s[a]);
                assert(s.contains(s[a]));
            }
        }
        assert(views_of(v@).no_duplicates());
        assert(views_of(v@).to_set() =~= s.to_set().insert(x@));
    }
}

} // verus!
