//! The DAG: a collection of units rooted at a fixed genesis. It supports
//! inserting a locally observed event (`new_payload`) and merging a peer's
//! graph (`union`), and owns the deterministic best-parent policy.

use vstd::prelude::*;
use crate::bytes::{bytes_eq, copy_bytes};
use crate::digest::{genesis_identifier, sentinel, unit_id_of};
use crate::id::Id;
use crate::unit::{Unit, UnitView};

verus! {

broadcast use vstd::seq_lib::group_seq_properties, vstd::seq_lib::group_seq_lib_default;

/// DAG handler.
pub struct Dag {
    /// The units, keyed by their identifiers (no identifier occurs twice).
    pub units: Vec<Unit>,
    /// Cached identifier of the genesis unit.
    pub genesis_identifier: Vec<u8>,
    /// Observer count at which a unit counts as stable.
    pub majority: u8,
}

/// The views of a sequence of units.
pub open spec fn unit_views(s: Seq<Unit>) -> Seq<UnitView> {
    s.map_values(|u: Unit| u@)
}

/// The mapping from identifier to unit value described by a sequence of
/// units; a later unit with the same identifier would shadow an earlier one,
/// but well-formed DAGs have no duplicate identifiers.
pub open spec fn units_map(s: Seq<UnitView>) -> Map<Seq<u8>, UnitView>
    decreases s.len(),
{
    if s.len() == 0 {
        Map::empty()
    } else {
        units_map(s.drop_last()).insert(s.last().identifier, s.last())
    }
}

/// No identifier occurs twice in the sequence.
pub open spec fn ids_unique(s: Seq<UnitView>) -> bool {
    forall|i: int, j: int| 0 <= i < j < s.len() ==> s[i].identifier != s[j].identifier
}

/// An identifier is a key of the map exactly when some unit carries it.
pub proof fn lemma_units_map_contains(s: Seq<UnitView>, id: Seq<u8>)
    ensures
        units_map(s).contains_key(id) <==> exists|i: int|
            0 <= i < s.len() && s[i].identifier == id,
    decreases s.len(),
{
    if s.len() > 0 {
        lemma_units_map_contains(s.drop_last(), id);
        if units_map(s).contains_key(id) {
            if s.last().identifier == id {
                assert(s[s.len() - 1].identifier == id);
            } else {
                let i = choose|i: int| 0 <= i < s.len() - 1 && s.drop_last()[i].identifier == id;
                assert(s[i].identifier == id);
            }
        }
        if exists|i: int| 0 <= i < s.len() && s[i].identifier == id {
            let i = choose|i: int| 0 <= i < s.len() && s[i].identifier == id;
            if i < s.len() - 1 {
                assert(s.drop_last()[i].identifier == id);
            }
        }
    }
}

/// With unique identifiers, the map sends each unit's identifier to it.
pub proof fn lemma_units_map_index(s: Seq<UnitView>, i: int)
    requires
        ids_unique(s),
        0 <= i < s.len(),
    ensures
        units_map(s).contains_key(s[i].identifier),
        units_map(s)[s[i].identifier] == s[i],
    decreases s.len(),
{
    if i == s.len() - 1 {
    } else {
        assert(ids_unique(s.drop_last())) by {
            assert(forall|a: int, b: int|
                0 <= a < b < s.len() - 1 ==> s.drop_last()[a] == s[a] && s.drop_last()[b]
                    == s[b]);
        }
        assert(s.drop_last()[i] == s[i]);
        lemma_units_map_index(s.drop_last(), i);
        assert(s[i].identifier != s.last().identifier);
    }
}

/// The map is finite and, with unique identifiers, has one key per unit.
pub proof fn lemma_units_map_len(s: Seq<UnitView>)
    ensures
        units_map(s).dom().finite(),
        units_map(s).len() <= s.len(),
        ids_unique(s) ==> units_map(s).len() == s.len(),
    decreases s.len(),
{
    if s.len() > 0 {
        lemma_units_map_len(s.drop_last());
        if ids_unique(s) {
            assert(ids_unique(s.drop_last())) by {
                assert(forall|a: int, b: int|
                    0 <= a < b < s.len() - 1 ==> s.drop_last()[a] == s[a] && s.drop_last()[b]
                        == s[b]);
            }
            lemma_units_map_contains(s.drop_last(), s.last().identifier);
            assert(!units_map(s.drop_last()).contains_key(s.last().identifier)) by {
                if units_map(s.drop_last()).contains_key(s.last().identifier) {
                    let i = choose|i: int|
                        0 <= i < s.len() - 1 && s.drop_last()[i].identifier == s.last().identifier;
                    assert(s[i].identifier == s[s.len() - 1].identifier);
                }
            }
        }
    }
}

/// Whether the parent walk from `tip` ends (at genesis or at a missing
/// identifier) within `fuel` steps.
pub open spec fn walk_ends(m: Map<Seq<u8>, UnitView>, tip: Seq<u8>, fuel: nat) -> bool
    decreases fuel,
{
    if !m.contains_key(tip) {
        true
    } else if tip == genesis_identifier() {
        true
    } else if fuel == 0 {
        false
    } else {
        walk_ends(m, m[tip].parent, (fuel - 1) as nat)
    }
}

/// Whether the parent walk from `tip` reaches the genesis unit within `fuel`
/// steps, crossing only present units.
pub open spec fn reaches_genesis(m: Map<Seq<u8>, UnitView>, tip: Seq<u8>, fuel: nat) -> bool
    decreases fuel,
{
    if !m.contains_key(tip) {
        false
    } else if tip == genesis_identifier() {
        true
    } else if fuel == 0 {
        false
    } else {
        reaches_genesis(m, m[tip].parent, (fuel - 1) as nat)
    }
}

/// Every unit's parent chain reaches genesis in at most as many hops as
/// there are units: parent links are closed and acyclic.
pub open spec fn rooted(m: Map<Seq<u8>, UnitView>) -> bool {
    forall|id: Seq<u8>| #[trigger] m.contains_key(id) ==> reaches_genesis(m, id, m.len())
}

/// The identifier of the first unit on the parent walk from `tip` whose
/// payload is `payload`, if the walk meets one before it ends.
pub open spec fn walk_find(
    m: Map<Seq<u8>, UnitView>,
    tip: Seq<u8>,
    payload: Seq<u8>,
    fuel: nat,
) -> Option<Seq<u8>>
    decreases fuel,
{
    if !m.contains_key(tip) {
        None
    } else if m[tip].payload == payload {
        Some(tip)
    } else if tip == genesis_identifier() {
        None
    } else if fuel == 0 {
        None
    } else {
        walk_find(m, m[tip].parent, payload, (fuel - 1) as nat)
    }
}

/// Where on the path from `tip` back to genesis the payload already occurs:
/// the walk is given one step per unit of the map, which suffices on any
/// well-formed DAG.
pub open spec fn observed_in(
    m: Map<Seq<u8>, UnitView>,
    tip: Seq<u8>,
    payload: Seq<u8>,
) -> Option<Seq<u8>> {
    walk_find(m, tip, payload, m.len())
}

/// A walk that ends within some fuel also ends within any larger fuel.
pub proof fn lemma_walk_ends_mono(m: Map<Seq<u8>, UnitView>, tip: Seq<u8>, f1: nat, f2: nat)
    requires
        walk_ends(m, tip, f1),
        f1 <= f2,
    ensures
        walk_ends(m, tip, f2),
    decreases f1,
{
    if m.contains_key(tip) && tip != genesis_identifier() {
        lemma_walk_ends_mono(m, m[tip].parent, (f1 - 1) as nat, (f2 - 1) as nat);
    }
}

/// A found payload lies at a present unit carrying that payload.
pub proof fn lemma_walk_find_some(m: Map<Seq<u8>, UnitView>, tip: Seq<u8>, payload: Seq<u8>, fuel: nat)
    ensures
        match walk_find(m, tip, payload, fuel) {
            Some(v) => m.contains_key(v) && m[v].payload == payload,
            None => true,
        },
    decreases fuel,
{
    if m.contains_key(tip) && m[tip].payload != payload && tip != genesis_identifier() && fuel > 0 {
        lemma_walk_find_some(m, m[tip].parent, payload, (fuel - 1) as nat);
    }
}

/// A walk that reaches genesis ends.
pub proof fn lemma_reaches_ends(m: Map<Seq<u8>, UnitView>, tip: Seq<u8>, fuel: nat)
    requires
        reaches_genesis(m, tip, fuel),
    ensures
        walk_ends(m, tip, fuel),
    decreases fuel,
{
    if m.contains_key(tip) && tip != genesis_identifier() {
        lemma_reaches_ends(m, m[tip].parent, (fuel - 1) as nat);
    }
}

/// A unit is stable when its observer count reaches the majority threshold.
pub open spec fn is_stable(u: UnitView, majority: u8) -> bool {
    u.observers.len() >= majority
}

/// The number of stable units met on the parent walk from `tip` until it
/// ends, within `fuel` steps.
pub open spec fn stable_count(
    m: Map<Seq<u8>, UnitView>,
    tip: Seq<u8>,
    majority: u8,
    fuel: nat,
) -> nat
    decreases fuel,
{
    if !m.contains_key(tip) {
        0
    } else {
        let c: nat = if is_stable(m[tip], majority) {
            1
        } else {
            0
        };
        if tip == genesis_identifier() {
            c
        } else if fuel == 0 {
            c
        } else {
            c + stable_count(m, m[tip].parent, majority, (fuel - 1) as nat)
        }
    }
}

/// The payloads met on the parent walk from `tip` until it ends, within
/// `fuel` steps.
pub open spec fn path_payloads(m: Map<Seq<u8>, UnitView>, tip: Seq<u8>, fuel: nat) -> Seq<Seq<u8>>
    decreases fuel,
{
    if !m.contains_key(tip) {
        Seq::empty()
    } else if tip == genesis_identifier() {
        seq![m[tip].payload]
    } else if fuel == 0 {
        seq![m[tip].payload]
    } else {
        seq![m[tip].payload] + path_payloads(m, m[tip].parent, (fuel - 1) as nat)
    }
}

/// No payload occurs twice on the path from any childless unit back to
/// genesis.
pub open spec fn payload_unique(m: Map<Seq<u8>, UnitView>) -> bool {
    forall|id: Seq<u8>| #[trigger]
        m.contains_key(id) && is_childless_unit(m[id]) ==> path_payloads(
            m,
            id,
            m.len(),
        ).no_duplicates()
}

/// The payloads on a path depend only on the keys, parent links and
/// payloads.
pub proof fn lemma_path_payloads_same(
    m1: Map<Seq<u8>, UnitView>,
    m2: Map<Seq<u8>, UnitView>,
    tip: Seq<u8>,
    f: nat,
)
    requires
        m1.dom() == m2.dom(),
        forall|id: Seq<u8>| #[trigger] m1.contains_key(id) ==> m2[id].parent == m1[id].parent
            && m2[id].payload == m1[id].payload,
    ensures
        path_payloads(m2, tip, f) == path_payloads(m1, tip, f),
    decreases f,
{
    if m1.contains_key(tip) && tip != genesis_identifier() && f > 0 {
        lemma_path_payloads_same(m1, m2, m1[tip].parent, (f - 1) as nat);
    }
}

/// Growing observer sets alone never breaks payload uniqueness: recording
/// a repeated observation keeps every path as it was.
pub proof fn lemma_payload_unique_observers(m1: Map<Seq<u8>, UnitView>, m2: Map<Seq<u8>, UnitView>)
    requires
        payload_unique(m1),
        m1.dom() == m2.dom(),
        forall|id: Seq<u8>| #[trigger] m1.contains_key(id) ==> m2[id].parent == m1[id].parent
            && m2[id].payload == m1[id].payload && m2[id].children == m1[id].children,
    ensures
        payload_unique(m2),
{
    assert forall|id: Seq<u8>| #[trigger]
        m2.contains_key(id) && is_childless_unit(m2[id]) implies path_payloads(
        m2,
        id,
        m2.len(),
    ).no_duplicates() by {
        assert(m1.contains_key(id));
        assert(is_childless_unit(m1[id]));
        lemma_path_payloads_same(m1, m2, id, m2.len());
        assert(m2.len() == m1.len());
    }
}

/// A unit with no recorded children: a candidate parent.
pub open spec fn is_childless_unit(u: UnitView) -> bool {
    u.children == Set::<Seq<u8>>::empty()
}

/// The childless units of a sequence, in order.
pub open spec fn childless_of(s: Seq<UnitView>) -> Seq<UnitView>
    decreases s.len(),
{
    if s.len() == 0 {
        Seq::empty()
    } else {
        let rest = childless_of(s.drop_last());
        if is_childless_unit(s.last()) {
            rest.push(s.last())
        } else {
            rest
        }
    }
}

/// The stable units of a sequence, in order.
pub open spec fn stable_of(s: Seq<UnitView>, majority: u8) -> Seq<UnitView>
    decreases s.len(),
{
    if s.len() == 0 {
        Seq::empty()
    } else {
        let rest = stable_of(s.drop_last(), majority);
        if is_stable(s.last(), majority) {
            rest.push(s.last())
        } else {
            rest
        }
    }
}

/// The units of a sequence observed by the given peer, in order.
pub open spec fn observed_of(s: Seq<UnitView>, own: Id) -> Seq<UnitView>
    decreases s.len(),
{
    if s.len() == 0 {
        Seq::empty()
    } else {
        let rest = observed_of(s.drop_last(), own);
        if s.last().observers.contains(own) {
            rest.push(s.last())
        } else {
            rest
        }
    }
}

/// A candidate's score: the stable units on the path from its parent back
/// to genesis, not counting the candidate itself.
pub open spec fn candidate_score(m: Map<Seq<u8>, UnitView>, u: UnitView, majority: u8) -> nat {
    stable_count(m, u.parent, majority, m.len())
}

/// The greatest score among the candidates (zero for none).
pub open spec fn max_score(m: Map<Seq<u8>, UnitView>, s: Seq<UnitView>, majority: u8) -> nat
    decreases s.len(),
{
    if s.len() == 0 {
        0
    } else {
        let rest = max_score(m, s.drop_last(), majority);
        if candidate_score(m, s.last(), majority) > rest {
            candidate_score(m, s.last(), majority)
        } else {
            rest
        }
    }
}

/// The candidates whose score is the given one, in order.
pub open spec fn with_score(
    m: Map<Seq<u8>, UnitView>,
    s: Seq<UnitView>,
    majority: u8,
    target: nat,
) -> Seq<UnitView>
    decreases s.len(),
{
    if s.len() == 0 {
        Seq::empty()
    } else {
        let rest = with_score(m, s.drop_last(), majority, target);
        if candidate_score(m, s.last(), majority) == target {
            rest.push(s.last())
        } else {
            rest
        }
    }
}

/// The greatest observer count among the candidates (zero for none).
pub open spec fn max_votes(s: Seq<UnitView>) -> nat
    decreases s.len(),
{
    if s.len() == 0 {
        0
    } else {
        let rest = max_votes(s.drop_last());
        if s.last().observers.len() > rest {
            s.last().observers.len()
        } else {
            rest
        }
    }
}

/// The candidates with the given observer count, in order.
pub open spec fn with_votes(s: Seq<UnitView>, target: nat) -> Seq<UnitView>
    decreases s.len(),
{
    if s.len() == 0 {
        Seq::empty()
    } else {
        let rest = with_votes(s.drop_last(), target);
        if s.last().observers.len() == target {
            rest.push(s.last())
        } else {
            rest
        }
    }
}

/// The unit whose identifier is lexicographically greatest, scanning from
/// an accumulator.
pub open spec fn lex_max_from(s: Seq<UnitView>, acc: UnitView) -> UnitView
    decreases s.len(),
{
    if s.len() == 0 {
        acc
    } else {
        lex_max_from(
            s.skip(1),
            if crate::bytes::lex_lt(acc.identifier, s[0].identifier) {
                s[0]
            } else {
                acc
            },
        )
    }
}

/// The parent chosen by the ordered tie-break policy over the DAG's units
/// `s` under majority threshold `majority` for caller `own`: the single
/// childless unit if there is only one; else the single stable childless
/// unit if exactly one is stable; else, among the childless units with the
/// most stable ancestors, the single one the caller observed if exactly one
/// is; else, among those with the most observers, the lexicographically
/// greatest identifier.
pub open spec fn best_parent_of(
    m: Map<Seq<u8>, UnitView>,
    s: Seq<UnitView>,
    majority: u8,
    own: Id,
) -> UnitView {
    let c0 = childless_of(s);
    if c0.len() == 1 {
        c0[0]
    } else {
        let st = stable_of(c0, majority);
        if st.len() == 1 {
            st[0]
        } else {
            let c1 = with_score(m, c0, majority, max_score(m, c0, majority));
            if c1.len() == 1 {
                c1[0]
            } else {
                let so = observed_of(c1, own);
                if so.len() == 1 {
                    so[0]
                } else {
                    let mv = with_votes(c1, max_votes(c1));
                    lex_max_from(mv.skip(1), mv[0])
                }
            }
        }
    }
}

/// Decide whether a peer identity occurs in a list of observers.
fn observers_contain(v: &Vec<Id>, x: &Id) -> (r: bool)
    ensures
        r == v@.contains(*x),
{
    let mut i: usize = 0;
    while i < v.len()
        invariant
            i <= v@.len(),
            forall|j: int| 0 <= j < i ==> v@[j] != *x,
        decreases v@.len() - i,
    {
        if v[i] == *x {
            return true;
        }
        i += 1;
    }
    false
}

/// Replacing one unit by a unit with the same identifier, parent and
/// payload keeps a DAG well-formed.
proof fn lemma_inv_update(d: &Dag, before: Seq<Unit>, i: int)
    requires
        d.units@.len() == before.len(),
        0 <= i < before.len(),
        forall|t: int| 0 <= t < before.len() && t != i ==> d.units@[t] == before[t],
        d.units@[i]@.identifier == before[i]@.identifier,
        d.units@[i]@.parent == before[i]@.parent,
        d.units@[i]@.payload == before[i]@.payload,
        d.units@[i].inv(),
        ids_unique(unit_views(before)),
        forall|t: int| 0 <= t < before.len() ==> (#[trigger] before[t]).inv(),
        d.genesis_identifier@ == genesis_identifier(),
        exists|g: int|
            0 <= g < before.len() && (#[trigger] before[g])@.identifier == genesis_identifier()
                && before[g]@.parent == sentinel() && before[g]@.payload == sentinel(),
        forall|t: int|
            0 <= t < before.len() ==> (((#[trigger] before[t])@.identifier
                == genesis_identifier()) <==> (before[t]@.parent == sentinel())),
    ensures
        d.inv(),
{
    assert forall|t: int| 0 <= t < d.units@.len() implies (#[trigger] d.units@[t])@.identifier
        == before[t]@.identifier && d.units@[t]@.parent == before[t]@.parent
        && d.units@[t]@.payload == before[t]@.payload && d.units@[t].inv() by {
        if t != i {
            assert(d.units@[t] == before[t]);
        }
    }
    assert forall|a: int, b: int|
        0 <= a < b < d.views().len() implies d.views()[a].identifier != d.views()[b].identifier by {
        assert(d.views()[a].identifier == before[a]@.identifier);
        assert(d.views()[b].identifier == before[b]@.identifier);
        assert(unit_views(before)[a].identifier == before[a]@.identifier);
        assert(unit_views(before)[b].identifier == before[b]@.identifier);
    }
    let g = choose|g: int|
        0 <= g < before.len() && (#[trigger] before[g])@.identifier == genesis_identifier()
            && before[g]@.parent == sentinel() && before[g]@.payload == sentinel();
    assert(d.units@[g]@.identifier == genesis_identifier() && d.units@[g]@.parent == sentinel()
        && d.units@[g]@.payload == sentinel());
}

/// Appending a unit with a fresh identifier, taken from a well-formed DAG,
/// keeps a DAG well-formed.
proof fn lemma_inv_push(d: &Dag, before: Seq<Unit>)
    requires
        d.units@.len() == before.len() + 1,
        forall|t: int| 0 <= t < before.len() ==> d.units@[t] == before[t],
        d.units@[before.len() as int].inv(),
        forall|t: int|
            0 <= t < before.len() ==> (#[trigger] before[t])@.identifier
                != d.units@[before.len() as int]@.identifier,
        ((d.units@[before.len() as int]@.identifier == genesis_identifier()) <==> (
        d.units@[before.len() as int]@.parent == sentinel())),
        ids_unique(unit_views(before)),
        forall|t: int| 0 <= t < before.len() ==> (#[trigger] before[t]).inv(),
        d.genesis_identifier@ == genesis_identifier(),
        exists|g: int|
            0 <= g < before.len() && (#[trigger] before[g])@.identifier == genesis_identifier()
                && before[g]@.parent == sentinel() && before[g]@.payload == sentinel(),
        forall|t: int|
            0 <= t < before.len() ==> (((#[trigger] before[t])@.identifier
                == genesis_identifier()) <==> (before[t]@.parent == sentinel())),
    ensures
        d.inv(),
{
    let n = before.len() as int;
    assert forall|a: int, b: int|
        0 <= a < b < d.views().len() implies d.views()[a].identifier != d.views()[b].identifier by {
        if b < n {
            assert(unit_views(before)[a].identifier == before[a]@.identifier);
            assert(unit_views(before)[b].identifier == before[b]@.identifier);
        } else {
            assert(d.units@[a] == before[a]);
        }
    }
    assert forall|t: int| 0 <= t < d.units@.len() implies (#[trigger] d.units@[t]).inv() && ((
    d.units@[t]@.identifier == genesis_identifier()) <==> (d.units@[t]@.parent == sentinel())) by {
        if t < n {
            assert(d.units@[t] == before[t]);
        }
    }
    let g = choose|g: int|
        0 <= g < before.len() && (#[trigger] before[g])@.identifier == genesis_identifier()
            && before[g]@.parent == sentinel() && before[g]@.payload == sentinel();
    assert(d.units@[g]@.identifier == genesis_identifier() && d.units@[g]@.parent == sentinel()
        && d.units@[g]@.payload == sentinel());
}

/// The union of two unit values with equal identifiers: the grow-only sets
/// absorb each other, the immutable fields stay.
pub open spec fn unit_union_view(a: UnitView, b: UnitView) -> UnitView {
    UnitView {
        identifier: a.identifier,
        parent: a.parent,
        payload: a.payload,
        observers: a.observers + b.observers,
        children: a.children + b.children,
    }
}

/// A unit value absorbing further observers.
pub open spec fn absorb_observers(a: UnitView, obs: Set<Id>) -> UnitView {
    UnitView {
        identifier: a.identifier,
        parent: a.parent,
        payload: a.payload,
        observers: a.observers + obs,
        children: a.children,
    }
}

/// One step of the merge: a known unit is unioned with the incoming one; a
/// unit whose payload already sits on the local path above its parent only
/// contributes its observers to that unit; any other unit is inserted.
pub open spec fn merge_step(m: Map<Seq<u8>, UnitView>, u: UnitView) -> Map<Seq<u8>, UnitView> {
    if m.contains_key(u.identifier) {
        m.insert(u.identifier, unit_union_view(m[u.identifier], u))
    } else {
        match observed_in(m, u.parent, u.payload) {
            Some(v) => m.insert(v, absorb_observers(m[v], u.observers)),
            None => m.insert(u.identifier, u),
        }
    }
}

/// The merge pass: the incoming units applied in order.
pub open spec fn merge_pass(m: Map<Seq<u8>, UnitView>, s: Seq<UnitView>) -> Map<Seq<u8>, UnitView>
    decreases s.len(),
{
    if s.len() == 0 {
        m
    } else {
        merge_pass(merge_step(m, s[0]), s.skip(1))
    }
}

/// The identifiers recorded as someone's child anywhere in the map.
pub open spec fn known_children(m: Map<Seq<u8>, UnitView>) -> Set<Seq<u8>> {
    Set::new(
        |c: Seq<u8>| exists|id: Seq<u8>| #[trigger] m.contains_key(id) && m[id].children.contains(c),
    )
}

/// One step of the child reconciliation: a local unit's children absorb the
/// incoming unit's children, restricted to identifiers already recorded as
/// children locally.
pub open spec fn reconcile_step(
    m: Map<Seq<u8>, UnitView>,
    u: UnitView,
    kc: Set<Seq<u8>>,
) -> Map<Seq<u8>, UnitView> {
    if m.contains_key(u.identifier) {
        m.insert(
            u.identifier,
            UnitView {
                identifier: m[u.identifier].identifier,
                parent: m[u.identifier].parent,
                payload: m[u.identifier].payload,
                observers: m[u.identifier].observers,
                children: m[u.identifier].children + u.children.intersect(kc),
            },
        )
    } else {
        m
    }
}

/// The child reconciliation pass over the incoming units.
pub open spec fn reconcile_pass(
    m: Map<Seq<u8>, UnitView>,
    s: Seq<UnitView>,
    kc: Set<Seq<u8>>,
) -> Map<Seq<u8>, UnitView>
    decreases s.len(),
{
    if s.len() == 0 {
        m
    } else {
        reconcile_pass(reconcile_step(m, s[0], kc), s.skip(1), kc)
    }
}

/// The state a merge of `other` into a DAG with units `m` must produce:
/// the merge pass over the incoming units, then the child reconciliation
/// against the child identifiers known after the pass.
pub open spec fn merged_with(m: Map<Seq<u8>, UnitView>, s: Seq<UnitView>) -> Map<Seq<u8>, UnitView> {
    reconcile_pass(merge_pass(m, s), s, known_children(merge_pass(m, s)))
}

/// Appending one unit to a fold prefix is one more step of the fold.
pub proof fn lemma_merge_pass_snoc(m: Map<Seq<u8>, UnitView>, s: Seq<UnitView>, j: int)
    requires
        0 <= j < s.len(),
    ensures
        merge_pass(m, s.take(j + 1)) == merge_step(merge_pass(m, s.take(j)), s[j]),
    decreases j,
{
    if j == 0 {
        assert(s.take(1)[0] == s[0]);
        assert(s.take(1).skip(1) =~= Seq::<UnitView>::empty());
        assert(s.take(0) =~= Seq::<UnitView>::empty());
        assert(merge_pass(m, s.take(0)) == m);
        assert(merge_pass(m, s.take(1)) == merge_pass(
            merge_step(m, s.take(1)[0]),
            s.take(1).skip(1),
        ));
        assert(merge_pass(merge_step(m, s[0]), s.take(1).skip(1)) == merge_step(m, s[0]));
    } else {
        assert(s.take(j + 1)[0] == s[0]);
        assert(s.take(j + 1).skip(1) =~= s.skip(1).take(j));
        assert(s.take(j)[0] == s[0]);
        assert(s.take(j).skip(1) =~= s.skip(1).take(j - 1));
        assert(merge_pass(m, s.take(j + 1)) == merge_pass(
            merge_step(m, s[0]),
            s.skip(1).take(j),
        ));
        assert(merge_pass(m, s.take(j)) == merge_pass(
            merge_step(m, s[0]),
            s.skip(1).take(j - 1),
        ));
        lemma_merge_pass_snoc(merge_step(m, s[0]), s.skip(1), j - 1);
        assert(s.skip(1)[j - 1] == s[j]);
    }
}

/// The reconciliation analogue of the lemma above.
pub proof fn lemma_reconcile_pass_snoc(
    m: Map<Seq<u8>, UnitView>,
    s: Seq<UnitView>,
    kc: Set<Seq<u8>>,
    j: int,
)
    requires
        0 <= j < s.len(),
    ensures
        reconcile_pass(m, s.take(j + 1), kc) == reconcile_step(
            reconcile_pass(m, s.take(j), kc),
            s[j],
            kc,
        ),
    decreases j,
{
    if j == 0 {
        assert(s.take(1)[0] == s[0]);
        assert(s.take(1).skip(1) =~= Seq::<UnitView>::empty());
        assert(s.take(0) =~= Seq::<UnitView>::empty());
        assert(reconcile_pass(m, s.take(0), kc) == m);
        assert(reconcile_pass(m, s.take(1), kc) == reconcile_pass(
            reconcile_step(m, s.take(1)[0], kc),
            s.take(1).skip(1),
            kc,
        ));
        assert(reconcile_pass(reconcile_step(m, s[0], kc), s.take(1).skip(1), kc)
            == reconcile_step(m, s[0], kc));
    } else {
        assert(s.take(j + 1)[0] == s[0]);
        assert(s.take(j + 1).skip(1) =~= s.skip(1).take(j));
        assert(s.take(j)[0] == s[0]);
        assert(s.take(j).skip(1) =~= s.skip(1).take(j - 1));
        assert(reconcile_pass(m, s.take(j + 1), kc) == reconcile_pass(
            reconcile_step(m, s[0], kc),
            s.skip(1).take(j),
            kc,
        ));
        assert(reconcile_pass(m, s.take(j), kc) == reconcile_pass(
            reconcile_step(m, s[0], kc),
            s.skip(1).take(j - 1),
            kc,
        ));
        lemma_reconcile_pass_snoc(reconcile_step(m, s[0], kc), s.skip(1), kc, j - 1);
        assert(s.skip(1)[j - 1] == s[j]);
    }
}

/// The merge pass is a no-op on units that are all present with no new
/// observers or children.
proof fn lemma_merge_pass_absorbed(m: Map<Seq<u8>, UnitView>, s: Seq<UnitView>)
    requires
        forall|k: int|
            0 <= k < s.len() ==> #[trigger] m.contains_key(s[k].identifier) && s[k].observers.subset_of(
                m[s[k].identifier].observers,
            ) && s[k].children.subset_of(m[s[k].identifier].children),
    ensures
        merge_pass(m, s) == m,
    decreases s.len(),
{
    if s.len() > 0 {
        assert(m.contains_key(s[0].identifier));
        assert(unit_union_view(m[s[0].identifier], s[0]).observers =~= m[s[0].identifier].observers);
        assert(unit_union_view(m[s[0].identifier], s[0]).children =~= m[s[0].identifier].children);
        assert(unit_union_view(m[s[0].identifier], s[0]) == m[s[0].identifier]);
        assert(merge_step(m, s[0]) =~= m);
        assert(forall|k: int| 0 <= k < s.skip(1).len() ==> s.skip(1)[k] == s[k + 1]);
        lemma_merge_pass_absorbed(m, s.skip(1));
        assert(merge_pass(m, s) == merge_pass(merge_step(m, s[0]), s.skip(1)));
    }
}

/// The reconciliation pass is a no-op on units whose children are all
/// already recorded locally.
proof fn lemma_reconcile_pass_absorbed(
    m: Map<Seq<u8>, UnitView>,
    s: Seq<UnitView>,
    kc: Set<Seq<u8>>,
)
    requires
        forall|k: int|
            0 <= k < s.len() ==> !m.contains_key(#[trigger] s[k].identifier)
                || s[k].children.subset_of(m[s[k].identifier].children),
    ensures
        reconcile_pass(m, s, kc) == m,
    decreases s.len(),
{
    if s.len() > 0 {
        if m.contains_key(s[0].identifier) {
            assert(m[s[0].identifier].children + s[0].children.intersect(kc)
                =~= m[s[0].identifier].children);
            assert(reconcile_step(m, s[0], kc) =~= m);
        }
        assert(forall|k: int| 0 <= k < s.skip(1).len() ==> s.skip(1)[k] == s[k + 1]);
        lemma_reconcile_pass_absorbed(m, s.skip(1), kc);
        assert(reconcile_pass(m, s, kc) == reconcile_pass(reconcile_step(m, s[0], kc), s.skip(1), kc));
    }
}

/// Merging a snapshot whose units are all present with no new observers or
/// children changes nothing: once a peer's DAG is absorbed, merging it
/// again is a no-op.
pub proof fn lemma_merge_absorbed(m: Map<Seq<u8>, UnitView>, s: Seq<UnitView>)
    requires
        forall|k: int|
            0 <= k < s.len() ==> #[trigger] m.contains_key(s[k].identifier) && s[k].observers.subset_of(
                m[s[k].identifier].observers,
            ) && s[k].children.subset_of(m[s[k].identifier].children),
    ensures
        merged_with(m, s) == m,
{
    lemma_merge_pass_absorbed(m, s);
    lemma_reconcile_pass_absorbed(m, s, known_children(m));
}

/// A merge pass over units that are all already present only grows
/// observer and child sets: keys, parent links and payloads are untouched.
proof fn lemma_merge_pass_shape(m: Map<Seq<u8>, UnitView>, s: Seq<UnitView>)
    requires
        forall|k: int| 0 <= k < s.len() ==> m.contains_key(#[trigger] s[k].identifier),
    ensures
        merge_pass(m, s).dom() == m.dom(),
        forall|id: Seq<u8>| #[trigger] m.contains_key(id) ==> merge_pass(m, s)[id].parent
            == m[id].parent && merge_pass(m, s)[id].payload == m[id].payload,
    decreases s.len(),
{
    if s.len() > 0 {
        let m1 = merge_step(m, s[0]);
        assert(m.contains_key(s[0].identifier));
        assert(m1.dom() =~= m.dom());
        assert(forall|k: int|
            0 <= k < s.skip(1).len() ==> m1.contains_key(#[trigger] s.skip(1)[k].identifier));
        lemma_merge_pass_shape(m1, s.skip(1));
        assert(merge_pass(m, s) == merge_pass(m1, s.skip(1)));
    }
}

/// The reconciliation pass only grows child sets: keys, parent links and
/// payloads are untouched.
proof fn lemma_reconcile_pass_shape(m: Map<Seq<u8>, UnitView>, s: Seq<UnitView>, kc: Set<Seq<u8>>)
    ensures
        reconcile_pass(m, s, kc).dom() == m.dom(),
        forall|id: Seq<u8>| #[trigger] m.contains_key(id) ==> reconcile_pass(m, s, kc)[id].parent
            == m[id].parent && reconcile_pass(m, s, kc)[id].payload == m[id].payload,
    decreases s.len(),
{
    if s.len() > 0 {
        let m1 = reconcile_step(m, s[0], kc);
        assert(m1.dom() =~= m.dom());
        lemma_reconcile_pass_shape(m1, s.skip(1), kc);
        assert(reconcile_pass(m, s, kc) == reconcile_pass(m1, s.skip(1), kc));
    }
}

/// Merging a snapshot whose units are all already known keeps the DAG
/// rooted: such a merge only widens observer and child sets, never the
/// parent structure.
pub proof fn lemma_merged_with_rooted(m: Map<Seq<u8>, UnitView>, s: Seq<UnitView>)
    requires
        rooted(m),
        forall|k: int| 0 <= k < s.len() ==> m.contains_key(#[trigger] s[k].identifier),
    ensures
        rooted(merged_with(m, s)),
{
    let mp = merge_pass(m, s);
    lemma_merge_pass_shape(m, s);
    lemma_reconcile_pass_shape(mp, s, known_children(mp));
    let r = merged_with(m, s);
    assert(r.dom() == m.dom());
    assert forall|id: Seq<u8>| #[trigger] m.contains_key(id) implies r[id].parent
        == m[id].parent by {
        assert(mp.contains_key(id));
    }
    lemma_rooted_same_shape(m, r);
}

/// One merge step only ever writes the incoming identifier or an existing
/// key.
pub proof fn lemma_merge_step_dom(m: Map<Seq<u8>, UnitView>, u: UnitView)
    ensures
        forall|id: Seq<u8>| #[trigger]
            merge_step(m, u).contains_key(id) ==> m.contains_key(id) || id == u.identifier,
{
    if !m.contains_key(u.identifier) {
        match observed_in(m, u.parent, u.payload) {
            Some(v) => {
                lemma_walk_find_some(m, u.parent, u.payload, m.len());
            },
            None => {},
        }
    }
}

/// The merge pass only ever writes incoming identifiers or existing keys.
pub proof fn lemma_merge_pass_dom(m: Map<Seq<u8>, UnitView>, s: Seq<UnitView>)
    ensures
        forall|id: Seq<u8>| #[trigger]
            merge_pass(m, s).contains_key(id) ==> m.contains_key(id) || exists|k: int|
                0 <= k < s.len() && s[k].identifier == id,
    decreases s.len(),
{
    if s.len() > 0 {
        lemma_merge_step_dom(m, s[0]);
        lemma_merge_pass_dom(merge_step(m, s[0]), s.skip(1));
        assert(merge_pass(m, s) == merge_pass(merge_step(m, s[0]), s.skip(1)));
        assert forall|id: Seq<u8>| #[trigger] merge_pass(m, s).contains_key(id) implies m.contains_key(
            id,
        ) || exists|k: int| 0 <= k < s.len() && s[k].identifier == id by {
            if !m.contains_key(id) {
                if merge_step(m, s[0]).contains_key(id) {
                    assert(s[0].identifier == id);
                } else {
                    let k = choose|k: int|
                        0 <= k < s.skip(1).len() && s.skip(1)[k].identifier == id;
                    assert(s[k + 1].identifier == id);
                }
            }
        }
    }
}

/// The reconciliation pass never changes the key set.
pub proof fn lemma_reconcile_pass_dom(
    m: Map<Seq<u8>, UnitView>,
    s: Seq<UnitView>,
    kc: Set<Seq<u8>>,
)
    ensures
        reconcile_pass(m, s, kc).dom() == m.dom(),
    decreases s.len(),
{
    if s.len() > 0 {
        assert(reconcile_step(m, s[0], kc).dom() =~= m.dom());
        lemma_reconcile_pass_dom(reconcile_step(m, s[0], kc), s.skip(1), kc);
    }
}

/// A merge only ever writes incoming identifiers or existing keys.
pub proof fn lemma_merged_with_dom(m: Map<Seq<u8>, UnitView>, s: Seq<UnitView>)
    ensures
        forall|id: Seq<u8>| #[trigger]
            merged_with(m, s).contains_key(id) ==> m.contains_key(id) || exists|k: int|
                0 <= k < s.len() && s[k].identifier == id,
{
    lemma_merge_pass_dom(m, s);
    lemma_reconcile_pass_dom(merge_pass(m, s), s, known_children(merge_pass(m, s)));
}

/// Replacing one unit in place, keeping its identifier, is an insertion
/// into the identifier map.
pub proof fn lemma_units_map_update(s: Seq<UnitView>, i: int, u: UnitView)
    requires
        ids_unique(s),
        0 <= i < s.len(),
        u.identifier == s[i].identifier,
    ensures
        units_map(s.update(i, u)) == units_map(s).insert(u.identifier, u),
    decreases s.len(),
{
    let t = s.update(i, u);
    if i == s.len() - 1 {
        assert(t.drop_last() =~= s.drop_last());
        assert(t.last() == u);
        assert(units_map(t) =~= units_map(s).insert(u.identifier, u));
    } else {
        assert(ids_unique(s.drop_last())) by {
            assert(forall|a: int, b: int|
                0 <= a < b < s.len() - 1 ==> s.drop_last()[a] == s[a] && s.drop_last()[b]
                    == s[b]);
        }
        assert(t.drop_last() =~= s.drop_last().update(i, u));
        assert(s.drop_last()[i] == s[i]);
        lemma_units_map_update(s.drop_last(), i, u);
        assert(t.last() == s.last());
        assert(s[i].identifier != s.last().identifier);
        assert(units_map(t) =~= units_map(s).insert(u.identifier, u));
    }
}

/// Appending a unit is an insertion into the identifier map.
pub proof fn lemma_units_map_push(s: Seq<UnitView>, u: UnitView)
    ensures
        units_map(s.push(u)) == units_map(s).insert(u.identifier, u),
{
    assert(s.push(u).drop_last() =~= s);
    assert(s.push(u).last() == u);
}

/// The state an extension with `payload` under best parent `bp` must
/// produce: if the payload already occurs on the path from `bp` to genesis,
/// only that unit's observers absorb the caller; otherwise a new unit is
/// inserted under `bp` (or unioned into an existing unit carrying the same
/// content-addressed identifier) and recorded as `bp`'s child.
pub open spec fn extend_with(
    m: Map<Seq<u8>, UnitView>,
    bp: Seq<u8>,
    payload: Seq<u8>,
    own: Id,
) -> Map<Seq<u8>, UnitView> {
    match observed_in(m, bp, payload) {
        Some(v) => m.insert(v, absorb_observers(m[v], Set::<Id>::empty().insert(own))),
        None => {
            let nid = unit_id_of(m[bp].payload, payload);
            let withchild = m.insert(
                bp,
                UnitView {
                    identifier: m[bp].identifier,
                    parent: m[bp].parent,
                    payload: m[bp].payload,
                    observers: m[bp].observers,
                    children: m[bp].children.insert(nid),
                },
            );
            if withchild.contains_key(nid) {
                withchild.insert(
                    nid,
                    absorb_observers(withchild[nid], Set::<Id>::empty().insert(own)),
                )
            } else {
                withchild.insert(
                    nid,
                    UnitView {
                        identifier: nid,
                        parent: bp,
                        payload: payload,
                        observers: Set::<Id>::empty().insert(own),
                        children: Set::<Seq<u8>>::empty(),
                    },
                )
            }
        },
    }
}

/// A walk that reaches genesis within some fuel also does within any larger
/// fuel.
pub proof fn lemma_reaches_mono(m: Map<Seq<u8>, UnitView>, tip: Seq<u8>, f1: nat, f2: nat)
    requires
        reaches_genesis(m, tip, f1),
        f1 <= f2,
    ensures
        reaches_genesis(m, tip, f2),
    decreases f1,
{
    if m.contains_key(tip) && tip != genesis_identifier() {
        lemma_reaches_mono(m, m[tip].parent, (f1 - 1) as nat, (f2 - 1) as nat);
    }
}

/// Reaching genesis depends only on the keys and parent links.
pub proof fn lemma_reaches_same_parents(
    m1: Map<Seq<u8>, UnitView>,
    m2: Map<Seq<u8>, UnitView>,
    tip: Seq<u8>,
    f: nat,
)
    requires
        reaches_genesis(m1, tip, f),
        m1.dom() == m2.dom(),
        forall|id: Seq<u8>| #[trigger] m1.contains_key(id) ==> m2[id].parent == m1[id].parent,
    ensures
        reaches_genesis(m2, tip, f),
    decreases f,
{
    if m1.contains_key(tip) && tip != genesis_identifier() {
        lemma_reaches_same_parents(m1, m2, m1[tip].parent, (f - 1) as nat);
    }
}

/// A walk that reaches genesis still does after a unit under a fresh
/// identifier is added.
pub proof fn lemma_reaches_insert_fresh(
    m: Map<Seq<u8>, UnitView>,
    nid: Seq<u8>,
    u: UnitView,
    tip: Seq<u8>,
    f: nat,
)
    requires
        reaches_genesis(m, tip, f),
        !m.contains_key(nid),
    ensures
        reaches_genesis(m.insert(nid, u), tip, f),
    decreases f,
{
    if m.contains_key(tip) && tip != genesis_identifier() {
        lemma_reaches_insert_fresh(m, nid, u, m[tip].parent, (f - 1) as nat);
    }
}

/// A rooted map stays rooted when units change without touching keys or
/// parent links.
pub proof fn lemma_rooted_same_shape(m0: Map<Seq<u8>, UnitView>, m2: Map<Seq<u8>, UnitView>)
    requires
        rooted(m0),
        m0.dom() == m2.dom(),
        forall|id: Seq<u8>| #[trigger] m0.contains_key(id) ==> m2[id].parent == m0[id].parent,
    ensures
        rooted(m2),
{
    assert forall|id: Seq<u8>| #[trigger] m2.contains_key(id) implies reaches_genesis(
        m2,
        id,
        m2.len(),
    ) by {
        assert(m0.contains_key(id));
        lemma_reaches_same_parents(m0, m2, id, m0.len());
    }
}

/// A rooted map stays rooted when a unit whose parent is present is added
/// under a fresh identifier, after reshaping-free updates.
pub proof fn lemma_rooted_insert_fresh(
    m0: Map<Seq<u8>, UnitView>,
    m1: Map<Seq<u8>, UnitView>,
    nid: Seq<u8>,
    u: UnitView,
)
    requires
        rooted(m0),
        m0.dom().finite(),
        m0.dom() == m1.dom(),
        forall|id: Seq<u8>| #[trigger] m0.contains_key(id) ==> m1[id].parent == m0[id].parent,
        !m1.contains_key(nid),
        m0.contains_key(u.parent),
    ensures
        rooted(m1.insert(nid, u)),
{
    let m2 = m1.insert(nid, u);
    assert(m1.len() == m0.len());
    assert(m2.len() == m0.len() + 1) by {
        assert(m2.dom() =~= m1.dom().insert(nid));
    }
    assert forall|id: Seq<u8>| #[trigger] m2.contains_key(id) implies reaches_genesis(
        m2,
        id,
        m2.len(),
    ) by {
        if id == nid {
            assert(reaches_genesis(m0, u.parent, m0.len()));
            lemma_reaches_same_parents(m0, m1, u.parent, m0.len());
            lemma_reaches_insert_fresh(m1, nid, u, u.parent, m0.len());
            assert(m2[nid].parent == u.parent);
            assert(reaches_genesis(m2, id, (m0.len() + 1) as nat));
        } else {
            assert(m0.contains_key(id));
            assert(reaches_genesis(m0, id, m0.len()));
            lemma_reaches_same_parents(m0, m1, id, m0.len());
            lemma_reaches_insert_fresh(m1, nid, u, id, m0.len());
            lemma_reaches_mono(m2, id, m0.len(), (m0.len() + 1) as nat);
        }
    }
}

/// Taking a unit out and reinserting a unit at the same place replaces it.
pub proof fn lemma_remove_insert<A>(s0: Seq<A>, s1: Seq<A>, i: int, x: A)
    requires
        0 <= i < s0.len(),
        s1 == s0.remove(i).insert(i, x),
    ensures
        s1 =~= s0.update(i, x),
{
    assert forall|t: int| 0 <= t < s0.len() implies s1[t] == s0.update(i, x)[t] by {
        if t < i {
            assert(s0.remove(i)[t] == s0[t]);
        } else if t > i {
            assert(s0.remove(i)[t - 1] == s0[t]);
        }
    }
}

impl Dag {
    /// The views of this DAG's units.
    pub open spec fn views(&self) -> Seq<UnitView> {
        unit_views(self.units@)
    }

    /// The mapping from identifier to unit value.
    pub open spec fn umap(&self) -> Map<Seq<u8>, UnitView> {
        units_map(self.views())
    }

    /// Well-formedness: identifiers are unique 32-byte digests, the genesis
    /// unit is present with the sentinel as parent and payload, and the
    /// sentinel parent marks exactly the genesis unit.
    pub open spec fn inv(&self) -> bool {
        &&& ids_unique(self.views())
        &&& forall|i: int| 0 <= i < self.units@.len() ==> (#[trigger] self.units@[i]).inv()
        &&& self.genesis_identifier@ == genesis_identifier()
        &&& exists|i: int|
            0 <= i < self.units@.len() && (#[trigger] self.units@[i])@.identifier
                == genesis_identifier() && self.units@[i]@.parent == sentinel()
                && self.units@[i]@.payload == sentinel()
        &&& forall|i: int|
            0 <= i < self.units@.len() ==> (((#[trigger] self.units@[i])@.identifier
                == genesis_identifier()) <==> (self.units@[i]@.parent == sentinel()))
    }

    /// Creating a new DAG, with the genesis unit inserted and witnessed by
    /// the caller alone; the majority threshold starts at zero.
    pub fn new(id: Id) -> (r: Dag)
        ensures
            r.inv(),
            rooted(r.umap()),
            r.majority == 0,
            r.units@.len() == 1,
            r.umap().contains_key(genesis_identifier()),
            r.umap()[genesis_identifier()].observers == Set::<Id>::empty().insert(id),
            r.umap()[genesis_identifier()].children == Set::<Seq<u8>>::empty(),
            r.umap().dom() == Set::<Seq<u8>>::empty().insert(genesis_identifier()),
            r.units@[0]@.identifier == genesis_identifier(),
            r.units@[0]@.parent == sentinel(),
            r.units@[0]@.payload == sentinel(),
            r.units@[0]@.observers == Set::<Id>::empty().insert(id),
            r.units@[0]@.children == Set::<Seq<u8>>::empty(),
    {
        let mut observers: Vec<Id> = Vec::new();
        observers.push(id);
        let genesis_unit = Unit::new_genesis(observers);
        let genesis_identifier_vec = copy_bytes(&genesis_unit.identifier);
        let mut units: Vec<Unit> = Vec::new();
        units.push(genesis_unit);
        let r = Dag { units, genesis_identifier: genesis_identifier_vec, majority: 0 };
        proof {
            let s = r.views();
            assert(s.len() == 1);
            assert(s.drop_last() =~= Seq::<UnitView>::empty());
            assert(s.last() == s[0]);
            assert(s[0] == r.units@[0]@);
            assert(s[0].identifier == genesis_identifier());
            assert(units_map(s) == units_map(s.drop_last()).insert(s.last().identifier, s.last()));
            assert(units_map(s.drop_last()) == units_map(Seq::<UnitView>::empty()));
            assert(units_map(Seq::<UnitView>::empty()) == Map::<Seq<u8>, UnitView>::empty());
            assert(r.umap() =~= Map::<Seq<u8>, UnitView>::empty().insert(
                genesis_identifier(),
                s[0],
            ));
            assert(r.umap().dom() =~= Set::<Seq<u8>>::empty().insert(genesis_identifier()));
            assert(s[0].observers =~= Set::<Id>::empty().insert(id));
            assert forall|x: Seq<u8>| r.umap().contains_key(x) implies reaches_genesis(
                r.umap(),
                x,
                r.umap().len(),
            ) by {
                assert(x == genesis_identifier());
            }
        }
        r
    }

    /// Update the majority counter.
    pub fn set_majority(&mut self, majority: u8)
        ensures
            final(self).units@ == old(self).units@,
            final(self).genesis_identifier@ == old(self).genesis_identifier@,
            final(self).majority == majority,
            old(self).inv() ==> final(self).inv(),
            final(self).umap() == old(self).umap(),
    {
        self.majority = majority;
        proof {
            if old(self).inv() {
                let g = choose|g: int|
                    0 <= g < old(self).units@.len() && (#[trigger] old(
                        self,
                    ).units@[g])@.identifier == genesis_identifier() && old(
                        self,
                    ).units@[g]@.parent == sentinel() && old(self).units@[g]@.payload
                        == sentinel();
                assert(self.units@[g]@.identifier == genesis_identifier());
            }
        }
    }

    /// Find the position of the unit with the given identifier.
    fn find_unit(&self, id: &Vec<u8>) -> (r: Option<usize>)
        ensures
            match r {
                Some(i) => i < self.units@.len() && self.units@[i as int]@.identifier == id@,
                None => forall|i: int|
                    0 <= i < self.units@.len() ==> (#[trigger] self.units@[i])@.identifier != id@,
            },
    {
        let mut i: usize = 0;
        while i < self.units.len()
            invariant
                i <= self.units@.len(),
                forall|j: int| 0 <= j < i ==> (#[trigger] self.units@[j])@.identifier != id@,
            decreases self.units@.len() - i,
        {
            if bytes_eq(&self.units[i].identifier, id) {
                return Some(i);
            }
            i += 1;
        }
        None
    }

    /// Travel along the path from `tip` towards genesis, looking for a unit
    /// that holds this payload; return its position if one is met. The walk
    /// is given one hop per unit, which a well-formed DAG never exhausts.
    fn has_observed_in(&self, tip: &Vec<u8>, payload: &Vec<u8>) -> (r: Option<usize>)
        requires
            self.inv(),
        ensures
            (match r {
                Some(i) => i < self.units@.len() && observed_in(self.umap(), tip@, payload@)
                    == Some(self.units@[i as int]@.identifier) && self.units@[i as int]@.payload
                    == payload@,
                None => observed_in(self.umap(), tip@, payload@) is None,
            }),
    {
        let ghost m = self.umap();
        proof {
            lemma_units_map_len(self.views());
        }
        let mut cur: Vec<u8> = copy_bytes(tip);
        let mut steps: usize = 0;
        loop
            invariant
                self.inv(),
                m == self.umap(),
                m.len() == self.units@.len(),
                steps <= m.len(),
                walk_find(m, tip@, payload@, m.len()) == walk_find(
                    m,
                    cur@,
                    payload@,
                    (m.len() - steps) as nat,
                ),
            decreases m.len() - steps,
        {
            match self.find_unit(&cur) {
                None => {
                    proof {
                        lemma_units_map_contains(self.views(), cur@);
                        assert(!m.contains_key(cur@)) by {
                            if m.contains_key(cur@) {
                                let i = choose|i: int|
                                    0 <= i < self.views().len() && self.views()[i].identifier
                                        == cur@;
                                assert(self.units@[i]@.identifier == cur@);
                            }
                        }
                    }
                    return None;
                },
                Some(i) => {
                    proof {
                        lemma_units_map_index(self.views(), i as int);
                        assert(m.contains_key(cur@));
                        assert(m[cur@] == self.units@[i as int]@);
                    }
                    if bytes_eq(&self.units[i].payload, payload) {
                        proof {
                            assert(walk_find(m, cur@, payload@, (m.len() - steps) as nat)
                                == Some(cur@));
                        }
                        return Some(i);
                    }
                    if bytes_eq(&self.units[i].identifier, &self.genesis_identifier) {
                        proof {
                            assert(cur@ == genesis_identifier());
                        }
                        return None;
                    }
                    if steps == self.units.len() {
                        proof {
                            assert(m.len() - steps == 0);
                        }
                        return None;
                    }
                    let next = copy_bytes(&self.units[i].parent);
                    proof {
                        assert(next@ == m[cur@].parent);
                        assert(walk_find(m, cur@, payload@, (m.len() - steps) as nat)
                            == walk_find(m, next@, payload@, (m.len() - steps - 1) as nat));
                    }
                    cur = next;
                    steps += 1;
                },
            }
        }
    }

    /// Count the stable units along the path from `tip` until it ends.
    fn path_stable_count(&self, tip: &Vec<u8>) -> (r: usize)
        requires
            self.inv(),
            self.units@.len() < usize::MAX,
            walk_ends(self.umap(), tip@, self.umap().len()),
        ensures
            r == stable_count(self.umap(), tip@, self.majority, self.umap().len()),
    {
        let ghost m = self.umap();
        proof {
            lemma_units_map_len(self.views());
        }
        let mut count: usize = 0;
        let mut cur: Vec<u8> = copy_bytes(tip);
        let ghost mut fuel = m.len();
        loop
            invariant
                self.inv(),
                m == self.umap(),
                m.len() == self.units@.len(),
                self.units@.len() < usize::MAX,
                walk_ends(m, cur@, fuel),
                fuel <= m.len(),
                count <= m.len() - fuel,
                count + stable_count(m, cur@, self.majority, fuel) == stable_count(
                    m,
                    tip@,
                    self.majority,
                    m.len(),
                ),
            decreases fuel,
        {
            match self.find_unit(&cur) {
                None => {
                    proof {
                        lemma_units_map_contains(self.views(), cur@);
                        assert(!m.contains_key(cur@)) by {
                            if m.contains_key(cur@) {
                                let i = choose|i: int|
                                    0 <= i < self.views().len() && self.views()[i].identifier
                                        == cur@;
                                assert(self.units@[i]@.identifier == cur@);
                            }
                        }
                        assert(stable_count(m, cur@, self.majority, fuel) == 0);
                    }
                    return count;
                },
                Some(i) => {
                    proof {
                        lemma_units_map_index(self.views(), i as int);
                        assert(m.contains_key(cur@));
                        assert(m[cur@] == self.units@[i as int]@);
                        self.units@[i as int].lemma_observer_count();
                    }
                    let stable = self.units[i].observers.len() >= self.majority as usize;
                    proof {
                        assert(stable == is_stable(m[cur@], self.majority));
                    }
                    if bytes_eq(&self.units[i].identifier, &self.genesis_identifier) {
                        proof {
                            assert(cur@ == genesis_identifier());
                        }
                        if stable {
                            return count + 1;
                        } else {
                            return count;
                        }
                    }
                    proof {
                        assert(cur@ != genesis_identifier());
                        assert(fuel > 0);
                    }
                    if stable {
                        count += 1;
                    }
                    let next = copy_bytes(&self.units[i].parent);
                    proof {
                        assert(next@ == m[cur@].parent);
                        fuel = (fuel - 1) as nat;
                    }
                    cur = next;
                },
            }
        }
    }

    /// The walk from the parent of a present unit ends within the map's
    /// size, because the whole DAG is rooted.
    proof fn lemma_parent_walk_ends(&self, i: int)
        requires
            self.inv(),
            rooted(self.umap()),
            0 <= i < self.units@.len(),
        ensures
            walk_ends(self.umap(), self.units@[i]@.parent, self.umap().len()),
    {
        let m = self.umap();
        let u = self.units@[i]@;
        lemma_units_map_index(self.views(), i);
        assert(m.contains_key(u.identifier));
        assert(reaches_genesis(m, u.identifier, m.len()));
        if u.identifier == genesis_identifier() {
            assert(u.parent == sentinel());
            assert(!m.contains_key(sentinel())) by {
                lemma_units_map_contains(self.views(), sentinel());
                if m.contains_key(sentinel()) {
                    let j = choose|j: int|
                        0 <= j < self.views().len() && self.views()[j].identifier == sentinel();
                    assert(self.units@[j]@.identifier.len() == 32);
                }
            }
            assert(walk_ends(m, u.parent, m.len()));
        } else {
            assert(m.len() > 0);
            assert(reaches_genesis(m, u.parent, (m.len() - 1) as nat));
            lemma_reaches_ends(m, u.parent, (m.len() - 1) as nat);
            lemma_walk_ends_mono(m, u.parent, (m.len() - 1) as nat, m.len());
        }
    }

    /// The parent shall be a childless unit, and: any one if a single one is
    /// childless or a single childless one is stable; otherwise one with the
    /// most stable units along its path to genesis; of those, the single one
    /// this peer observed, if one; of those, one with the most observers;
    /// and last by the order of their names. The result is exactly the unit
    /// the tie-break policy `best_parent_of` denotes.
    #[verifier::rlimit(100)]
    pub fn get_best_parent(&self, own_id: &Id) -> (r: Unit)
        requires
            self.inv(),
            rooted(self.umap()),
            self.units@.len() < usize::MAX,
            exists|i: int|
                0 <= i < self.units@.len() && (#[trigger] self.units@[i])@.children == Set::<
                    Seq<u8>,
                >::empty(),
        ensures
            r.inv(),
            self.umap().contains_key(r@.identifier),
            r@ == self.umap()[r@.identifier],
            r@.children == Set::<Seq<u8>>::empty(),
            r@ == best_parent_of(self.umap(), self.views(), self.majority, *own_id),
    {
        let ghost m = self.umap();
        proof {
            lemma_units_map_len(self.views());
        }
        // Pick up childless units.
        let mut cand: Vec<Unit> = Vec::new();
        let mut i: usize = 0;
        while i < self.units.len()
            invariant
                self.inv(),
                i <= self.units@.len(),
                unit_views(cand@) == childless_of(unit_views(self.units@).take(i as int)),
                forall|k: int|
                    0 <= k < cand@.len() ==> (#[trigger] cand@[k]).inv() && is_childless_unit(
                        cand@[k]@,
                    ),
                forall|k: int|
                    0 <= k < cand@.len() ==> exists|t: int|
                        0 <= t < self.units@.len() && (#[trigger] cand@[k])@ == self.units@[t]@,
                forall|j: int|
                    0 <= j < i && (#[trigger] self.units@[j])@.children == Set::<
                        Seq<u8>,
                    >::empty() ==> cand@.len() > 0,
            decreases self.units@.len() - i,
        {
            let ghost prefix = unit_views(self.units@).take(i as int);
            proof {
                assert(unit_views(self.units@).take(i + 1).drop_last() =~= prefix);
                assert(unit_views(self.units@).take(i + 1).last() == self.units@[i as int]@);
            }
            if self.units[i].is_childless() {
                let ghost prev = cand@;
                cand.push(self.units[i].duplicate());
                proof {
                    assert(unit_views(cand@) =~= unit_views(prev).push(self.units@[i as int]@));
                    assert(is_childless_unit(self.units@[i as int]@));
                    assert forall|k: int| 0 <= k < cand@.len() implies exists|t: int|
                        0 <= t < self.units@.len() && (#[trigger] cand@[k])@
                            == self.units@[t]@ by {
                        if k < prev.len() {
                            assert(cand@[k] == prev[k]);
                        } else {
                            assert(cand@[k]@ == self.units@[i as int]@);
                        }
                    }
                }
            } else {
                proof {
                    assert(!is_childless_unit(self.units@[i as int]@));
                }
            }
            i += 1;
        }
        let ghost c0v = unit_views(cand@);
        proof {
            assert(unit_views(self.units@).take(self.units@.len() as int) =~= unit_views(
                self.units@,
            ));
            assert(c0v == childless_of(self.views()));
            assert(cand@.len() > 0) by {
                let w = choose|w: int|
                    0 <= w < self.units@.len() && (#[trigger] self.units@[w])@.children == Set::<
                        Seq<u8>,
                    >::empty();
            }
        }
        if cand.len() == 1 {
            let r = cand[0].duplicate();
            proof {
                let t = choose|t: int|
                    0 <= t < self.units@.len() && (#[trigger] cand@[0])@ == self.units@[t]@;
                lemma_units_map_index(self.views(), t);
                assert(c0v[0] == cand@[0]@);
            }
            return r;
        }
        // Find the childless stable units.
        let mut st: Vec<Unit> = Vec::new();
        let mut k1: usize = 0;
        while k1 < cand.len()
            invariant
                self.inv(),
                k1 <= cand@.len(),
                c0v == unit_views(cand@),
                forall|k: int|
                    0 <= k < cand@.len() ==> (#[trigger] cand@[k]).inv() && is_childless_unit(
                        cand@[k]@,
                    ),
                forall|k: int|
                    0 <= k < cand@.len() ==> exists|t: int|
                        0 <= t < self.units@.len() && (#[trigger] cand@[k])@ == self.units@[t]@,
                unit_views(st@) == stable_of(c0v.take(k1 as int), self.majority),
                forall|k: int|
                    0 <= k < st@.len() ==> (#[trigger] st@[k]).inv() && is_childless_unit(
                        st@[k]@,
                    ),
                forall|k: int|
                    0 <= k < st@.len() ==> exists|t: int|
                        0 <= t < self.units@.len() && (#[trigger] st@[k])@ == self.units@[t]@,
            decreases cand@.len() - k1,
        {
            proof {
                assert(c0v.take(k1 + 1).drop_last() =~= c0v.take(k1 as int));
                assert(c0v.take(k1 + 1).last() == cand@[k1 as int]@);
                assert(cand@[k1 as int].inv());
                cand@[k1 as int].lemma_observer_count();
            }
            if cand[k1].observers.len() >= self.majority as usize {
                let ghost prev = st@;
                st.push(cand[k1].duplicate());
                proof {
                    assert(unit_views(st@) =~= unit_views(prev).push(cand@[k1 as int]@));
                    assert(is_stable(cand@[k1 as int]@, self.majority));
                    assert forall|k: int| 0 <= k < st@.len() implies exists|t: int|
                        0 <= t < self.units@.len() && (#[trigger] st@[k])@ == self.units@[t]@ by {
                        if k < prev.len() {
                            assert(st@[k] == prev[k]);
                        } else {
                            assert(st@[k]@ == cand@[k1 as int]@);
                            let t = choose|t: int|
                                0 <= t < self.units@.len() && (#[trigger] cand@[k1 as int])@
                                    == self.units@[t]@;
                        }
                    }
                }
            } else {
                proof {
                    assert(!is_stable(cand@[k1 as int]@, self.majority));
                }
            }
            k1 += 1;
        }
        proof {
            assert(c0v.take(c0v.len() as int) =~= c0v);
            assert(unit_views(st@) == stable_of(c0v, self.majority));
        }
        if st.len() == 1 {
            let r = st[0].duplicate();
            proof {
                let t = choose|t: int|
                    0 <= t < self.units@.len() && (#[trigger] st@[0])@ == self.units@[t]@;
                lemma_units_map_index(self.views(), t);
                assert(stable_of(c0v, self.majority)[0] == st@[0]@);
            }
            return r;
        }
        // Travel along the path from each childless unit towards genesis
        // and collect its score: the stable units along the path.
        let mut scores: Vec<usize> = Vec::new();
        let mut k2: usize = 0;
        while k2 < cand.len()
            invariant
                self.inv(),
                rooted(m),
                m == self.umap(),
                self.units@.len() < usize::MAX,
                k2 <= cand@.len(),
                scores@.len() == k2,
                c0v == unit_views(cand@),
                forall|k: int|
                    0 <= k < cand@.len() ==> (#[trigger] cand@[k]).inv() && is_childless_unit(
                        cand@[k]@,
                    ),
                forall|k: int|
                    0 <= k < cand@.len() ==> exists|t: int|
                        0 <= t < self.units@.len() && (#[trigger] cand@[k])@ == self.units@[t]@,
                forall|t: int|
                    0 <= t < k2 ==> scores@[t] == candidate_score(m, c0v[t], self.majority),
            decreases cand@.len() - k2,
        {
            proof {
                let t = choose|t: int|
                    0 <= t < self.units@.len() && (#[trigger] cand@[k2 as int])@
                        == self.units@[t]@;
                self.lemma_parent_walk_ends(t);
            }
            let sc = self.path_stable_count(&cand[k2].parent);
            scores.push(sc);
            proof {
                assert(scores@[k2 as int] == candidate_score(m, c0v[k2 as int], self.majority));
            }
            k2 += 1;
        }
        // Keep the childless units that have the most stable units along
        // their paths.
        let mut max_sc: usize = 0;
        let mut k3: usize = 0;
        while k3 < cand.len()
            invariant
                k3 <= cand@.len(),
                scores@.len() == cand@.len(),
                c0v == unit_views(cand@),
                forall|t: int|
                    0 <= t < cand@.len() ==> scores@[t] == candidate_score(
                        m,
                        c0v[t],
                        self.majority,
                    ),
                max_sc == max_score(m, c0v.take(k3 as int), self.majority),
                k3 > 0 ==> exists|t: int| 0 <= t < k3 && scores@[t] == max_sc,
            decreases cand@.len() - k3,
        {
            proof {
                assert(c0v.take(k3 + 1).drop_last() =~= c0v.take(k3 as int));
                assert(c0v.take(k3 + 1).last() == c0v[k3 as int]);
            }
            let sc = scores[k3];
            if sc > max_sc {
                max_sc = sc;
            }
            proof {
                assert(max_sc == max_score(m, c0v.take(k3 + 1), self.majority));
                assert(exists|t: int| 0 <= t < k3 + 1 && scores@[t] == max_sc) by {
                    if sc >= max_sc {
                        assert(scores@[k3 as int] == max_sc);
                    }
                }
            }
            k3 += 1;
        }
        let ghost target = max_score(m, c0v, self.majority);
        proof {
            assert(c0v.take(c0v.len() as int) =~= c0v);
            assert(max_sc == target);
        }
        let mut c1: Vec<Unit> = Vec::new();
        let mut k4: usize = 0;
        while k4 < cand.len()
            invariant
                self.inv(),
                k4 <= cand@.len(),
                scores@.len() == cand@.len(),
                c0v == unit_views(cand@),
                max_sc == target,
                forall|k: int|
                    0 <= k < cand@.len() ==> (#[trigger] cand@[k]).inv() && is_childless_unit(
                        cand@[k]@,
                    ),
                forall|k: int|
                    0 <= k < cand@.len() ==> exists|t: int|
                        0 <= t < self.units@.len() && (#[trigger] cand@[k])@ == self.units@[t]@,
                forall|t: int|
                    0 <= t < cand@.len() ==> scores@[t] == candidate_score(
                        m,
                        c0v[t],
                        self.majority,
                    ),
                unit_views(c1@) == with_score(m, c0v.take(k4 as int), self.majority, target),
                forall|k: int|
                    0 <= k < c1@.len() ==> (#[trigger] c1@[k]).inv() && is_childless_unit(
                        c1@[k]@,
                    ),
                forall|k: int|
                    0 <= k < c1@.len() ==> exists|t: int|
                        0 <= t < self.units@.len() && (#[trigger] c1@[k])@ == self.units@[t]@,
                (exists|t: int| 0 <= t < k4 && scores@[t] == max_sc) ==> c1@.len() > 0,
            decreases cand@.len() - k4,
        {
            proof {
                assert(c0v.take(k4 + 1).drop_last() =~= c0v.take(k4 as int));
                assert(c0v.take(k4 + 1).last() == cand@[k4 as int]@);
            }
            if scores[k4] == max_sc {
                let ghost prev = c1@;
                c1.push(cand[k4].duplicate());
                proof {
                    assert(unit_views(c1@) =~= unit_views(prev).push(cand@[k4 as int]@));
                    assert(candidate_score(m, c0v[k4 as int], self.majority) == target);
                    assert forall|k: int| 0 <= k < c1@.len() implies exists|t: int|
                        0 <= t < self.units@.len() && (#[trigger] c1@[k])@ == self.units@[t]@ by {
                        if k < prev.len() {
                            assert(c1@[k] == prev[k]);
                        } else {
                            assert(c1@[k]@ == cand@[k4 as int]@);
                            let t = choose|t: int|
                                0 <= t < self.units@.len() && (#[trigger] cand@[k4 as int])@
                                    == self.units@[t]@;
                        }
                    }
                }
            } else {
                proof {
                    assert(candidate_score(m, c0v[k4 as int], self.majority) != target);
                }
            }
            k4 += 1;
        }
        let ghost c1v = unit_views(c1@);
        proof {
            assert(c0v.take(c0v.len() as int) =~= c0v);
            assert(c1v == with_score(m, c0v, self.majority, target));
            assert(c1@.len() > 0);
        }
        if c1.len() == 1 {
            let r = c1[0].duplicate();
            proof {
                let t = choose|t: int|
                    0 <= t < self.units@.len() && (#[trigger] c1@[0])@ == self.units@[t]@;
                lemma_units_map_index(self.views(), t);
                assert(c1v[0] == c1@[0]@);
            }
            return r;
        }
        // Pick the candidates which this peer observed.
        let mut so: Vec<Unit> = Vec::new();
        let mut k5: usize = 0;
        while k5 < c1.len()
            invariant
                self.inv(),
                k5 <= c1@.len(),
                c1v == unit_views(c1@),
                forall|k: int|
                    0 <= k < c1@.len() ==> (#[trigger] c1@[k]).inv() && is_childless_unit(
                        c1@[k]@,
                    ),
                forall|k: int|
                    0 <= k < c1@.len() ==> exists|t: int|
                        0 <= t < self.units@.len() && (#[trigger] c1@[k])@ == self.units@[t]@,
                unit_views(so@) == observed_of(c1v.take(k5 as int), *own_id),
                forall|k: int|
                    0 <= k < so@.len() ==> (#[trigger] so@[k]).inv() && is_childless_unit(
                        so@[k]@,
                    ),
                forall|k: int|
                    0 <= k < so@.len() ==> exists|t: int|
                        0 <= t < self.units@.len() && (#[trigger] so@[k])@ == self.units@[t]@,
            decreases c1@.len() - k5,
        {
            proof {
                assert(c1v.take(k5 + 1).drop_last() =~= c1v.take(k5 as int));
                assert(c1v.take(k5 + 1).last() == c1@[k5 as int]@);
            }
            if observers_contain(&c1[k5].observers, own_id) {
                let ghost prev = so@;
                so.push(c1[k5].duplicate());
                proof {
                    assert(unit_views(so@) =~= unit_views(prev).push(c1@[k5 as int]@));
                    assert(c1@[k5 as int]@.observers.contains(*own_id));
                    assert forall|k: int| 0 <= k < so@.len() implies exists|t: int|
                        0 <= t < self.units@.len() && (#[trigger] so@[k])@ == self.units@[t]@ by {
                        if k < prev.len() {
                            assert(so@[k] == prev[k]);
                        } else {
                            assert(so@[k]@ == c1@[k5 as int]@);
                            let t = choose|t: int|
                                0 <= t < self.units@.len() && (#[trigger] c1@[k5 as int])@
                                    == self.units@[t]@;
                        }
                    }
                }
            } else {
                proof {
                    assert(!c1@[k5 as int]@.observers.contains(*own_id));
                }
            }
            k5 += 1;
        }
        proof {
            assert(c1v.take(c1v.len() as int) =~= c1v);
            assert(unit_views(so@) == observed_of(c1v, *own_id));
        }
        if so.len() == 1 {
            let r = so[0].duplicate();
            proof {
                let t = choose|t: int|
                    0 <= t < self.units@.len() && (#[trigger] so@[0])@ == self.units@[t]@;
                lemma_units_map_index(self.views(), t);
                assert(observed_of(c1v, *own_id)[0] == so@[0]@);
            }
            return r;
        }
        // Pick the candidates which have the most observers.
        let mut max_vt: usize = 0;
        let mut k6: usize = 0;
        while k6 < c1.len()
            invariant
                self.inv(),
                k6 <= c1@.len(),
                c1v == unit_views(c1@),
                forall|k: int|
                    0 <= k < c1@.len() ==> (#[trigger] c1@[k]).inv() && is_childless_unit(
                        c1@[k]@,
                    ),
                max_vt == max_votes(c1v.take(k6 as int)),
                k6 > 0 ==> exists|t: int|
                    0 <= t < k6 && c1v[t].observers.len() == max_vt,
            decreases c1@.len() - k6,
        {
            proof {
                assert(c1v.take(k6 + 1).drop_last() =~= c1v.take(k6 as int));
                assert(c1v.take(k6 + 1).last() == c1@[k6 as int]@);
                assert(c1@[k6 as int].inv());
                c1@[k6 as int].lemma_observer_count();
            }
            let vt = c1[k6].observers.len();
            if vt > max_vt {
                max_vt = vt;
            }
            proof {
                assert(max_vt == max_votes(c1v.take(k6 + 1)));
                assert(exists|t: int| 0 <= t < k6 + 1 && c1v[t].observers.len() == max_vt) by {
                    if vt >= max_vt {
                        assert(c1v[k6 as int].observers.len() == max_vt);
                    }
                }
            }
            k6 += 1;
        }
        let ghost vtarget = max_votes(c1v);
        proof {
            assert(c1v.take(c1v.len() as int) =~= c1v);
            assert(max_vt == vtarget);
        }
        let mut mv: Vec<Unit> = Vec::new();
        let mut k7: usize = 0;
        while k7 < c1.len()
            invariant
                self.inv(),
                k7 <= c1@.len(),
                c1v == unit_views(c1@),
                max_vt == vtarget,
                forall|k: int|
                    0 <= k < c1@.len() ==> (#[trigger] c1@[k]).inv() && is_childless_unit(
                        c1@[k]@,
                    ),
                forall|k: int|
                    0 <= k < c1@.len() ==> exists|t: int|
                        0 <= t < self.units@.len() && (#[trigger] c1@[k])@ == self.units@[t]@,
                unit_views(mv@) == with_votes(c1v.take(k7 as int), vtarget),
                forall|k: int|
                    0 <= k < mv@.len() ==> (#[trigger] mv@[k]).inv() && is_childless_unit(
                        mv@[k]@,
                    ),
                forall|k: int|
                    0 <= k < mv@.len() ==> exists|t: int|
                        0 <= t < self.units@.len() && (#[trigger] mv@[k])@ == self.units@[t]@,
                (exists|t: int| 0 <= t < k7 && c1v[t].observers.len() == vtarget) ==> mv@.len()
                    > 0,
            decreases c1@.len() - k7,
        {
            proof {
                assert(c1v.take(k7 + 1).drop_last() =~= c1v.take(k7 as int));
                assert(c1v.take(k7 + 1).last() == c1@[k7 as int]@);
                assert(c1@[k7 as int].inv());
                c1@[k7 as int].lemma_observer_count();
            }
            if c1[k7].observers.len() == max_vt {
                let ghost prev = mv@;
                mv.push(c1[k7].duplicate());
                proof {
                    assert(unit_views(mv@) =~= unit_views(prev).push(c1@[k7 as int]@));
                    assert(c1v[k7 as int].observers.len() == vtarget);
                    assert forall|k: int| 0 <= k < mv@.len() implies exists|t: int|
                        0 <= t < self.units@.len() && (#[trigger] mv@[k])@ == self.units@[t]@ by {
                        if k < prev.len() {
                            assert(mv@[k] == prev[k]);
                        } else {
                            assert(mv@[k]@ == c1@[k7 as int]@);
                            let t = choose|t: int|
                                0 <= t < self.units@.len() && (#[trigger] c1@[k7 as int])@
                                    == self.units@[t]@;
                        }
                    }
                }
            } else {
                proof {
                    assert(c1v[k7 as int].observers.len() != vtarget);
                }
            }
            k7 += 1;
        }
        let ghost mvv = unit_views(mv@);
        proof {
            assert(c1v.take(c1v.len() as int) =~= c1v);
            assert(mvv == with_votes(c1v, vtarget));
            assert(mv@.len() > 0);
        }
        // Deterministic name order: the lexicographically greatest
        // identifier.
        let mut best: Unit = mv[0].duplicate();
        let mut k8: usize = 1;
        proof {
            assert(mvv.skip(1).skip(0) =~= mvv.skip(1));
        }
        while k8 < mv.len()
            invariant
                self.inv(),
                1 <= k8 <= mv@.len(),
                mvv == unit_views(mv@),
                mv@.len() > 0,
                forall|k: int|
                    0 <= k < mv@.len() ==> (#[trigger] mv@[k]).inv() && is_childless_unit(
                        mv@[k]@,
                    ),
                forall|k: int|
                    0 <= k < mv@.len() ==> exists|t: int|
                        0 <= t < self.units@.len() && (#[trigger] mv@[k])@ == self.units@[t]@,
                best.inv(),
                is_childless_unit(best@),
                exists|k: int| 0 <= k < k8 && best@ == (#[trigger] mv@[k])@,
                lex_max_from(mvv.skip(1), mvv[0]) == lex_max_from(mvv.skip(k8 as int), best@),
            decreases mv@.len() - k8,
        {
            proof {
                assert(mvv.skip(k8 as int)[0] == mv@[k8 as int]@);
                assert(mvv.skip(k8 as int).skip(1) =~= mvv.skip(k8 + 1));
            }
            if crate::bytes::bytes_lt(&best.identifier, &mv[k8].identifier) {
                best = mv[k8].duplicate();
            }
            k8 += 1;
        }
        proof {
            assert(mvv.skip(mvv.len() as int).len() == 0);
            assert(best@ == lex_max_from(mvv.skip(1), mvv[0]));
            let k = choose|k: int| 0 <= k < mv@.len() && best@ == (#[trigger] mv@[k])@;
            let t = choose|t: int|
                0 <= t < self.units@.len() && (#[trigger] mv@[k])@ == self.units@[t]@;
            lemma_units_map_index(self.views(), t);
        }
        best
    }

    /// A new event being observed: pick the best parent; if its path back
    /// to genesis already holds this payload, only add this peer to that
    /// unit's observers; otherwise create a new unit under the best parent.
    /// The final state is exactly `extend_with` for the chosen childless
    /// parent, and the DAG stays rooted.
    #[verifier::rlimit(100)]
    pub fn new_payload(&mut self, payload: Vec<u8>, own_id: &Id)
        requires
            old(self).inv(),
            rooted(old(self).umap()),
            old(self).units@.len() < usize::MAX,
            exists|i: int|
                0 <= i < old(self).units@.len() && (#[trigger] old(self).units@[i])@.children
                    == Set::<Seq<u8>>::empty(),
        ensures
            final(self).inv(),
            rooted(final(self).umap()),
            final(self).genesis_identifier@ == old(self).genesis_identifier@,
            final(self).majority == old(self).majority,
            old(self).units@.len() <= final(self).units@.len() <= old(self).units@.len() + 1,
            forall|i: int|
                0 <= i < old(self).units@.len() ==> {
                    let u0 = (#[trigger] old(self).units@[i])@;
                    let u1 = final(self).units@[i]@;
                    u1.identifier == u0.identifier && u1.parent == u0.parent && u1.payload
                        == u0.payload && u0.observers.subset_of(u1.observers)
                        && u0.children.subset_of(u1.children)
                },
            ({
                let bp = best_parent_of(
                    old(self).umap(),
                    old(self).views(),
                    old(self).majority,
                    *own_id,
                ).identifier;
                &&& old(self).umap().contains_key(bp)
                &&& old(self).umap()[bp].children == Set::<Seq<u8>>::empty()
                &&& final(self).umap() == extend_with(old(self).umap(), bp, payload@, *own_id)
                &&& ((observed_in(old(self).umap(), bp, payload@) is Some) || !old(
                    self,
                ).umap().contains_key(
                    unit_id_of(old(self).umap()[bp].payload, payload@),
                )) ==> exists|i: int|
                    0 <= i < final(self).units@.len()
                        && (#[trigger] final(self).units@[i])@.children == Set::<
                        Seq<u8>,
                    >::empty()
            }),
    {
        let ghost m0 = self.umap();
        let parent = self.get_best_parent(own_id);
        let ghost bp = parent@.identifier;
        proof {
            lemma_units_map_len(self.views());
        }
        // In case the payload was already seen on this path, only add this
        // peer as an observer of the unit that holds it.
        match self.has_observed_in(&parent.identifier, &payload) {
            Some(i) => {
                let ghost before = self.units@;
                let mut taken = self.units.remove(i);
                taken.add_observer(own_id);
                self.units.insert(i, taken);
                proof {
                    lemma_units_map_index(unit_views(before), i as int);
                    lemma_remove_insert(before, self.units@, i as int, self.units@[i as int]);
                    assert(unit_views(self.units@) =~= unit_views(before).update(
                        i as int,
                        self.units@[i as int]@,
                    ));
                    lemma_units_map_update(unit_views(before), i as int, self.units@[i as int]@);
                    assert(unit_views(before)[i as int] == before[i as int]@);
                    assert(self.units@[i as int]@.observers =~= before[i as int]@.observers
                        + Set::<Id>::empty().insert(*own_id));
                    assert(self.units@[i as int]@ == absorb_observers(
                        m0[before[i as int]@.identifier],
                        Set::<Id>::empty().insert(*own_id),
                    ));
                    assert(self.umap() == extend_with(m0, bp, payload@, *own_id));
                    lemma_inv_update(self, before, i as int);
                    assert(self.umap().dom() =~= m0.dom());
                    lemma_rooted_same_shape(m0, self.umap());
                    let w = choose|w: int|
                        0 <= w < old(self).units@.len() && (#[trigger] old(
                            self,
                        ).units@[w])@.children == Set::<Seq<u8>>::empty();
                    assert(self.units@[w]@.children == Set::<Seq<u8>>::empty());
                }
                return ;
            },
            None => {},
        }
        let mut observers: Vec<Id> = Vec::new();
        observers.push(*own_id);
        let unit = Unit::new(parent.duplicate(), payload, observers);
        let unit_identifier = copy_bytes(&unit.identifier);
        let ghost nid = unit@.identifier;
        proof {
            assert(unit@.observers =~= Set::<Id>::empty().insert(*own_id));
        }
        match self.find_unit(&parent.identifier) {
            Some(pi) => {
                let ghost before = self.units@;
                let mut taken = self.units.remove(pi);
                taken.add_child(copy_bytes(&unit_identifier));
                self.units.insert(pi, taken);
                proof {
                    lemma_units_map_index(unit_views(before), pi as int);
                    lemma_remove_insert(before, self.units@, pi as int, self.units@[pi as int]);
                    assert(unit_views(self.units@) =~= unit_views(before).update(
                        pi as int,
                        self.units@[pi as int]@,
                    ));
                    lemma_units_map_update(unit_views(before), pi as int, self.units@[pi as int]@);
                    assert(unit_views(before)[pi as int] == before[pi as int]@);
                    assert(before[pi as int]@ == m0[bp]);
                    assert(self.units@[pi as int]@.children == m0[bp].children.insert(nid));
                    lemma_inv_update(self, before, pi as int);
                }
            },
            None => {
                proof {
                    lemma_units_map_contains(self.views(), parent@.identifier);
                    let w = choose|w: int|
                        0 <= w < self.views().len() && self.views()[w].identifier
                            == parent@.identifier;
                    assert(self.units@[w]@.identifier == parent@.identifier);
                    assert(false);
                }
                return ;
            },
        }
        let ghost m1 = self.umap();
        proof {
            assert(m1 == m0.insert(
                bp,
                UnitView {
                    identifier: m0[bp].identifier,
                    parent: m0[bp].parent,
                    payload: m0[bp].payload,
                    observers: m0[bp].observers,
                    children: m0[bp].children.insert(nid),
                },
            ));
            assert(m1.dom() =~= m0.dom());
        }
        match self.find_unit(&unit_identifier) {
            Some(ni) => {
                // Defensive: the same event may already sit under the same
                // parent; union the two units.
                let ghost before = self.units@;
                let mut taken = self.units.remove(ni);
                taken.union(&unit);
                self.units.insert(ni, taken);
                proof {
                    lemma_units_map_index(unit_views(before), ni as int);
                    lemma_remove_insert(before, self.units@, ni as int, self.units@[ni as int]);
                    assert(unit_views(self.units@) =~= unit_views(before).update(
                        ni as int,
                        self.units@[ni as int]@,
                    ));
                    lemma_units_map_update(unit_views(before), ni as int, self.units@[ni as int]@);
                    assert(unit_views(before)[ni as int] == before[ni as int]@);
                    assert(before[ni as int]@ == m1[nid]);
                    assert(self.units@[ni as int]@.observers =~= m1[nid].observers + Set::<
                        Id,
                    >::empty().insert(*own_id));
                    assert(self.units@[ni as int]@.children =~= m1[nid].children);
                    assert(self.units@[ni as int]@ == absorb_observers(
                        m1[nid],
                        Set::<Id>::empty().insert(*own_id),
                    ));
                    assert(self.umap() == extend_with(m0, bp, payload@, *own_id));
                    lemma_inv_update(self, before, ni as int);
                    assert(self.umap().dom() =~= m0.dom());
                    lemma_rooted_same_shape(m0, self.umap());
                }
            },
            None => {
                let ghost before = self.units@;
                self.units.push(unit);
                proof {
                    assert(unit_views(self.units@) =~= unit_views(before).push(
                        self.units@[before.len() as int]@,
                    ));
                    lemma_units_map_push(unit_views(before), self.units@[before.len() as int]@);
                    assert(!m1.contains_key(nid)) by {
                        lemma_units_map_contains(unit_views(before), nid);
                        if m1.contains_key(nid) {
                            let w = choose|w: int|
                                0 <= w < unit_views(before).len() && unit_views(
                                    before,
                                )[w].identifier == nid;
                            assert(before[w]@.identifier == nid);
                        }
                    }
                    assert(self.units@[before.len() as int]@ == (UnitView {
                        identifier: nid,
                        parent: bp,
                        payload: self.units@[before.len() as int]@.payload,
                        observers: Set::<Id>::empty().insert(*own_id),
                        children: Set::<Seq<u8>>::empty(),
                    }));
                    assert(self.umap() == extend_with(m0, bp, payload@, *own_id));
                    assert(self.units@[before.len() as int]@.identifier.len() == 32);
                    assert(parent.inv());
                    assert(self.units@[before.len() as int]@.parent != sentinel());
                    assert(self.units@[before.len() as int]@.identifier
                        != genesis_identifier()) by {
                        let g = choose|g: int|
                            0 <= g < before.len() && (#[trigger] before[g])@.identifier
                                == genesis_identifier() && before[g]@.parent == sentinel()
                                && before[g]@.payload == sentinel();
                        assert(before[g]@.identifier == genesis_identifier());
                    }
                    assert forall|t: int|
                        0 <= t < before.len() implies (#[trigger] before[t])@.identifier
                        != self.units@[before.len() as int]@.identifier by {
                        assert(self.units@[t] == before[t]);
                    }
                    lemma_inv_push(self, before);
                    assert(self.umap() == m1.insert(nid, self.umap()[nid]));
                    lemma_units_map_len(unit_views(before));
                    assert(self.umap()[nid].parent == bp);
                    lemma_rooted_insert_fresh(m0, m1, nid, self.umap()[nid]);
                    assert(self.units@[before.len() as int]@.children == Set::<Seq<u8>>::empty());
                }
            },
        }
    }

    /// Whether some unit is childless, so a further event can be placed.
    pub fn has_childless(&self) -> (r: bool)
        ensures
            r == exists|i: int|
                0 <= i < self.units@.len() && (#[trigger] self.units@[i])@.children == Set::<
                    Seq<u8>,
                >::empty(),
    {
        let mut i: usize = 0;
        while i < self.units.len()
            invariant
                i <= self.units@.len(),
                forall|j: int|
                    0 <= j < i ==> (#[trigger] self.units@[j])@.children != Set::<
                        Seq<u8>,
                    >::empty(),
            decreases self.units@.len() - i,
        {
            if self.units[i].is_childless() {
                return true;
            }
            i += 1;
        }
        false
    }

    /// Whether every unit's parent chain reaches genesis within as many
    /// hops as there are units: the well-formedness the walks need.
    pub fn is_rooted(&self) -> (r: bool)
        requires
            self.inv(),
        ensures
            r == rooted(self.umap()),
    {
        let ghost m = self.umap();
        proof {
            lemma_units_map_len(self.views());
        }
        let mut i: usize = 0;
        while i < self.units.len()
            invariant
                self.inv(),
                m == self.umap(),
                m.len() == self.units@.len(),
                i <= self.units@.len(),
                forall|t: int|
                    0 <= t < i ==> reaches_genesis(
                        m,
                        (#[trigger] self.units@[t])@.identifier,
                        m.len(),
                    ),
            decreases self.units@.len() - i,
        {
            let ghost id0 = self.units@[i as int]@.identifier;
            proof {
                lemma_units_map_index(self.views(), i as int);
            }
            let mut cur: Vec<u8> = copy_bytes(&self.units[i].identifier);
            let mut steps: usize = 0;
            loop
                invariant
                    self.inv(),
                    m == self.umap(),
                    m.len() == self.units@.len(),
                    i < self.units@.len(),
                    id0 == self.units@[i as int]@.identifier,
                    steps <= m.len(),
                    reaches_genesis(m, id0, m.len()) == reaches_genesis(
                        m,
                        cur@,
                        (m.len() - steps) as nat,
                    ),
                    m.contains_key(id0),
                ensures
                    reaches_genesis(m, id0, m.len()),
                decreases m.len() - steps,
            {
                match self.find_unit(&cur) {
                    None => {
                        proof {
                            lemma_units_map_contains(self.views(), cur@);
                            assert(!m.contains_key(cur@)) by {
                                if m.contains_key(cur@) {
                                    let w = choose|w: int|
                                        0 <= w < self.views().len() && self.views()[w].identifier
                                            == cur@;
                                    assert(self.units@[w]@.identifier == cur@);
                                }
                            }
                            assert(!reaches_genesis(m, id0, m.len()));
                        }
                        return false;
                    },
                    Some(t) => {
                        proof {
                            lemma_units_map_index(self.views(), t as int);
                            assert(m.contains_key(cur@));
                            assert(m[cur@] == self.units@[t as int]@);
                        }
                        if bytes_eq(&self.units[t].identifier, &self.genesis_identifier) {
                            proof {
                                assert(cur@ == genesis_identifier());
                                assert(reaches_genesis(m, cur@, (m.len() - steps) as nat));
                            }
                            break ;
                        }
                        if steps == self.units.len() {
                            proof {
                                assert(m.len() - steps == 0);
                                assert(!reaches_genesis(m, id0, m.len()));
                            }
                            return false;
                        }
                        let next = copy_bytes(&self.units[t].parent);
                        proof {
                            assert(next@ == m[cur@].parent);
                        }
                        cur = next;
                        steps += 1;
                    },
                }
            }
            i += 1;
        }
        proof {
            assert forall|id: Seq<u8>| #[trigger] m.contains_key(id) implies reaches_genesis(
                m,
                id,
                m.len(),
            ) by {
                lemma_units_map_contains(self.views(), id);
                let t = choose|t: int|
                    0 <= t < self.views().len() && self.views()[t].identifier == id;
                assert(self.units@[t]@.identifier == id);
            }
        }
        true
    }

    /// Whether this DAG passes the well-formedness checks: unique 32-byte
    /// identifiers, duplicate-free observer and child lists, the cached
    /// genesis identifier, a genesis unit, and the sentinel parent marking
    /// exactly the genesis unit. A message that fails this check is to be
    /// dropped by the shell.
    pub fn is_well_formed(&self) -> (r: bool)
        ensures
            r ==> self.inv(),
    {
        let sentinel_vec = crate::digest::sentinel_bytes();
        let genesis_id = crate::digest::compute_unit_id(&sentinel_vec, &sentinel_vec);
        if !bytes_eq(&self.genesis_identifier, &genesis_id) {
            return false;
        }
        let mut genesis_seen = false;
        let ghost mut genesis_at: int = 0;
        let mut i: usize = 0;
        while i < self.units.len()
            invariant
                self.genesis_identifier@ == genesis_identifier(),
                sentinel_vec@ == sentinel(),
                i <= self.units@.len(),
                forall|t: int| 0 <= t < i ==> (#[trigger] self.units@[t]).inv(),
                forall|t: int|
                    0 <= t < i ==> (((#[trigger] self.units@[t])@.identifier
                        == genesis_identifier()) <==> (self.units@[t]@.parent == sentinel())),
                genesis_seen ==> 0 <= genesis_at < i
                    && self.units@[genesis_at]@.identifier == genesis_identifier()
                    && self.units@[genesis_at]@.parent == sentinel()
                    && self.units@[genesis_at]@.payload == sentinel(),
                forall|a: int, b: int|
                    0 <= a < b < i ==> (#[trigger] self.units@[a])@.identifier != (
                    #[trigger] self.units@[b])@.identifier,
            decreases self.units@.len() - i,
        {
            let u = &self.units[i];
            if u.identifier.len() != 32 {
                return false;
            }
            if !ids_distinct(&u.observers) {
                return false;
            }
            if !byte_vecs_distinct(&u.children) {
                return false;
            }
            let is_genesis = bytes_eq(&u.identifier, &self.genesis_identifier);
            let parent_sentinel = bytes_eq(&u.parent, &sentinel_vec);
            if is_genesis != parent_sentinel {
                return false;
            }
            if is_genesis {
                if !bytes_eq(&u.payload, &sentinel_vec) {
                    return false;
                }
                genesis_seen = true;
                proof {
                    genesis_at = i as int;
                }
            }
            let mut b: usize = 0;
            while b < i
                invariant
                    i < self.units@.len(),
                    b <= i,
                    forall|t: int|
                        0 <= t < b ==> (#[trigger] self.units@[t])@.identifier
                            != self.units@[i as int]@.identifier,
                decreases i - b,
            {
                if bytes_eq(&self.units[b].identifier, &self.units[i].identifier) {
                    return false;
                }
                b += 1;
            }
            proof {
                assert(self.units@[i as int].inv());
                assert((self.units@[i as int]@.identifier == genesis_identifier()) <==> (
                self.units@[i as int]@.parent == sentinel()));
            }
            i += 1;
        }
        if !genesis_seen {
            return false;
        }
        proof {
            assert(ids_unique(self.views())) by {
                assert(forall|a: int, b: int|
                    0 <= a < b < self.views().len() ==> self.views()[a].identifier
                        == (#[trigger] self.units@[a])@.identifier && self.views()[b].identifier
                        == (#[trigger] self.units@[b])@.identifier);
            }
            assert(self.units@[genesis_at]@.identifier == genesis_identifier());
        }
        true
    }

    /// Copy this DAG unit by unit.
    pub fn duplicate(&self) -> (r: Dag)
        ensures
            r.units@.len() == self.units@.len(),
            forall|i: int|
                0 <= i < self.units@.len() ==> (#[trigger] r.units@[i])@ == self.units@[i]@,
            r.genesis_identifier@ == self.genesis_identifier@,
            r.majority == self.majority,
            self.inv() ==> r.inv(),
    {
        let mut units: Vec<Unit> = Vec::new();
        let mut i: usize = 0;
        while i < self.units.len()
            invariant
                i <= self.units@.len(),
                units@.len() == i,
                forall|k: int|
                    0 <= k < i ==> (#[trigger] units@[k])@ == self.units@[k]@ && (self.units@[k].inv()
                        ==> units@[k].inv()),
            decreases self.units@.len() - i,
        {
            units.push(self.units[i].duplicate());
            i += 1;
        }
        let r = Dag {
            units,
            genesis_identifier: copy_bytes(&self.genesis_identifier),
            majority: self.majority,
        };
        proof {
            if self.inv() {
                assert forall|a: int, b: int|
                    0 <= a < b < r.views().len() implies r.views()[a].identifier
                    != r.views()[b].identifier by {
                    assert(r.units@[a]@ == self.units@[a]@);
                    assert(r.units@[b]@ == self.units@[b]@);
                    assert(self.views()[a].identifier == self.units@[a]@.identifier);
                    assert(self.views()[b].identifier == self.units@[b]@.identifier);
                }
                let g = choose|g: int|
                    0 <= g < self.units@.len() && (#[trigger] self.units@[g])@.identifier
                        == genesis_identifier() && self.units@[g]@.parent == sentinel()
                        && self.units@[g]@.payload == sentinel();
                assert(r.units@[g]@.identifier == genesis_identifier());
            }
        }
        r
    }

    /// Union with the other DAG: a unit already known is unioned with its
    /// counterpart; a unit whose payload already sits on the local path above
    /// its parent only contributes its observers to that unit; any other
    /// unit is inserted. Afterwards, child links already known locally are
    /// reconciled into the local units. The final state is exactly the merge
    /// pass followed by the reconciliation pass.
    #[verifier::rlimit(100)]
    pub fn union(&mut self, other: &Dag)
        requires
            old(self).inv(),
            other.inv(),
        ensures
            final(self).inv(),
            final(self).genesis_identifier@ == old(self).genesis_identifier@,
            final(self).majority == old(self).majority,
            final(self).units@.len() >= old(self).units@.len(),
            forall|i: int|
                0 <= i < old(self).units@.len() ==> {
                    let u0 = (#[trigger] old(self).units@[i])@;
                    let u1 = final(self).units@[i]@;
                    u1.identifier == u0.identifier && u1.parent == u0.parent && u1.payload
                        == u0.payload && u0.observers.subset_of(u1.observers)
                        && u0.children.subset_of(u1.children)
                },
            final(self).umap() == merged_with(old(self).umap(), unit_views(other.units@)),
            forall|id: Seq<u8>| #[trigger]
                final(self).umap().contains_key(id) ==> old(self).umap().contains_key(id)
                    || exists|k: int|
                    0 <= k < other.units@.len() && other.units@[k]@.identifier == id,
    {
        let ghost orig = *old(self);
        let ghost os = unit_views(other.units@);
        let mut j: usize = 0;
        while j < other.units.len()
            invariant
                other.inv(),
                self.inv(),
                j <= other.units@.len(),
                os == unit_views(other.units@),
                self.genesis_identifier@ == orig.genesis_identifier@,
                self.majority == orig.majority,
                self.units@.len() >= orig.units@.len(),
                forall|i: int|
                    0 <= i < orig.units@.len() ==> {
                        let u0 = (#[trigger] orig.units@[i])@;
                        let u1 = self.units@[i]@;
                        u1.identifier == u0.identifier && u1.parent == u0.parent && u1.payload
                            == u0.payload && u0.observers.subset_of(u1.observers)
                            && u0.children.subset_of(u1.children)
                    },
                self.umap() == merge_pass(orig.umap(), os.take(j as int)),
            decreases other.units@.len() - j,
        {
            let other_unit = &other.units[j];
            let ghost mpre = self.umap();
            proof {
                assert(other.units@[j as int].inv());
                lemma_merge_pass_snoc(orig.umap(), os, j as int);
                assert(os[j as int] == other.units@[j as int]@);
            }
            match self.find_unit(&other_unit.identifier) {
                Some(i) => {
                    // Already known: union the two units.
                    proof {
                        lemma_units_map_index(self.views(), i as int);
                        assert(mpre.contains_key(os[j as int].identifier));
                        assert(mpre[os[j as int].identifier] == self.units@[i as int]@);
                    }
                    let ghost before = self.units@;
                    let copied = other_unit.duplicate();
                    let mut taken = self.units.remove(i);
                    taken.union(&copied);
                    self.units.insert(i, taken);
                    proof {
                        lemma_remove_insert(before, self.units@, i as int, self.units@[i as int]);
                        assert(unit_views(self.units@) =~= unit_views(before).update(
                            i as int,
                            self.units@[i as int]@,
                        ));
                        lemma_units_map_update(
                            unit_views(before),
                            i as int,
                            self.units@[i as int]@,
                        );
                        assert(unit_views(before)[i as int] == before[i as int]@);
                        assert(self.units@[i as int]@ == unit_union_view(
                            before[i as int]@,
                            os[j as int],
                        ));
                        assert(self.umap() == merge_step(mpre, os[j as int]));
                        lemma_inv_update(self, before, i as int);
                    }
                },
                None => {
                    proof {
                        lemma_units_map_contains(self.views(), os[j as int].identifier);
                        assert(!mpre.contains_key(os[j as int].identifier)) by {
                            if mpre.contains_key(os[j as int].identifier) {
                                let w = choose|w: int|
                                    0 <= w < self.views().len() && self.views()[w].identifier
                                        == os[j as int].identifier;
                                assert(self.units@[w]@.identifier == os[j as int].identifier);
                            }
                        }
                    }
                    // If the payload was already observed along the path the
                    // other unit sits on, only union the observers.
                    match self.has_observed_in(&other_unit.parent, &other_unit.payload) {
                        Some(v) => {
                            proof {
                                lemma_units_map_index(self.views(), v as int);
                            }
                            let ghost before = self.units@;
                            let mut taken = self.units.remove(v);
                            let mut oi: usize = 0;
                            while oi < other_unit.observers.len()
                                invariant
                                    taken.inv(),
                                    oi <= other_unit.observers@.len(),
                                    taken.identifier@ == before[v as int].identifier@,
                                    taken.parent@ == before[v as int].parent@,
                                    taken.payload@ == before[v as int].payload@,
                                    taken.children@ == before[v as int].children@,
                                    taken@.observers == before[v as int]@.observers
                                        + other_unit.observers@.take(oi as int).to_set(),
                                    before[v as int].inv(),
                                decreases other_unit.observers@.len() - oi,
                            {
                                let x = other_unit.observers[oi];
                                proof {
                                    assert(other_unit.observers@.take(oi + 1).drop_last()
                                        =~= other_unit.observers@.take(oi as int));
                                    assert(other_unit.observers@.take(oi + 1).last() == x);
                                    assert(other_unit.observers@.take(oi + 1).to_set()
                                        =~= other_unit.observers@.take(oi as int).to_set().insert(
                                        x,
                                    ));
                                }
                                taken.add_observer(&other_unit.observers[oi]);
                                proof {
                                    assert(taken@.observers =~= before[v as int]@.observers
                                        + other_unit.observers@.take(oi + 1).to_set());
                                }
                                oi += 1;
                            }
                            self.units.insert(v, taken);
                            proof {
                                assert(other_unit.observers@.take(
                                    other_unit.observers@.len() as int,
                                ) =~= other_unit.observers@);
                                lemma_remove_insert(
                                    before,
                                    self.units@,
                                    v as int,
                                    self.units@[v as int],
                                );
                                assert(unit_views(self.units@) =~= unit_views(before).update(
                                    v as int,
                                    self.units@[v as int]@,
                                ));
                                lemma_units_map_update(
                                    unit_views(before),
                                    v as int,
                                    self.units@[v as int]@,
                                );
                                assert(unit_views(before)[v as int] == before[v as int]@);
                                assert(self.units@[v as int]@ == absorb_observers(
                                    mpre[before[v as int]@.identifier],
                                    os[j as int].observers,
                                ));
                                assert(observed_in(
                                    mpre,
                                    os[j as int].parent,
                                    os[j as int].payload,
                                ) == Some(before[v as int]@.identifier));
                                assert(self.umap() == merge_step(mpre, os[j as int]));
                                lemma_inv_update(self, before, v as int);
                            }
                        },
                        None => {
                            // Unknown unit: insert a copy.
                            let ghost before = self.units@;
                            let copied = other_unit.duplicate();
                            self.units.push(copied);
                            proof {
                                assert(unit_views(self.units@) =~= unit_views(before).push(
                                    os[j as int],
                                ));
                                lemma_units_map_push(unit_views(before), os[j as int]);
                                assert(self.umap() == merge_step(mpre, os[j as int]));
                                assert forall|t: int|
                                    0 <= t < before.len() implies (#[trigger] before[t])@.identifier
                                    != self.units@[before.len() as int]@.identifier by {
                                    assert(self.units@[t] == before[t]);
                                }
                                lemma_inv_push(self, before);
                            }
                        },
                    }
                },
            }
            j += 1;
        }
        proof {
            assert(os.take(os.len() as int) =~= os);
            assert(self.umap() == merge_pass(orig.umap(), os));
        }
        let ghost mid = self.umap();
        // Collect every identifier recorded locally as someone's child.
        let mut known: Vec<Vec<u8>> = Vec::new();
        let mut i: usize = 0;
        while i < self.units.len()
            invariant
                self.inv(),
                i <= self.units@.len(),
                forall|c: Seq<u8>| #[trigger]
                    crate::unit::views_of(known@).contains(c) <==> exists|t: int|
                        0 <= t < i && (#[trigger] self.units@[t])@.children.contains(c),
            decreases self.units@.len() - i,
        {
            let mut c: usize = 0;
            let n = self.units[i].children.len();
            while c < n
                invariant
                    self.inv(),
                    i < self.units@.len(),
                    n == self.units@[i as int].children@.len(),
                    c <= n,
                    forall|x: Seq<u8>| #[trigger]
                        crate::unit::views_of(known@).contains(x) <==> (exists|t: int|
                            0 <= t < i && (#[trigger] self.units@[t])@.children.contains(x))
                            || crate::unit::views_of(
                            self.units@[i as int].children@,
                        ).take(c as int).contains(x),
                decreases n - c,
            {
                let ghost prev = known@;
                known.push(copy_bytes(&self.units[i].children[c]));
                proof {
                    assert(crate::unit::views_of(known@) =~= crate::unit::views_of(prev).push(
                        self.units@[i as int].children@[c as int]@,
                    ));
                    assert(crate::unit::views_of(self.units@[i as int].children@).take(c + 1)
                        =~= crate::unit::views_of(self.units@[i as int].children@).take(
                        c as int,
                    ).push(self.units@[i as int].children@[c as int]@));
                }
                c += 1;
            }
            proof {
                assert(crate::unit::views_of(self.units@[i as int].children@).take(n as int)
                    =~= crate::unit::views_of(self.units@[i as int].children@));
                assert forall|x: Seq<u8>| #[trigger]
                    crate::unit::views_of(known@).contains(x) <==> (exists|t: int|
                        0 <= t < i + 1 && (#[trigger] self.units@[t])@.children.contains(
                            x,
                        )) by {
                    if crate::unit::views_of(known@).contains(x) {
                        if !(exists|t: int|
                            0 <= t < i && self.units@[t]@.children.contains(x)) {
                            assert(crate::unit::views_of(
                                self.units@[i as int].children@,
                            ).contains(x));
                            assert(self.units@[i as int]@.children.contains(x));
                        }
                    }
                    if exists|t: int|
                        0 <= t < i + 1 && (#[trigger] self.units@[t])@.children.contains(x) {
                        let t = choose|t: int|
                            0 <= t < i + 1 && (#[trigger] self.units@[t])@.children.contains(x);
                        if t == i {
                            assert(crate::unit::views_of(
                                self.units@[i as int].children@,
                            ).contains(x));
                        }
                    }
                }
            }
            i += 1;
        }
        proof {
            assert forall|c: Seq<u8>| #[trigger] crate::unit::views_of(known@).contains(c)
                <==> known_children(mid).contains(c) by {
                if crate::unit::views_of(known@).contains(c) {
                    let t = choose|t: int|
                        0 <= t < self.units@.len() && (#[trigger] self.units@[t])@.children.contains(
                            c,
                        );
                    lemma_units_map_index(self.views(), t);
                    assert(mid.contains_key(self.units@[t]@.identifier));
                    assert(mid[self.units@[t]@.identifier].children.contains(c));
                }
                if known_children(mid).contains(c) {
                    let id = choose|id: Seq<u8>| #[trigger]
                        mid.contains_key(id) && mid[id].children.contains(c);
                    lemma_units_map_contains(self.views(), id);
                    let t = choose|t: int|
                        0 <= t < self.views().len() && self.views()[t].identifier == id;
                    lemma_units_map_index(self.views(), t);
                    assert(self.units@[t]@.children.contains(c));
                }
            }
        }
        let ghost kc = known_children(mid);
        // Only merge a child in when it was already a child to us.
        let mut j2: usize = 0;
        while j2 < other.units.len()
            invariant
                other.inv(),
                self.inv(),
                j2 <= other.units@.len(),
                os == unit_views(other.units@),
                kc == known_children(mid),
                forall|c: Seq<u8>| #[trigger] crate::unit::views_of(known@).contains(c) <==> kc.contains(
                    c,
                ),
                self.genesis_identifier@ == orig.genesis_identifier@,
                self.majority == orig.majority,
                self.units@.len() >= orig.units@.len(),
                forall|i2: int|
                    0 <= i2 < orig.units@.len() ==> {
                        let u0 = (#[trigger] orig.units@[i2])@;
                        let u1 = self.units@[i2]@;
                        u1.identifier == u0.identifier && u1.parent == u0.parent && u1.payload
                            == u0.payload && u0.observers.subset_of(u1.observers)
                            && u0.children.subset_of(u1.children)
                    },
                self.umap() == reconcile_pass(mid, os.take(j2 as int), kc),
            decreases other.units@.len() - j2,
        {
            let other_unit = &other.units[j2];
            let ghost mpre = self.umap();
            proof {
                assert(other.units@[j2 as int].inv());
                lemma_reconcile_pass_snoc(mid, os, kc, j2 as int);
                assert(os[j2 as int] == other.units@[j2 as int]@);
            }
            match self.find_unit(&other_unit.identifier) {
                Some(i2) => {
                    proof {
                        lemma_units_map_index(self.views(), i2 as int);
                        assert(mpre.contains_key(os[j2 as int].identifier));
                        assert(mpre[os[j2 as int].identifier] == self.units@[i2 as int]@);
                    }
                    let ghost before = self.units@;
                    let mut taken = self.units.remove(i2);
                    let mut c: usize = 0;
                    while c < other_unit.children.len()
                        invariant
                            taken.inv(),
                            c <= other_unit.children@.len(),
                            forall|x: Seq<u8>| #[trigger]
                                crate::unit::views_of(known@).contains(x) <==> kc.contains(x),
                            taken.identifier@ == before[i2 as int].identifier@,
                            taken.parent@ == before[i2 as int].parent@,
                            taken.payload@ == before[i2 as int].payload@,
                            taken.observers@ == before[i2 as int].observers@,
                            taken@.children == before[i2 as int]@.children + crate::unit::views_of(
                                other_unit.children@,
                            ).take(c as int).to_set().intersect(kc),
                            before[i2 as int].inv(),
                        decreases other_unit.children@.len() - c,
                    {
                        let child = copy_bytes(&other_unit.children[c]);
                        proof {
                            assert(crate::unit::views_of(other_unit.children@).take(c + 1)
                                =~= crate::unit::views_of(other_unit.children@).take(
                                c as int,
                            ).push(child@));
                            assert(crate::unit::views_of(other_unit.children@).take(
                                c + 1,
                            ).to_set() =~= crate::unit::views_of(other_unit.children@).take(
                                c as int,
                            ).to_set().insert(child@));
                        }
                        if contains_bytes(&known, &child) {
                            proof {
                                assert(kc.contains(child@));
                            }
                            taken.add_child(child);
                            proof {
                                assert(taken@.children =~= before[i2 as int]@.children
                                    + crate::unit::views_of(other_unit.children@).take(
                                    c + 1,
                                ).to_set().intersect(kc));
                            }
                        } else {
                            proof {
                                assert(!kc.contains(child@));
                                assert(taken@.children =~= before[i2 as int]@.children
                                    + crate::unit::views_of(other_unit.children@).take(
                                    c + 1,
                                ).to_set().intersect(kc));
                            }
                        }
                        c += 1;
                    }
                    self.units.insert(i2, taken);
                    proof {
                        assert(crate::unit::views_of(other_unit.children@).take(
                            other_unit.children@.len() as int,
                        ) =~= crate::unit::views_of(other_unit.children@));
                        lemma_remove_insert(
                            before,
                            self.units@,
                            i2 as int,
                            self.units@[i2 as int],
                        );
                        assert(unit_views(self.units@) =~= unit_views(before).update(
                            i2 as int,
                            self.units@[i2 as int]@,
                        ));
                        lemma_units_map_update(
                            unit_views(before),
                            i2 as int,
                            self.units@[i2 as int]@,
                        );
                        assert(unit_views(before)[i2 as int] == before[i2 as int]@);
                        assert(self.units@[i2 as int]@.children =~= mpre[os[j2 as int].identifier].children
                            + os[j2 as int].children.intersect(kc));
                        assert(self.umap() =~= reconcile_step(mpre, os[j2 as int], kc));
                        lemma_inv_update(self, before, i2 as int);
                    }
                },
                None => {
                    proof {
                        lemma_units_map_contains(self.views(), os[j2 as int].identifier);
                        assert(!mpre.contains_key(os[j2 as int].identifier)) by {
                            if mpre.contains_key(os[j2 as int].identifier) {
                                let w = choose|w: int|
                                    0 <= w < self.views().len() && self.views()[w].identifier
                                        == os[j2 as int].identifier;
                                assert(self.units@[w]@.identifier == os[j2 as int].identifier);
                            }
                        }
                        assert(self.umap() == reconcile_step(mpre, os[j2 as int], kc));
                    }
                },
            }
            j2 += 1;
        }
        proof {
            assert(os.take(os.len() as int) =~= os);
            assert(self.umap() == merged_with(orig.umap(), os));
            lemma_merged_with_dom(orig.umap(), os);
        }
    }
}

/// Decide whether a list of peer identities is duplicate-free.
fn ids_distinct(v: &Vec<Id>) -> (r: bool)
    ensures
        r == v@.no_duplicates(),
{
    let mut a: usize = 0;
    while a < v.len()
        invariant
            a <= v@.len(),
            forall|x: int, y: int| 0 <= x < y < v@.len() && x < a ==> v@[x] != v@[y],
        decreases v@.len() - a,
    {
        let mut b: usize = a + 1;
        while b < v.len()
            invariant
                a < b <= v@.len() || (a + 1 == b && b > v@.len() - 1 && a < v@.len()),
                a < v@.len(),
                forall|y: int| a < y < b ==> v@[a as int] != v@[y],
            decreases v@.len() - b,
        {
            if v[a] == v[b] {
                return false;
            }
            b += 1;
        }
        a += 1;
    }
    true
}

/// Decide whether a list of byte strings is duplicate-free as values.
fn byte_vecs_distinct(v: &Vec<Vec<u8>>) -> (r: bool)
    ensures
        r == crate::unit::views_of(v@).no_duplicates(),
{
    let mut a: usize = 0;
    while a < v.len()
        invariant
            a <= v@.len(),
            forall|x: int, y: int|
                0 <= x < y < v@.len() && x < a ==> crate::unit::views_of(v@)[x]
                    != crate::unit::views_of(v@)[y],
        decreases v@.len() - a,
    {
        let mut b: usize = a + 1;
        while b < v.len()
            invariant
                a < b <= v@.len() || (a + 1 == b && b > v@.len() - 1 && a < v@.len()),
                a < v@.len(),
                forall|y: int|
                    a < y < b ==> crate::unit::views_of(v@)[a as int] != crate::unit::views_of(
                        v@,
                    )[y],
            decreases v@.len() - b,
        {
            if bytes_eq(&v[a], &v[b]) {
                proof {
                    assert(crate::unit::views_of(v@)[a as int] == crate::unit::views_of(
                        v@,
                    )[b as int]);
                }
                return false;
            }
            b += 1;
        }
        a += 1;
    }
    true
}

/// Decide whether a byte string occurs in a list.
fn contains_bytes(v: &Vec<Vec<u8>>, x: &Vec<u8>) -> (r: bool)
    ensures
        r == crate::unit::views_of(v@).contains(x@),
{
    let mut i: usize = 0;
    while i < v.len()
        invariant
            i <= v@.len(),
            forall|k: int| 0 <= k < i ==> crate::unit::views_of(v@)[k] != x@,
        decreases v@.len() - i,
    {
        if bytes_eq(&v[i], x) {
            proof {
                assert(crate::unit::views_of(v@)[i as int] == x@);
            }
            return true;
        }
        i += 1;
    }
    proof {
        assert(!crate::unit::views_of(v@).contains(x@));
    }
    false
}

} // verus!
