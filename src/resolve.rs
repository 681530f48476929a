//! Resolution of one simulated minute: the events scheduled at it are gated
//! by their owner's armed state and the fired ones strike the battlefield.

use vstd::prelude::*;

use crate::battlefield::{roster_ids_unique, Attacker, BuildingsManager, DefenseManager};
use crate::emp::{Emp, EmpError, Emps, Schedule};
use crate::footprint::footprint;
use crate::strike::{detonate, same_units, unit_hits};

verus! {

/// The events scheduled at minute `t`.
pub open spec fn bucket(m: Schedule, t: i32) -> Seq<Emp> {
    if m.contains_key(t) {
        m[t]
    } else {
        seq![]
    }
}

/// The index of the unit with id `id`; in a roster with unique ids
/// (`roster_ids_unique`) the only one.
pub open spec fn find_attacker(a: Seq<Attacker>, id: i32) -> Option<int>
    decreases a.len(),
{
    if a.len() == 0 {
        None
    } else if a.last().id == id {
        Some(a.len() - 1)
    } else {
        find_attacker(a.drop_last(), id)
    }
}

/// Whether event `e` fires against roster `a`, or why it cannot be decided.
pub open spec fn event_status(e: Emp, a: Seq<Attacker>) -> Result<bool, EmpError> {
    match find_attacker(a, e.attacker_id) {
        None => Err(EmpError::MissingAttacker { key: e.attacker_id }),
        Some(j) => match a[j].planted_spec(e.path_id) {
            Ok(b) => Ok(b),
            Err(pe) => Err(EmpError::Plant(pe)),
        },
    }
}

/// The first event, in order, whose status cannot be decided.
pub open spec fn minute_error(es: Seq<Emp>, a: Seq<Attacker>) -> Option<EmpError>
    decreases es.len(),
{
    if es.len() == 0 {
        None
    } else {
        match minute_error(es.drop_last(), a) {
            Some(err) => Some(err),
            None => match event_status(es.last(), a) {
                Err(err) => Some(err),
                Ok(_) => None,
            },
        }
    }
}

/// The events of `es` whose owner has armed them, in order.
pub open spec fn fired(es: Seq<Emp>, a: Seq<Attacker>) -> Seq<Emp>
    decreases es.len(),
{
    if es.len() == 0 {
        seq![]
    } else if event_status(es.last(), a) == Ok::<bool, EmpError>(true) {
        fired(es.drop_last(), a).push(es.last())
    } else {
        fired(es.drop_last(), a)
    }
}

/// The cells struck by `es`, event after event.
pub open spec fn cells_of(es: Seq<Emp>) -> Seq<(i32, i32)>
    decreases es.len(),
{
    if es.len() == 0 {
        seq![]
    } else {
        cells_of(es.drop_last()) + footprint(es.last())
    }
}

/// The hits a unit with trace `trace` takes from `es`, event after event.
pub open spec fn hits_of(es: Seq<Emp>, trace: Seq<(i32, i32)>) -> Seq<(i32, usize)>
    decreases es.len(),
{
    if es.len() == 0 {
        seq![]
    } else {
        hits_of(es.drop_last(), trace) + unit_hits(trace, footprint(es.last()), es.last().damage)
    }
}

/// An event that its owner has not armed is never among the fired events,
/// so it strikes no cell and hits no unit.
pub proof fn lemma_gating(es: Seq<Emp>, a: Seq<Attacker>, e: Emp)
    requires
        event_status(e, a) != Ok::<bool, EmpError>(true),
    ensures
        !fired(es, a).contains(e),
    decreases es.len(),
{
    if es.len() > 0 {
        lemma_gating(es.drop_last(), a, e);
        let f = fired(es.drop_last(), a);
        if event_status(es.last(), a) == Ok::<bool, EmpError>(true) {
            if f.push(es.last()).contains(e) {
                let k = choose|k: int| 0 <= k < f.push(es.last()).len() && f.push(es.last())[k] == e;
                if k < f.len() {
                    assert(f[k] == e);
                }
            }
        }
    }
}

/// A minute with nothing scheduled cannot fail and strikes nothing.
pub proof fn lemma_noop_minute(m: Schedule, t: i32, a: Seq<Attacker>)
    requires
        bucket(m, t).len() == 0,
    ensures
        minute_error(bucket(m, t), a) is None,
        fired(bucket(m, t), a).len() == 0,
        cells_of(fired(bucket(m, t), a)).len() == 0,
        forall|trace: Seq<(i32, i32)>| #[trigger] hits_of(fired(bucket(m, t), a), trace).len() == 0,
{
}

/// Roster `a1` and defense log `d1` are roster `a0` and log `d0` after the
/// events `es` struck, one after the other.
pub open spec fn struck(
    d0: Seq<(i32, i32)>,
    d1: Seq<(i32, i32)>,
    a0: Seq<Attacker>,
    a1: Seq<Attacker>,
    es: Seq<Emp>,
) -> bool {
    &&& same_units(a0, a1)
    &&& d1 == d0 + cells_of(es)
    &&& forall|j: int|
        0 <= j < a0.len() ==> (#[trigger] a1[j]).damage_taken@ == a0[j].damage_taken@ + hits_of(
            es,
            a0[j].path_in_current_frame@,
        )
}

proof fn lemma_same_units_find(a: Seq<Attacker>, b: Seq<Attacker>, id: i32)
    requires
        same_units(a, b),
    ensures
        find_attacker(a, id) == find_attacker(b, id),
    decreases a.len(),
{
    if a.len() > 0 {
        assert(a.last() == a[a.len() - 1]);
        assert(same_units(a.drop_last(), b.drop_last())) by {
            assert forall|j: int| 0 <= j < a.drop_last().len() implies a.drop_last()[j] == a[j]
                && b.drop_last()[j] == b[j] by {}
        }
        lemma_same_units_find(a.drop_last(), b.drop_last(), id);
    }
}

proof fn lemma_same_units_status(a: Seq<Attacker>, b: Seq<Attacker>, e: Emp)
    requires
        same_units(a, b),
    ensures
        event_status(e, a) == event_status(e, b),
{
    lemma_same_units_find(a, b, e.attacker_id);
    match find_attacker(a, e.attacker_id) {
        Some(j) => {
            lemma_find_in_range(a, e.attacker_id);
            assert(a[j].path@ == b[j].path@ && a[j].planted@ == b[j].planted@);
        },
        None => {},
    }
}

proof fn lemma_find_in_range(a: Seq<Attacker>, id: i32)
    ensures
        match find_attacker(a, id) {
            Some(j) => 0 <= j < a.len() && a[j].id == id,
            None => forall|j: int| 0 <= j < a.len() ==> #[trigger] a[j].id != id,
        },
    decreases a.len(),
{
    if a.len() > 0 {
        lemma_find_in_range(a.drop_last(), id);
        assert forall|j: int| 0 <= j < a.len() - 1 implies a.drop_last()[j] == a[j] by {}
    }
}

proof fn lemma_minute_error_prefix(es: Seq<Emp>, a: Seq<Attacker>, n: int)
    requires
        0 <= n <= es.len(),
        minute_error(es.take(n), a) is Some,
    ensures
        minute_error(es, a) == minute_error(es.take(n), a),
    decreases es.len(),
{
    if n == es.len() {
        assert(es.take(n) =~= es);
    } else {
        assert(es.drop_last().take(n) =~= es.take(n));
        lemma_minute_error_prefix(es.drop_last(), a, n);
    }
}

/// The index of the unit with id `id` in the roster, the last one where ids
/// repeat.
pub fn attacker_index(attackers: &Vec<Attacker>, id: i32) -> (r: Option<usize>)
    ensures
        r is Some <==> find_attacker(attackers@, id) is Some,
        r is Some ==> find_attacker(attackers@, id) == Some(r->0 as int),
{
    let mut p: usize = attackers.len();
    assert(attackers@.take(p as int) =~= attackers@);
    while p > 0
        invariant
            p <= attackers@.len(),
            find_attacker(attackers@, id) == find_attacker(attackers@.take(p as int), id),
        decreases p,
    {
        let q = p - 1;
        assert(attackers@.take(p as int).drop_last() =~= attackers@.take(q as int));
        if attackers[q].id == id {
            return Some(q);
        }
        p = q;
    }
    None
}

impl Emps {
    /// Resolves every event scheduled at `minute`, in the order its bucket
    /// holds them. An event whose owner is missing from the roster, or does not
    /// know its waypoint, stops the step with that error; one that is not yet
    /// armed is skipped; an armed one strikes through `detonate`. A minute with
    /// nothing scheduled changes nothing.
    pub fn simulate(
        &self,
        minute: i32,
        buildings_manager: &mut BuildingsManager,
        defense_manager: &mut DefenseManager,
        attackers: &mut Vec<Attacker>,
    ) -> (r: Result<(), EmpError>)
        requires
            old(buildings_manager).wf(),
            roster_ids_unique(old(attackers)@),
        ensures
            final(buildings_manager).buildings_grid@ == old(buildings_manager).buildings_grid@,
            r is Ok <==> minute_error(bucket(self@, minute), old(attackers)@) is None,
            r matches Err(e) ==> minute_error(bucket(self@, minute), old(attackers)@) == Some(e),
            r is Ok ==> struck(
                old(defense_manager).damaged_cells@,
                final(defense_manager).damaged_cells@,
                old(attackers)@,
                final(attackers)@,
                fired(bucket(self@, minute), old(attackers)@),
            ),
            r is Err ==> exists|n: int|
                0 <= n < bucket(self@, minute).len() && minute_error(
                    #[trigger] bucket(self@, minute).take(n),
                    old(attackers)@,
                ) is None && event_status(bucket(self@, minute)[n], old(attackers)@) is Err
                    && struck(
                    old(defense_manager).damaged_cells@,
                    final(defense_manager).damaged_cells@,
                    old(attackers)@,
                    final(attackers)@,
                    fired(bucket(self@, minute).take(n), old(attackers)@),
                ),
    {
        let ghost a0 = attackers@;
        let ghost d0 = defense_manager.damaged_cells@;
        let events = match self.0.get(&minute) {
            None => {
                assert(d0 + seq![] =~= d0);
                assert forall|j: int| 0 <= j < a0.len() implies (#[trigger] attackers@[j]).damage_taken@
                    =~= a0[j].damage_taken@ + hits_of(seq![], a0[j].path_in_current_frame@) by {}
                return Ok(());
            },
            Some(b) => b,
        };
        let ghost es = bucket(self@, minute);
        assert(events@ == es);
        assert(d0 + seq![] =~= d0);
        assert forall|j: int| 0 <= j < a0.len() implies (#[trigger] attackers@[j]).damage_taken@
            =~= a0[j].damage_taken@ + hits_of(fired(es.take(0), a0), a0[j].path_in_current_frame@) by {
            assert(fired(es.take(0), a0) == Seq::<Emp>::empty());
        }
        let mut i: usize = 0;
        while i < events.len()
            invariant
                events@ == es,
                es == bucket(self@, minute),
                a0 == old(attackers)@,
                d0 == old(defense_manager).damaged_cells@,
                i <= es.len(),
                buildings_manager.wf(),
                minute_error(es.take(i as int), a0) is None,
                same_units(a0, attackers@),
                defense_manager.damaged_cells@ == d0 + cells_of(fired(es.take(i as int), a0)),
                forall|j: int|
                    0 <= j < a0.len() ==> (#[trigger] attackers@[j]).damage_taken@
                        == a0[j].damage_taken@ + hits_of(
                        fired(es.take(i as int), a0),
                        a0[j].path_in_current_frame@,
                    ),
            decreases es.len() - i,
        {
            let emp = events[i];
            let ghost prev = fired(es.take(i as int), a0);
            assert(es.take(i + 1).drop_last() =~= es.take(i as int));
            assert(es.take(i + 1).last() == emp);
            proof {
                lemma_same_units_status(a0, attackers@, emp);
                lemma_same_units_find(a0, attackers@, emp.attacker_id);
                lemma_find_in_range(attackers@, emp.attacker_id);
            }
            let idx = match attacker_index(attackers, emp.attacker_id) {
                None => {
                    assert(event_status(emp, a0) == Err::<bool, EmpError>(
                        EmpError::MissingAttacker { key: emp.attacker_id },
                    ));
                    assert(minute_error(es.take(i + 1), a0) == Some(
                        EmpError::MissingAttacker { key: emp.attacker_id },
                    ));
                    proof {
                        lemma_minute_error_prefix(es, a0, i + 1);
                    }
                    assert(minute_error(es, a0) == Some(EmpError::MissingAttacker { key: emp.attacker_id }));
                    assert(event_status(es[i as int], a0) is Err);
                    assert(minute_error(bucket(self@, minute).take(i as int), old(attackers)@) is None);
                    assert(struck(
                        old(defense_manager).damaged_cells@,
                        defense_manager.damaged_cells@,
                        old(attackers)@,
                        attackers@,
                        fired(bucket(self@, minute).take(i as int), old(attackers)@),
                    ));
                    return Err(EmpError::MissingAttacker { key: emp.attacker_id });
                },
                Some(j) => j,
            };
            assert(find_attacker(attackers@, emp.attacker_id) == Some(idx as int));
            let planted = match attackers[idx].is_planted(emp.path_id) {
                Err(pe) => {
                    assert(event_status(emp, attackers@) == Err::<bool, EmpError>(
                        EmpError::Plant(pe),
                    ));
                    assert(minute_error(es.take(i + 1), a0) == Some(EmpError::Plant(pe)));
                    proof {
                        lemma_minute_error_prefix(es, a0, i + 1);
                    }
                    assert(event_status(es[i as int], a0) is Err);
                    assert(minute_error(bucket(self@, minute).take(i as int), old(attackers)@) is None);
                    assert(struck(
                        old(defense_manager).damaged_cells@,
                        defense_manager.damaged_cells@,
                        old(attackers)@,
                        attackers@,
                        fired(bucket(self@, minute).take(i as int), old(attackers)@),
                    ));
                    return Err(EmpError::Plant(pe));
                },
                Ok(p) => p,
            };
            assert(event_status(emp, a0) == Ok::<bool, EmpError>(planted));
            assert(minute_error(es.take(i + 1), a0) is None);
            if planted {
                let ghost a1 = attackers@;
                let ghost dd = defense_manager.damaged_cells@;
                // The structures under the footprint: where damage to structures,
                // to the units inside them and to units headed for them is to be
                // applied, once those rules are defined.
                let _affected_buildings = detonate(
                    &emp,
                    buildings_manager,
                    defense_manager,
                    attackers,
                );
                let ghost now = prev.push(emp);
                assert(fired(es.take(i + 1), a0) == now);
                assert(now.drop_last() =~= prev);
                assert(cells_of(now) == cells_of(prev) + footprint(emp));
                assert(d0 + cells_of(now) =~= dd + footprint(emp));
                assert forall|j: int| 0 <= j < a0.len() implies (#[trigger] attackers@[j]).damage_taken@
                    == a0[j].damage_taken@ + hits_of(now, a0[j].path_in_current_frame@) by {
                    assert(a1[j].path_in_current_frame@ == a0[j].path_in_current_frame@);
                    assert(hits_of(now, a0[j].path_in_current_frame@) == hits_of(
                        prev,
                        a0[j].path_in_current_frame@,
                    ) + unit_hits(a0[j].path_in_current_frame@, footprint(emp), emp.damage));
                    assert(attackers@[j].damage_taken@ =~= a0[j].damage_taken@ + hits_of(
                        now,
                        a0[j].path_in_current_frame@,
                    ));
                }
            } else {
                assert(fired(es.take(i + 1), a0) == prev);
            }
            i = i + 1;
        }
        assert(es.take(i as int) =~= es);
        Ok(())
    }
}

} // verus!
