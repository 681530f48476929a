//! The EMP event registry: construction from attacker paths and the
//! attack-type catalog, and per-minute resolution against the battlefield.

use std::collections::HashMap;
use vstd::prelude::*;

use crate::battlefield::{roster_ids_unique, Attacker, AttackerPath, PlantError};

verus! {

broadcast use vstd::std_specs::hash::group_hash_axioms;

/// One scheduled area effect. Two events are the same event when every field
/// agrees.
#[derive(Clone, Copy, Debug, PartialEq, Eq, Structural, Hash)]
pub struct Emp {
    pub path_id: usize,
    pub x_coord: i32,
    pub y_coord: i32,
    pub radius: i32,
    pub damage: i32,
    pub attacker_id: i32,
}

/// A weapon type of the catalog.
#[derive(Clone, Copy, Debug, PartialEq, Eq, Structural)]
pub struct AttackType {
    pub id: i32,
    pub attack_radius: i32,
    pub attack_damage: i32,
}

/// What can stop the registry from being built or a minute from resolving.
#[derive(Clone, Copy, Debug, PartialEq, Eq, Structural)]
pub enum EmpError {
    /// A waypoint is flagged as a trigger but lacks its type or its time.
    EmpDetailsError { path_id: usize },
    /// A waypoint names a weapon type that the catalog does not hold.
    MissingAttackType { key: i32 },
    /// An event names an attacker that is not in the live roster.
    MissingAttacker { key: i32 },
    /// The owning attacker does not know the event's waypoint.
    Plant(PlantError),
}

/// The registry: for each minute, the distinct events scheduled at it.
pub struct Emps(pub HashMap<i32, Vec<Emp>>);

pub type Schedule = Map<i32, Seq<Emp>>;

/// The catalog entry for `id`; where ids repeat, the last entry wins.
pub open spec fn find_type(catalog: Seq<AttackType>, id: i32) -> Option<AttackType>
    decreases catalog.len(),
{
    if catalog.len() == 0 {
        None
    } else if catalog.last().id == id {
        Some(catalog.last())
    } else {
        find_type(catalog.drop_last(), id)
    }
}

pub open spec fn emp_of(attacker_id: i32, w: AttackerPath, ty: AttackType) -> Emp {
    Emp {
        path_id: w.id,
        x_coord: w.x_coord,
        y_coord: w.y_coord,
        radius: ty.attack_radius,
        damage: ty.attack_damage,
        attacker_id,
    }
}

/// The error a single waypoint causes, if any.
pub open spec fn waypoint_error(w: AttackerPath, catalog: Seq<AttackType>) -> Option<EmpError> {
    if !w.is_emp {
        None
    } else {
        match (w.emp_type, w.emp_time) {
            (Some(ty), Some(_)) => if find_type(catalog, ty) is Some {
                None
            } else {
                Some(EmpError::MissingAttackType { key: ty })
            },
            _ => Some(EmpError::EmpDetailsError { path_id: w.id }),
        }
    }
}

/// The first error along a path.
pub open spec fn path_error(path: Seq<AttackerPath>, catalog: Seq<AttackType>) -> Option<EmpError>
    decreases path.len(),
{
    if path.len() == 0 {
        None
    } else {
        match path_error(path.drop_last(), catalog) {
            Some(e) => Some(e),
            None => waypoint_error(path.last(), catalog),
        }
    }
}

/// The first error over the roster, attacker by attacker, waypoint by waypoint.
pub open spec fn roster_error(attackers: Seq<Attacker>, catalog: Seq<AttackType>) -> Option<
    EmpError,
>
    decreases attackers.len(),
{
    if attackers.len() == 0 {
        None
    } else {
        match roster_error(attackers.drop_last(), catalog) {
            Some(e) => Some(e),
            None => path_error(attackers.last().path@, catalog),
        }
    }
}

pub open spec fn has(m: Schedule, t: i32, e: Emp) -> bool {
    m.contains_key(t) && m[t].contains(e)
}

/// Adds `e` to the bucket of minute `t` unless it is already there.
pub open spec fn insert_spec(m: Schedule, t: i32, e: Emp) -> Schedule {
    if m.contains_key(t) {
        if m[t].contains(e) {
            m
        } else {
            m.insert(t, m[t].push(e))
        }
    } else {
        m.insert(t, seq![e])
    }
}

/// Whether waypoint `w` of attacker `attacker_id` schedules `e` at minute `t`.
pub open spec fn produces(
    attacker_id: i32,
    w: AttackerPath,
    catalog: Seq<AttackType>,
    t: i32,
    e: Emp,
) -> bool {
    &&& w.is_emp
    &&& w.emp_time == Some(t)
    &&& w.emp_type is Some
    &&& find_type(catalog, w.emp_type->0) is Some
    &&& e == emp_of(attacker_id, w, find_type(catalog, w.emp_type->0)->0)
}

/// The schedule after the waypoints of `path` have been added to `m`.
pub open spec fn path_fold(
    m: Schedule,
    attacker_id: i32,
    path: Seq<AttackerPath>,
    catalog: Seq<AttackType>,
) -> Schedule
    decreases path.len(),
{
    if path.len() == 0 {
        m
    } else {
        let m1 = path_fold(m, attacker_id, path.drop_last(), catalog);
        let w = path.last();
        if w.is_emp && w.emp_type is Some && w.emp_time is Some && find_type(
            catalog,
            w.emp_type->0,
        ) is Some {
            insert_spec(m1, w.emp_time->0, emp_of(attacker_id, w, find_type(catalog, w.emp_type->0)->0))
        } else {
            m1
        }
    }
}

/// The schedule built from the whole roster.
pub open spec fn roster_fold(attackers: Seq<Attacker>, catalog: Seq<AttackType>) -> Schedule
    decreases attackers.len(),
{
    if attackers.len() == 0 {
        Map::empty()
    } else {
        path_fold(
            roster_fold(attackers.drop_last(), catalog),
            attackers.last().id,
            attackers.last().path@,
            catalog,
        )
    }
}

/// Every bucket holds each event once.
pub open spec fn schedule_wf(m: Schedule) -> bool {
    forall|t: i32| #[trigger] m.contains_key(t) ==> m[t].no_duplicates()
}

/// Waypoint ids are unique across the whole roster.
pub open spec fn path_ids_unique(attackers: Seq<Attacker>) -> bool {
    forall|i1: int, k1: int, i2: int, k2: int|
        0 <= i1 < attackers.len() && 0 <= k1 < attackers[i1].path@.len() && 0 <= i2
            < attackers.len() && 0 <= k2 < attackers[i2].path@.len()
            && (#[trigger] attackers[i1].path@[k1]).id == (#[trigger] attackers[i2].path@[k2]).id
            ==> i1 == i2 && k1 == k2
}

/// Looks up the catalog entry for `id` (the last one, where ids repeat).
pub fn find_attack_type(catalog: &Vec<AttackType>, id: i32) -> (r: Option<AttackType>)
    ensures
        r == find_type(catalog@, id),
{
    let mut found: Option<AttackType> = None;
    let mut i: usize = 0;
    while i < catalog.len()
        invariant
            i <= catalog@.len(),
            found == find_type(catalog@.take(i as int), id),
        decreases catalog@.len() - i,
    {
        assert(catalog@.take(i + 1).drop_last() =~= catalog@.take(i as int));
        if catalog[i].id == id {
            found = Some(catalog[i]);
        }
        i = i + 1;
    }
    assert(catalog@.take(i as int) =~= catalog@);
    found
}

fn contains_emp(bucket: &Vec<Emp>, emp: &Emp) -> (r: bool)
    ensures
        r == bucket@.contains(*emp),
{
    let mut i: usize = 0;
    while i < bucket.len()
        invariant
            i <= bucket@.len(),
            forall|j: int| 0 <= j < i ==> bucket@[j] != *emp,
        decreases bucket@.len() - i,
    {
        if bucket[i] == *emp {
            return true;
        }
        i = i + 1;
    }
    false
}

impl View for Emps {
    type V = Schedule;

    open spec fn view(&self) -> Schedule {
        self.0@.map_values(|v: Vec<Emp>| v@)
    }
}

impl Emps {
    pub open spec fn wf(&self) -> bool {
        schedule_wf(self@)
    }

    /// An empty registry.
    pub fn empty() -> (r: Emps)
        ensures
            r@ == Map::<i32, Seq<Emp>>::empty(),
            r.wf(),
    {
        let r = Emps(HashMap::new());
        assert(r@ =~= Map::<i32, Seq<Emp>>::empty());
        r
    }

    /// Schedules `emp` at minute `time`; an equal event already there is kept
    /// and nothing is added.
    pub fn insert(&mut self, time: i32, emp: Emp)
        requires
            old(self).wf(),
        ensures
            final(self)@ == insert_spec(old(self)@, time, emp),
            final(self).wf(),
    {
        let ghost m0 = self@;
        let mut bucket = match self.0.remove(&time) {
            Some(b) => b,
            None => Vec::new(),
        };
        assert(m0.contains_key(time) ==> bucket@ == m0[time]);
        assert(!m0.contains_key(time) ==> bucket@ =~= Seq::<Emp>::empty());
        if !contains_emp(&bucket, &emp) {
            bucket.push(emp);
        }
        self.0.insert(time, bucket);
        assert(self@ =~= insert_spec(m0, time, emp));
        proof {
            lemma_insert_wf(m0, time, emp);
        }
    }
    /// Compiles the roster's trigger waypoints into the registry, looking up
    /// each weapon type in `catalog`. Fails on the first waypoint, attacker by
    /// attacker and in path order, that is flagged but lacks its type or time,
    /// or whose type the catalog lacks.
    pub fn new(catalog: &Vec<AttackType>, attackers: &Vec<Attacker>) -> (r: Result<Emps, EmpError>)
        requires
            roster_ids_unique(attackers@),
        ensures
            match r {
                Ok(emps) => {
                    &&& roster_error(attackers@, catalog@) is None
                    &&& emps@ == roster_fold(attackers@, catalog@)
                    &&& emps.wf()
                },
                Err(e) => roster_error(attackers@, catalog@) == Some(e),
            },
    {
        let mut emps = Emps::empty();
        let mut i: usize = 0;
        while i < attackers.len()
            invariant
                i <= attackers@.len(),
                emps.wf(),
                roster_error(attackers@.take(i as int), catalog@) is None,
                emps@ == roster_fold(attackers@.take(i as int), catalog@),
            decreases attackers@.len() - i,
        {
            let attacker = &attackers[i];
            let ghost before = emps@;
            assert(attackers@.take(i + 1).drop_last() =~= attackers@.take(i as int));
            let mut k: usize = 0;
            while k < attacker.path.len()
                invariant
                    i < attackers@.len(),
                    *attacker == attackers@[i as int],
                    roster_error(attackers@.take(i as int), catalog@) is None,
                    before == roster_fold(attackers@.take(i as int), catalog@),
                    k <= attacker.path@.len(),
                    emps.wf(),
                    path_error(attacker.path@.take(k as int), catalog@) is None,
                    emps@ == path_fold(before, attacker.id, attacker.path@.take(k as int), catalog@),
                decreases attacker.path@.len() - k,
            {
                let w = attacker.path[k];
                assert(attacker.path@.take(k + 1).drop_last() =~= attacker.path@.take(k as int));
                if w.is_emp {
                    match (w.emp_type, w.emp_time) {
                        (Some(ty), Some(time)) => {
                            match find_attack_type(catalog, ty) {
                                Some(t) => {
                                    let emp = Emp {
                                        path_id: w.id,
                                        x_coord: w.x_coord,
                                        y_coord: w.y_coord,
                                        radius: t.attack_radius,
                                        damage: t.attack_damage,
                                        attacker_id: attacker.id,
                                    };
                                    emps.insert(time, emp);
                                },
                                None => {
                                    proof {
                                        lemma_error_stops_build(attackers@, catalog@, i as int, k as int);
                                    }
                                    return Err(EmpError::MissingAttackType { key: ty });
                                },
                            }
                        },
                        _ => {
                            proof {
                                lemma_error_stops_build(attackers@, catalog@, i as int, k as int);
                            }
                            return Err(EmpError::EmpDetailsError { path_id: w.id });
                        },
                    }
                }
                k = k + 1;
            }
            assert(attacker.path@.take(k as int) =~= attacker.path@);
            assert(attackers@.take(i + 1).last() == attackers@[i as int]);
            i = i + 1;
        }
        assert(attackers@.take(i as int) =~= attackers@);
        Ok(emps)
    }
}

proof fn lemma_path_error_prefix(s: Seq<AttackerPath>, c: Seq<AttackType>, n: int)
    requires
        0 <= n <= s.len(),
        path_error(s.take(n), c) is Some,
    ensures
        path_error(s, c) == path_error(s.take(n), c),
    decreases s.len(),
{
    if n == s.len() {
        assert(s.take(n) =~= s);
    } else {
        assert(s.drop_last().take(n) =~= s.take(n));
        lemma_path_error_prefix(s.drop_last(), c, n);
    }
}

proof fn lemma_roster_error_prefix(s: Seq<Attacker>, c: Seq<AttackType>, n: int)
    requires
        0 <= n <= s.len(),
        roster_error(s.take(n), c) is Some,
    ensures
        roster_error(s, c) == roster_error(s.take(n), c),
    decreases s.len(),
{
    if n == s.len() {
        assert(s.take(n) =~= s);
    } else {
        assert(s.drop_last().take(n) =~= s.take(n));
        lemma_roster_error_prefix(s.drop_last(), c, n);
    }
}

/// The first faulty waypoint met while building decides the error.
proof fn lemma_error_stops_build(s: Seq<Attacker>, c: Seq<AttackType>, i: int, k: int)
    requires
        0 <= i < s.len(),
        0 <= k < s[i].path@.len(),
        roster_error(s.take(i), c) is None,
        path_error(s[i].path@.take(k), c) is None,
        waypoint_error(s[i].path@[k], c) is Some,
    ensures
        roster_error(s, c) == waypoint_error(s[i].path@[k], c),
{
    let p = s[i].path@;
    assert(p.take(k + 1).drop_last() =~= p.take(k));
    assert(p.take(k + 1).last() == p[k]);
    lemma_path_error_prefix(p, c, k + 1);
    assert(s.take(i + 1).drop_last() =~= s.take(i));
    assert(s.take(i + 1).last() == s[i]);
    lemma_roster_error_prefix(s, c, i + 1);
}

pub proof fn lemma_insert_wf(m: Schedule, t: i32, e: Emp)
    requires
        schedule_wf(m),
    ensures
        schedule_wf(insert_spec(m, t, e)),
        forall|t2: i32, e2: Emp|
            has(insert_spec(m, t, e), t2, e2) <==> has(m, t2, e2) || (t2 == t && e2 == e),
{
    let m2 = insert_spec(m, t, e);
    assert forall|t2: i32| #[trigger] m2.contains_key(t2) implies m2[t2].no_duplicates() by {
        if t2 == t && m.contains_key(t) && !m[t].contains(e) {
            let s = m[t].push(e);
            assert forall|a: int, b: int| 0 <= a < s.len() && 0 <= b < s.len() && a != b implies s[a]
                != s[b] by {
                if a == m[t].len() as int {
                    assert(m[t][b] == s[b]);
                } else if b == m[t].len() as int {
                    assert(m[t][a] == s[a]);
                }
            }
        }
    }
    assert forall|t2: i32, e2: Emp|
        has(m2, t2, e2) <==> has(m, t2, e2) || (t2 == t && e2 == e) by {
        if t2 == t && m.contains_key(t) && !m[t].contains(e) {
            let s = m[t].push(e);
            if m[t].contains(e2) {
                let j = choose|j: int| 0 <= j < m[t].len() && m[t][j] == e2;
                assert(s[j] == e2);
            }
            if s.contains(e2) && e2 != e {
                let j = choose|j: int| 0 <= j < s.len() && s[j] == e2;
                assert(m[t][j] == e2);
            }
            assert(s[m[t].len() as int] == e);
        }
        if t2 == t && !m.contains_key(t) {
            assert(seq![e][0] == e);
        }
    }
}

} // verus!
