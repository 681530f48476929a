//! Facts about the schedule that the registry is built to: what it holds,
//! and that it holds each event once.

use vstd::prelude::*;

use crate::battlefield::{Attacker, AttackerPath};
use crate::emp::{
    emp_of, find_type, has, insert_spec, lemma_insert_wf, path_error, path_fold, path_ids_unique,
    produces, roster_error, roster_fold, schedule_wf, waypoint_error, AttackType, Emp, Schedule,
};

verus! {

proof fn lemma_path_fold(
    m: Schedule,
    id: i32,
    path: Seq<AttackerPath>,
    c: Seq<AttackType>,
    t: i32,
    e: Emp,
)
    requires
        schedule_wf(m),
    ensures
        schedule_wf(path_fold(m, id, path, c)),
        has(path_fold(m, id, path, c), t, e) <==> has(m, t, e) || exists|k: int|
            0 <= k < path.len() && produces(id, #[trigger] path[k], c, t, e),
    decreases path.len(),
{
    if path.len() > 0 {
        let p = path.drop_last();
        lemma_path_fold(m, id, p, c, t, e);
        let m1 = path_fold(m, id, p, c);
        let w = path.last();
        if w.is_emp && w.emp_type is Some && w.emp_time is Some && find_type(c, w.emp_type->0) is Some {
            lemma_insert_wf(m1, w.emp_time->0, emp_of(id, w, find_type(c, w.emp_type->0)->0));
        }
        if exists|k: int| 0 <= k < path.len() && produces(id, #[trigger] path[k], c, t, e) {
            let k = choose|k: int| 0 <= k < path.len() && produces(id, #[trigger] path[k], c, t, e);
            if k < p.len() {
                assert(p[k] == path[k]);
            }
        }
        if exists|k: int| 0 <= k < p.len() && produces(id, #[trigger] p[k], c, t, e) {
            let k = choose|k: int| 0 <= k < p.len() && produces(id, #[trigger] p[k], c, t, e);
            assert(p[k] == path[k]);
        }
        if produces(id, w, c, t, e) {
            assert(path[path.len() - 1] == w);
        }
    }
}

/// The schedule built from a roster holds event `e` at minute `t` exactly
/// when some trigger waypoint of some attacker yields it, and every bucket
/// holds each event once.
pub proof fn lemma_roster_fold(a: Seq<Attacker>, c: Seq<AttackType>, t: i32, e: Emp)
    ensures
        schedule_wf(roster_fold(a, c)),
        has(roster_fold(a, c), t, e) <==> exists|i: int, k: int|
            0 <= i < a.len() && 0 <= k < a[i].path@.len() && produces(
                a[i].id,
                #[trigger] a[i].path@[k],
                c,
                t,
                e,
            ),
    decreases a.len(),
{
    if a.len() > 0 {
        let b = a.drop_last();
        lemma_roster_fold(b, c, t, e);
        let l = a.last();
        lemma_path_fold(roster_fold(b, c), l.id, l.path@, c, t, e);
        if exists|i: int, k: int|
            0 <= i < a.len() && 0 <= k < a[i].path@.len() && produces(
                a[i].id,
                #[trigger] a[i].path@[k],
                c,
                t,
                e,
            ) {
            let (i, k) = choose|i: int, k: int|
                0 <= i < a.len() && 0 <= k < a[i].path@.len() && produces(
                    a[i].id,
                    #[trigger] a[i].path@[k],
                    c,
                    t,
                    e,
                );
            if i < b.len() {
                assert(b[i] == a[i]);
                assert(produces(b[i].id, b[i].path@[k], c, t, e));
            } else {
                assert(a[i] == l);
                assert(produces(l.id, l.path@[k], c, t, e));
            }
        }
        if exists|i: int, k: int|
            0 <= i < b.len() && 0 <= k < b[i].path@.len() && produces(
                b[i].id,
                #[trigger] b[i].path@[k],
                c,
                t,
                e,
            ) {
            let (i, k) = choose|i: int, k: int|
                0 <= i < b.len() && 0 <= k < b[i].path@.len() && produces(
                    b[i].id,
                    #[trigger] b[i].path@[k],
                    c,
                    t,
                    e,
                );
            assert(b[i] == a[i]);
            assert(produces(a[i].id, a[i].path@[k], c, t, e));
        }
        if exists|k: int| 0 <= k < l.path@.len() && produces(l.id, #[trigger] l.path@[k], c, t, e) {
            let k = choose|k: int|
                0 <= k < l.path@.len() && produces(l.id, #[trigger] l.path@[k], c, t, e);
            assert(a[a.len() - 1] == l);
            assert(produces(a[a.len() - 1].id, a[a.len() - 1].path@[k], c, t, e));
        }
    }
}

proof fn lemma_path_no_error(p: Seq<AttackerPath>, c: Seq<AttackType>, k: int)
    requires
        path_error(p, c) is None,
        0 <= k < p.len(),
    ensures
        waypoint_error(p[k], c) is None,
    decreases p.len(),
{
    if k < p.len() - 1 {
        assert(p.drop_last()[k] == p[k]);
        lemma_path_no_error(p.drop_last(), c, k);
    }
}

proof fn lemma_roster_no_error(a: Seq<Attacker>, c: Seq<AttackType>, i: int, k: int)
    requires
        roster_error(a, c) is None,
        0 <= i < a.len(),
        0 <= k < a[i].path@.len(),
    ensures
        waypoint_error(a[i].path@[k], c) is None,
    decreases a.len(),
{
    if i < a.len() - 1 {
        assert(a.drop_last()[i] == a[i]);
        lemma_roster_no_error(a.drop_last(), c, i, k);
    } else {
        lemma_path_no_error(a[i].path@, c, k);
    }
}

/// Where the registry builds, each flagged waypoint yields one event, held
/// once in the bucket of its minute and in no other bucket; no event of the
/// registry carries the id of a waypoint that is not flagged.
pub proof fn lemma_registry_complete(a: Seq<Attacker>, c: Seq<AttackType>, i: int, k: int)
    requires
        roster_error(a, c) is None,
        path_ids_unique(a),
        0 <= i < a.len(),
        0 <= k < a[i].path@.len(),
    ensures
        ({
            let w = a[i].path@[k];
            let m = roster_fold(a, c);
            &&& w.is_emp ==> {
                &&& w.emp_type is Some
                &&& w.emp_time is Some
                &&& find_type(c, w.emp_type->0) is Some
                &&& has(m, w.emp_time->0, emp_of(a[i].id, w, find_type(c, w.emp_type->0)->0))
                &&& m[w.emp_time->0].no_duplicates()
                &&& forall|t: i32|
                    has(m, t, emp_of(a[i].id, w, find_type(c, w.emp_type->0)->0)) ==> t
                        == w.emp_time->0
            }
            &&& !w.is_emp ==> forall|t: i32, e: Emp| has(m, t, e) ==> e.path_id != w.id
        }),
{
    let w = a[i].path@[k];
    let m = roster_fold(a, c);
    lemma_roster_no_error(a, c, i, k);
    if w.is_emp {
        let e = emp_of(a[i].id, w, find_type(c, w.emp_type->0)->0);
        lemma_roster_fold(a, c, w.emp_time->0, e);
        assert(produces(a[i].id, a[i].path@[k], c, w.emp_time->0, e));
        assert forall|t: i32| has(m, t, e) implies t == w.emp_time->0 by {
            lemma_roster_fold(a, c, t, e);
            let (i2, k2) = choose|i2: int, k2: int|
                0 <= i2 < a.len() && 0 <= k2 < a[i2].path@.len() && produces(
                    a[i2].id,
                    #[trigger] a[i2].path@[k2],
                    c,
                    t,
                    e,
                );
            assert(a[i2].path@[k2].id == a[i].path@[k].id);
        }
    } else {
        assert forall|t: i32, e: Emp| has(m, t, e) implies e.path_id != w.id by {
            lemma_roster_fold(a, c, t, e);
            let (i2, k2) = choose|i2: int, k2: int|
                0 <= i2 < a.len() && 0 <= k2 < a[i2].path@.len() && produces(
                    a[i2].id,
                    #[trigger] a[i2].path@[k2],
                    c,
                    t,
                    e,
                );
            if e.path_id == w.id {
                assert(a[i2].path@[k2].id == a[i].path@[k].id);
            }
        }
    }
}

/// Inserting an event a second time at the same minute changes nothing, and
/// the bucket then holds it exactly once.
pub proof fn lemma_insert_dedup(m: Schedule, t: i32, e: Emp)
    requires
        schedule_wf(m),
    ensures
        insert_spec(insert_spec(m, t, e), t, e) == insert_spec(m, t, e),
        insert_spec(m, t, e)[t].contains(e),
        insert_spec(m, t, e)[t].no_duplicates(),
{
    lemma_insert_wf(m, t, e);
    if m.contains_key(t) && !m[t].contains(e) {
        assert(m[t].push(e)[m[t].len() as int] == e);
    }
    if !m.contains_key(t) {
        assert(seq![e][0] == e);
    }
    assert(has(insert_spec(m, t, e), t, e));
}

} // verus!
