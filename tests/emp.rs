use attack_sim::battlefield::{
    Attacker, AttackerPath, BuildingsManager, DefenseManager, PlantError,
};
use attack_sim::emp::{find_attack_type, AttackType, Emp, EmpError, Emps};
use attack_sim::resolve::attacker_index;
use attack_sim::strike::{detonate, last_position};
use attack_sim::MAP_SIZE;

fn waypoint(id: usize, x: i32, y: i32) -> AttackerPath {
    AttackerPath { id, x_coord: x, y_coord: y, is_emp: false, emp_type: None, emp_time: None }
}

fn trigger(id: usize, x: i32, y: i32, ty: Option<i32>, time: Option<i32>) -> AttackerPath {
    AttackerPath { id, x_coord: x, y_coord: y, is_emp: true, emp_type: ty, emp_time: time }
}

fn attacker(id: i32, path: Vec<AttackerPath>, trace: Vec<(i32, i32)>, planted: Vec<usize>) -> Attacker {
    Attacker { id, path, path_in_current_frame: trace, planted, damage_taken: Vec::new() }
}

fn empty_grid() -> BuildingsManager {
    BuildingsManager { buildings_grid: vec![vec![0; MAP_SIZE]; MAP_SIZE] }
}

fn catalog() -> Vec<AttackType> {
    vec![AttackType { id: 1, attack_radius: 1, attack_damage: 50 }]
}

fn sorted(mut v: Vec<(i32, i32)>) -> Vec<(i32, i32)> {
    v.sort();
    v
}

#[test]
fn concrete_plus_footprint_scenario() {
    let a = attacker(
        1,
        vec![trigger(5, 2, 2, Some(1), Some(3))],
        vec![(0, 0), (2, 2), (5, 5), (2, 2)],
        vec![5],
    );
    let b = attacker(2, vec![waypoint(6, 1, 2)], vec![(1, 2), (9, 9)], vec![]);
    let c = attacker(3, vec![waypoint(7, 8, 8)], vec![(8, 8), (2, 4)], vec![]);
    let mut attackers = vec![a, b, c];
    let emps = Emps::new(&catalog(), &attackers).unwrap();
    let mut buildings = empty_grid();
    let mut defense = DefenseManager { damaged_cells: Vec::new() };
    assert!(emps.simulate(3, &mut buildings, &mut defense, &mut attackers).is_ok());
    assert_eq!(defense.damaged_cells, vec![(1, 2), (2, 1), (2, 2), (2, 3), (3, 2)]);
    assert_eq!(
        sorted(defense.damaged_cells.clone()),
        sorted(vec![(2, 2), (1, 2), (3, 2), (2, 1), (2, 3)])
    );
    assert_eq!(attackers[0].damage_taken, vec![(50, 0)]);
    assert_eq!(attackers[1].damage_taken, vec![(50, 1)]);
    assert!(attackers[2].damage_taken.is_empty());
}

#[test]
fn trigger_without_type_fails_build() {
    let attackers = vec![attacker(1, vec![waypoint(4, 0, 0), trigger(5, 2, 2, None, Some(3))], vec![], vec![])];
    match Emps::new(&catalog(), &attackers) {
        Err(e) => assert_eq!(e, EmpError::EmpDetailsError { path_id: 5 }),
        Ok(_) => panic!("a trigger without a type must not build"),
    }
}

#[test]
fn trigger_without_time_fails_build() {
    let attackers = vec![attacker(1, vec![trigger(9, 2, 2, Some(1), None)], vec![], vec![])];
    assert!(matches!(Emps::new(&catalog(), &attackers), Err(EmpError::EmpDetailsError { path_id: 9 })));
}

#[test]
fn unknown_attack_type_fails_build() {
    let attackers = vec![attacker(1, vec![trigger(5, 2, 2, Some(4), Some(3))], vec![], vec![])];
    assert!(matches!(Emps::new(&catalog(), &attackers), Err(EmpError::MissingAttackType { key: 4 })));
}

#[test]
fn first_fault_in_roster_order_is_reported() {
    let attackers = vec![
        attacker(1, vec![trigger(1, 0, 0, Some(1), Some(1)), trigger(2, 0, 0, Some(8), Some(1))], vec![], vec![]),
        attacker(2, vec![trigger(3, 0, 0, None, None)], vec![], vec![]),
    ];
    assert!(matches!(Emps::new(&catalog(), &attackers), Err(EmpError::MissingAttackType { key: 8 })));
}

#[test]
fn registry_holds_one_event_per_trigger() {
    let cat = vec![
        AttackType { id: 1, attack_radius: 1, attack_damage: 50 },
        AttackType { id: 2, attack_radius: 3, attack_damage: 20 },
    ];
    let attackers = vec![
        attacker(10, vec![waypoint(1, 0, 0), trigger(2, 4, 5, Some(2), Some(7)), trigger(3, 6, 6, Some(1), Some(3))], vec![], vec![]),
        attacker(11, vec![trigger(4, 1, 1, Some(1), Some(7)), waypoint(5, 2, 2)], vec![], vec![]),
    ];
    let emps = Emps::new(&cat, &attackers).unwrap();
    assert_eq!(emps.0.len(), 2);
    let at7 = emps.0.get(&7).unwrap();
    assert_eq!(
        at7,
        &vec![
            Emp { path_id: 2, x_coord: 4, y_coord: 5, radius: 3, damage: 20, attacker_id: 10 },
            Emp { path_id: 4, x_coord: 1, y_coord: 1, radius: 1, damage: 50, attacker_id: 11 },
        ]
    );
    let at3 = emps.0.get(&3).unwrap();
    assert_eq!(at3, &vec![Emp { path_id: 3, x_coord: 6, y_coord: 6, radius: 1, damage: 50, attacker_id: 10 }]);
    for bucket in emps.0.values() {
        assert!(bucket.iter().all(|e| e.path_id != 1 && e.path_id != 5));
    }
}

#[test]
fn equal_events_are_stored_once() {
    let mut emps = Emps::empty();
    let e = Emp { path_id: 1, x_coord: 3, y_coord: 3, radius: 2, damage: 9, attacker_id: 1 };
    emps.insert(4, e);
    emps.insert(4, e);
    assert_eq!(emps.0.get(&4).unwrap(), &vec![e]);
    let other = Emp { damage: 10, ..e };
    emps.insert(4, other);
    assert_eq!(emps.0.get(&4).unwrap(), &vec![e, other]);
    emps.insert(5, e);
    assert_eq!(emps.0.get(&5).unwrap(), &vec![e]);
}

#[test]
fn unarmed_event_has_no_effect() {
    let mut attackers = vec![attacker(1, vec![trigger(5, 2, 2, Some(1), Some(3))], vec![(2, 2)], vec![])];
    let emps = Emps::new(&catalog(), &attackers).unwrap();
    let mut buildings = empty_grid();
    buildings.buildings_grid[2][2] = 7;
    let mut defense = DefenseManager { damaged_cells: Vec::new() };
    assert!(emps.simulate(3, &mut buildings, &mut defense, &mut attackers).is_ok());
    assert!(defense.damaged_cells.is_empty());
    assert!(attackers[0].damage_taken.is_empty());
    assert_eq!(buildings.buildings_grid[2][2], 7);
}

#[test]
fn empty_minute_is_a_no_op() {
    let mut attackers = vec![attacker(1, vec![trigger(5, 2, 2, Some(1), Some(3))], vec![(2, 2)], vec![5])];
    let emps = Emps::new(&catalog(), &attackers).unwrap();
    let mut buildings = empty_grid();
    let mut defense = DefenseManager { damaged_cells: vec![(9, 9)] };
    assert_eq!(emps.simulate(4, &mut buildings, &mut defense, &mut attackers), Ok(()));
    assert_eq!(defense.damaged_cells, vec![(9, 9)]);
    assert!(attackers[0].damage_taken.is_empty());
}

#[test]
fn event_of_absent_attacker_fails_step() {
    let roster = vec![attacker(1, vec![trigger(5, 2, 2, Some(1), Some(3))], vec![], vec![5])];
    let emps = Emps::new(&catalog(), &roster).unwrap();
    let mut live = vec![attacker(2, vec![], vec![(2, 2)], vec![])];
    let mut buildings = empty_grid();
    let mut defense = DefenseManager { damaged_cells: Vec::new() };
    assert_eq!(
        emps.simulate(3, &mut buildings, &mut defense, &mut live),
        Err(EmpError::MissingAttacker { key: 1 })
    );
}

#[test]
fn event_of_unknown_waypoint_fails_step() {
    let roster = vec![attacker(1, vec![trigger(5, 2, 2, Some(1), Some(3))], vec![], vec![5])];
    let emps = Emps::new(&catalog(), &roster).unwrap();
    let mut live = vec![attacker(1, vec![waypoint(6, 0, 0)], vec![], vec![5])];
    let mut buildings = empty_grid();
    let mut defense = DefenseManager { damaged_cells: Vec::new() };
    assert_eq!(
        emps.simulate(3, &mut buildings, &mut defense, &mut live),
        Err(EmpError::Plant(PlantError::UnknownPath { path_id: 5 }))
    );
}

#[test]
fn footprint_is_a_disc_not_a_square() {
    let e = Emp { path_id: 1, x_coord: 5, y_coord: 5, radius: 2, damage: 3, attacker_id: 1 };
    let buildings = empty_grid();
    let mut defense = DefenseManager { damaged_cells: Vec::new() };
    let mut attackers: Vec<Attacker> = Vec::new();
    let affected = detonate(&e, &buildings, &mut defense, &mut attackers);
    assert!(affected.is_empty());
    assert_eq!(defense.damaged_cells.len(), 13);
    assert!(defense.damaged_cells.contains(&(7, 5)));
    assert!(defense.damaged_cells.contains(&(6, 6)));
    assert!(!defense.damaged_cells.contains(&(7, 7)));
    assert!(!defense.damaged_cells.contains(&(3, 3)));
    assert!(!defense.damaged_cells.contains(&(7, 6)));
}

#[test]
fn footprint_is_clipped_to_the_map() {
    let e = Emp { path_id: 1, x_coord: 0, y_coord: 0, radius: 1, damage: 3, attacker_id: 1 };
    let buildings = empty_grid();
    let mut defense = DefenseManager { damaged_cells: Vec::new() };
    let mut attackers: Vec<Attacker> = Vec::new();
    detonate(&e, &buildings, &mut defense, &mut attackers);
    assert_eq!(defense.damaged_cells, vec![(0, 0), (0, 1), (1, 0)]);
    let far = MAP_SIZE as i32 - 1;
    let e = Emp { x_coord: far, y_coord: far, ..e };
    let mut defense = DefenseManager { damaged_cells: Vec::new() };
    detonate(&e, &buildings, &mut defense, &mut attackers);
    assert_eq!(defense.damaged_cells, vec![(far - 1, far), (far, far - 1), (far, far)]);
}

#[test]
fn zero_and_negative_radius() {
    let buildings = empty_grid();
    let mut attackers: Vec<Attacker> = Vec::new();
    let e = Emp { path_id: 1, x_coord: 4, y_coord: 4, radius: 0, damage: 3, attacker_id: 1 };
    let mut defense = DefenseManager { damaged_cells: Vec::new() };
    detonate(&e, &buildings, &mut defense, &mut attackers);
    assert_eq!(defense.damaged_cells, vec![(4, 4)]);
    let e = Emp { radius: -1, ..e };
    let mut defense = DefenseManager { damaged_cells: Vec::new() };
    detonate(&e, &buildings, &mut defense, &mut attackers);
    assert!(defense.damaged_cells.is_empty());
}

#[test]
fn extreme_coordinates_do_not_overflow() {
    let buildings = empty_grid();
    let mut attackers: Vec<Attacker> = Vec::new();
    let e = Emp { path_id: 1, x_coord: i32::MAX, y_coord: i32::MIN, radius: i32::MAX, damage: 1, attacker_id: 1 };
    let mut defense = DefenseManager { damaged_cells: Vec::new() };
    detonate(&e, &buildings, &mut defense, &mut attackers);
    assert!(defense.damaged_cells.is_empty());
}

#[test]
fn affected_structures_are_distinct_and_not_road() {
    let e = Emp { path_id: 1, x_coord: 2, y_coord: 2, radius: 1, damage: 3, attacker_id: 1 };
    let mut buildings = empty_grid();
    buildings.buildings_grid[1][2] = 4;
    buildings.buildings_grid[2][2] = 4;
    buildings.buildings_grid[3][2] = 9;
    buildings.buildings_grid[3][3] = 11;
    let mut defense = DefenseManager { damaged_cells: Vec::new() };
    let mut attackers: Vec<Attacker> = Vec::new();
    let affected = detonate(&e, &buildings, &mut defense, &mut attackers);
    assert_eq!(affected, vec![4, 9]);
}

#[test]
fn unit_is_hit_once_at_latest_position() {
    let e = Emp { path_id: 1, x_coord: 2, y_coord: 2, radius: 0, damage: 12, attacker_id: 1 };
    let buildings = empty_grid();
    let mut defense = DefenseManager { damaged_cells: Vec::new() };
    let mut attackers = vec![attacker(1, vec![], vec![(2, 2), (3, 3), (2, 2), (4, 4)], vec![])];
    detonate(&e, &buildings, &mut defense, &mut attackers);
    assert_eq!(attackers[0].damage_taken, vec![(12, 1)]);
}

#[test]
fn unit_crossing_several_cells_is_hit_per_cell() {
    let e = Emp { path_id: 1, x_coord: 2, y_coord: 2, radius: 1, damage: 5, attacker_id: 1 };
    let buildings = empty_grid();
    let mut defense = DefenseManager { damaged_cells: Vec::new() };
    let mut attackers = vec![attacker(1, vec![], vec![(2, 3), (2, 2), (1, 2)], vec![])];
    detonate(&e, &buildings, &mut defense, &mut attackers);
    assert_eq!(attackers[0].damage_taken, vec![(5, 0), (5, 1), (5, 2)]);
}

#[test]
fn catalog_lookup_takes_last_entry() {
    let cat = vec![
        AttackType { id: 1, attack_radius: 1, attack_damage: 50 },
        AttackType { id: 2, attack_radius: 2, attack_damage: 5 },
        AttackType { id: 1, attack_radius: 4, attack_damage: 60 },
    ];
    assert_eq!(find_attack_type(&cat, 1), Some(AttackType { id: 1, attack_radius: 4, attack_damage: 60 }));
    assert_eq!(find_attack_type(&cat, 2), Some(AttackType { id: 2, attack_radius: 2, attack_damage: 5 }));
    assert_eq!(find_attack_type(&cat, 3), None);
}

#[test]
fn trace_lookup_and_roster_lookup() {
    let trace = vec![(1, 1), (2, 2), (1, 1)];
    assert_eq!(last_position(&trace, 1, 1), Some(2));
    assert_eq!(last_position(&trace, 2, 2), Some(1));
    assert_eq!(last_position(&trace, 3, 3), None);
    let roster = vec![attacker(4, vec![], vec![], vec![]), attacker(8, vec![], vec![], vec![])];
    assert_eq!(attacker_index(&roster, 8), Some(1));
    assert_eq!(attacker_index(&roster, 5), None);
}

#[test]
fn hit_index_counts_frames_since_position() {
    let e = Emp { path_id: 1, x_coord: 2, y_coord: 2, radius: 0, damage: 50, attacker_id: 1 };
    let buildings = empty_grid();
    let mut defense = DefenseManager { damaged_cells: Vec::new() };
    let mut attackers = vec![attacker(1, vec![], vec![(2, 2), (0, 0)], vec![])];
    detonate(&e, &buildings, &mut defense, &mut attackers);
    assert_eq!(attackers[0].damage_taken, vec![(50, 1)]);
}

#[test]
fn unit_outside_plus_is_untouched() {
    let mut attackers = vec![
        attacker(1, vec![trigger(5, 2, 2, Some(1), Some(3))], vec![], vec![5]),
        attacker(2, vec![], vec![(1, 1), (3, 3), (0, 0)], vec![]),
    ];
    let emps = Emps::new(&catalog(), &attackers).unwrap();
    let mut buildings = empty_grid();
    buildings.buildings_grid[1][1] = 3;
    let mut defense = DefenseManager { damaged_cells: Vec::new() };
    assert!(emps.simulate(3, &mut buildings, &mut defense, &mut attackers).is_ok());
    assert!(attackers[1].damage_taken.is_empty());
    assert!(!defense.damaged_cells.contains(&(1, 1)));
    assert!(!defense.damaged_cells.contains(&(3, 3)));
    assert_eq!(buildings.buildings_grid[1][1], 3);
}

#[test]
fn error_keeps_effects_of_earlier_events() {
    let roster = vec![
        attacker(1, vec![trigger(5, 2, 2, Some(1), Some(3))], vec![], vec![5]),
        attacker(2, vec![trigger(6, 7, 7, Some(1), Some(3))], vec![], vec![6]),
    ];
    let emps = Emps::new(&catalog(), &roster).unwrap();
    let mut live = vec![attacker(1, vec![trigger(5, 2, 2, Some(1), Some(3))], vec![(2, 2)], vec![5])];
    let mut buildings = empty_grid();
    let mut defense = DefenseManager { damaged_cells: Vec::new() };
    assert_eq!(
        emps.simulate(3, &mut buildings, &mut defense, &mut live),
        Err(EmpError::MissingAttacker { key: 2 })
    );
    assert_eq!(defense.damaged_cells, vec![(1, 2), (2, 1), (2, 2), (2, 3), (3, 2)]);
    assert_eq!(live[0].damage_taken, vec![(50, 0)]);
    assert_eq!(live[0].id, 1);
}

#[test]
fn planted_query() {
    let a = attacker(1, vec![waypoint(3, 0, 0), waypoint(4, 0, 0)], vec![], vec![4]);
    assert_eq!(a.is_planted(4), Ok(true));
    assert_eq!(a.is_planted(3), Ok(false));
    assert_eq!(a.is_planted(5), Err(PlantError::UnknownPath { path_id: 5 }));
}

#[test]
fn later_minutes_accumulate_effects() {
    let mut attackers = vec![attacker(
        1,
        vec![trigger(5, 2, 2, Some(1), Some(3)), trigger(6, 2, 2, Some(1), Some(4))],
        vec![(2, 2)],
        vec![5, 6],
    )];
    let emps = Emps::new(&catalog(), &attackers).unwrap();
    let mut buildings = empty_grid();
    let mut defense = DefenseManager { damaged_cells: Vec::new() };
    assert!(emps.simulate(3, &mut buildings, &mut defense, &mut attackers).is_ok());
    assert!(emps.simulate(4, &mut buildings, &mut defense, &mut attackers).is_ok());
    assert_eq!(defense.damaged_cells.len(), 10);
    assert_eq!(attackers[0].damage_taken, vec![(50, 0), (50, 0)]);
}
