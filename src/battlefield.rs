//! The collaborators that an EMP acts on: attacker units, defenders and the
//! building occupancy grid, reduced to what the engine reads and changes.

use vstd::prelude::*;

verus! {

/// One waypoint of an attacker's precomputed route.
#[derive(Clone, Copy, Debug, PartialEq, Eq, Structural)]
pub struct AttackerPath {
    pub id: usize,
    pub x_coord: i32,
    pub y_coord: i32,
    pub is_emp: bool,
    pub emp_type: Option<i32>,
    pub emp_time: Option<i32>,
}

/// An attacker unit: its route, the positions it has occupied in the current
/// frame (oldest first), the waypoints whose EMP it has armed, and the hits it
/// has taken as `(amount, position_index)`.
pub struct Attacker {
    pub id: i32,
    pub path: Vec<AttackerPath>,
    pub path_in_current_frame: Vec<(i32, i32)>,
    pub planted: Vec<usize>,
    pub damage_taken: Vec<(i32, usize)>,
}

/// Why the attacker could not answer whether a waypoint is armed.
#[derive(Clone, Copy, Debug, PartialEq, Eq, Structural)]
pub enum PlantError {
    /// The waypoint does not belong to this attacker's path.
    UnknownPath { path_id: usize },
}

pub open spec fn path_has_id(path: Seq<AttackerPath>, path_id: usize) -> bool {
    exists|k: int| 0 <= k < path.len() && #[trigger] path[k].id == path_id
}

/// No two units of the roster share an id.
pub open spec fn roster_ids_unique(a: Seq<Attacker>) -> bool {
    forall|i: int, j: int| 0 <= i < a.len() && 0 <= j < a.len() && #[trigger] a[i].id == #[trigger] a[j].id ==> i == j
}

impl Attacker {
    /// Whether the EMP of waypoint `path_id` has been armed by this unit.
    pub open spec fn planted_spec(&self, path_id: usize) -> Result<bool, PlantError> {
        if path_has_id(self.path@, path_id) {
            Ok(self.planted@.contains(path_id))
        } else {
            Err(PlantError::UnknownPath { path_id })
        }
    }

    pub fn is_planted(&self, path_id: usize) -> (r: Result<bool, PlantError>)
        ensures
            r == self.planted_spec(path_id),
    {
        let mut known = false;
        let mut k: usize = 0;
        while k < self.path.len()
            invariant
                k <= self.path@.len(),
                known <==> exists|j: int| 0 <= j < k && #[trigger] self.path@[j].id == path_id,
            decreases self.path@.len() - k,
        {
            if self.path[k].id == path_id {
                known = true;
            }
            k = k + 1;
        }
        if !known {
            return Err(PlantError::UnknownPath { path_id });
        }
        let mut armed = false;
        let mut k: usize = 0;
        while k < self.planted.len()
            invariant
                k <= self.planted@.len(),
                armed <==> exists|j: int| 0 <= j < k && self.planted@[j] == path_id,
            decreases self.planted@.len() - k,
        {
            if self.planted[k] == path_id {
                armed = true;
            }
            k = k + 1;
        }
        Ok(armed)
    }

    /// Records a hit of `amount` on the unit at trace position `position_index`.
    pub fn get_damage(&mut self, amount: i32, position_index: usize)
        ensures
            final(self).id == old(self).id,
            final(self).path@ == old(self).path@,
            final(self).path_in_current_frame@ == old(self).path_in_current_frame@,
            final(self).planted@ == old(self).planted@,
            final(self).damage_taken@ == old(self).damage_taken@.push((amount, position_index)),
    {
        self.damage_taken.push((amount, position_index));
    }
}

/// The defenders' side: every cell that area damage was applied to, in order.
pub struct DefenseManager {
    pub damaged_cells: Vec<(i32, i32)>,
}

impl DefenseManager {
    /// Applies area damage to whatever defender occupies `(x, y)`.
    pub fn get_damage(&mut self, x: i32, y: i32)
        ensures
            final(self).damaged_cells@ == old(self).damaged_cells@.push((x, y)),
    {
        self.damaged_cells.push((x, y));
    }
}

/// Building occupancy: `buildings_grid[x][y]` is the id of the building on
/// that cell, `0` for road.
pub struct BuildingsManager {
    pub buildings_grid: Vec<Vec<i32>>,
}

impl BuildingsManager {
    pub open spec fn wf(&self) -> bool {
        &&& self.buildings_grid@.len() == crate::MAP_SIZE
        &&& forall|x: int|
            0 <= x < crate::MAP_SIZE ==> (#[trigger] self.buildings_grid@[x])@.len()
                == crate::MAP_SIZE
    }
}

} // verus!
