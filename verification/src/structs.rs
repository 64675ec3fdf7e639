use vstd::prelude::*;

verus! {

/// One student record. `id` is the caller's identity; during a solve the
/// engine remaps ids to a dense `0..n` range and restores them on output.
/// `name` is opaque to the engine and never read by scoring.
#[derive(Clone, Debug, PartialEq, Eq)]
pub struct Student {
    pub id: usize,
    pub name: String,
    pub academic_ability: usize,
    pub exercise_ability: usize,
    pub leadership_ability: usize,
    pub needs_assistance: bool,
    pub gender: Gender,
}

/// Two-valued categorical attribute used by the gender-balance term.
#[derive(Clone, Copy, Debug, PartialEq, Eq, Structural)]
pub enum Gender {
    Male,
    Female,
}

/// Dense internal layout: each cell holds a student index, or `VACANT`.
pub type SeatAssignment = Vec<Vec<usize>>;

/// Typed errors surfaced at the engine boundary.
#[derive(Clone, Debug, PartialEq, Eq)]
pub enum SolveError {
    /// The input names the same student id at two or more seats.
    /// `duplicate_ids` lists every offending id, sorted, without repeats.
    InvalidInput { duplicate_ids: Vec<usize> },
    /// Reference and candidate layouts disagree in shape or occupancy,
    /// or their occupants are not the same set of students.
    ShapeMismatch,
    /// The search produced no candidate (for instance, an empty grid).
    NoFeasibleResult,
}

} // verus!
