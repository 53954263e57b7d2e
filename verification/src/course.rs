//! Course catalog types: difficulties, songs, and the courses themselves.
//!
//! A course's *level* is its 1-based position in the catalog; level 0 or a
//! level beyond the catalog is an input error, never a panic.

use vstd::prelude::*;

verus! {

/// maimai chart difficulties.
#[derive(Clone, Copy, Debug, PartialEq, Eq, Structural)]
pub enum Difficulty {
    Easy,
    Advanced,
    Expert,
    Master,
    ReMaster,
}

impl Difficulty {
    /// Display text for the difficulty.
    pub fn name(&self) -> (r: &'static str)
        ensures
            *self is Easy ==> r@ == "Easy"@,
            *self is Advanced ==> r@ == "Advanced"@,
            *self is Expert ==> r@ == "Expert"@,
            *self is Master ==> r@ == "Master"@,
            *self is ReMaster ==> r@ == "Re:Master"@,
    {
        match self {
            Difficulty::Easy => "Easy",
            Difficulty::Advanced => "Advanced",
            Difficulty::Expert => "Expert",
            Difficulty::Master => "Master",
            Difficulty::ReMaster => "Re:Master",
        }
    }
}

/// One song of a course. Display-only; the simulator never reads it.
#[derive(Clone, Debug)]
pub struct Song {
    pub title: String,
    pub difficulty: Difficulty,
    pub level: String,
}

/// A course: its display name, starting life, heal granted after each
/// song, and the songs in play order.
#[derive(Clone, Debug)]
pub struct Course {
    pub name: String,
    pub life: u32,
    pub heal: u32,
    pub songs: Vec<Song>,
}

/// The course catalog, in level order.
pub type Courses = Vec<Course>;

/// Whether `level` denotes a course of a catalog with `len` courses.
pub open spec fn level_in_catalog(len: nat, level: u32) -> bool {
    1 <= level && level as nat <= len
}

/// Check a requested level against the catalog.
pub fn level_valid(courses: &Courses, level: u32) -> (b: bool)
    ensures
        b == level_in_catalog(courses@.len(), level),
{
    1 <= level && (level as usize) <= courses.len()
}

/// The course a valid level denotes, or nothing for an invalid level.
pub fn get_course<'a>(courses: &'a Courses, level: u32) -> (r: Option<&'a Course>)
    ensures
        match r {
            Some(c) => level_in_catalog(courses@.len(), level) && *c == courses@[level as int
                - 1],
            None => !level_in_catalog(courses@.len(), level),
        },
{
    if 1 <= level && (level as usize) <= courses.len() {
        Some(&courses[(level - 1) as usize])
    } else {
        None
    }
}

} // verus!
