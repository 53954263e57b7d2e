//! Stored outcomes: pass/fail status, per-level records, and one user's
//! record collection.

use crate::keymap::{find_key, keys_unique, lemma_find_key, lemma_find_key_at, value_at};
use vstd::prelude::*;

verus! {

/// Whether a course attempt survived to the end.
#[derive(Clone, Copy, Debug, PartialEq, Eq, Structural)]
pub enum Status {
    Passed,
    Failed,
}

impl Status {
    /// Display text for the status.
    pub fn name(&self) -> (r: &'static str)
        ensures
            *self is Passed ==> r@ == "Passed"@,
            *self is Failed ==> r@ == "Failed"@,
    {
        match self {
            Status::Passed => "Passed",
            Status::Failed => "Failed",
        }
    }
}

/// The latest stored outcome of one user's attempt at one course level:
/// the life remaining at the end and whether the course was passed.
#[derive(Clone, Copy, Debug, PartialEq, Eq, Structural)]
pub struct Record {
    pub life: u32,
    pub status: Status,
}

/// One user's display name together with their records, one per attempted
/// course level. Levels are unique, and pairs keep first-submission order.
#[derive(Clone, Debug)]
pub struct UserRecords {
    pub fullname: String,
    pub records: Vec<(u32, Record)>,
}

/// Mathematical model of a [`UserRecords`] value.
pub ghost struct UserModel {
    pub fullname: Seq<char>,
    pub records: Seq<(u32, Record)>,
}

impl View for UserRecords {
    type V = UserModel;

    open spec fn view(&self) -> UserModel {
        UserModel { fullname: self.fullname@, records: self.records@ }
    }
}

impl UserRecords {
    /// A user's well-formedness: one record per level.
    pub open spec fn wf(&self) -> bool {
        keys_unique(self.records@)
    }
}

/// Look up the record stored for `level`, scanning from the front.
pub fn lookup_level(records: &Vec<(u32, Record)>, level: u32) -> (r: Option<Record>)
    ensures
        r == value_at(records@, level),
{
    let n = records.len();
    for i in 0..n
        invariant
            n == records@.len(),
            forall|j: int| 0 <= j < i ==> records@[j].0 != level,
    {
        if records[i].0 == level {
            proof {
                lemma_find_key_at(records@, level, i as int);
            }
            return Some(records[i].1);
        }
    }
    proof {
        lemma_find_key(records@, level);
        if find_key(records@, level) is Some {
            let i = find_key(records@, level)->Some_0;
        }
    }
    None
}

} // verus!
