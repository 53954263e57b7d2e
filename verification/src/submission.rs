//! Judgment triples, the deduction rule, and one attempt's submission.

use std::collections::VecDeque;
use vstd::prelude::*;

verus! {

/// Per-song judgment counts: how many greats, goods and misses were hit.
#[derive(Clone, Copy, Debug, PartialEq, Eq, Structural)]
pub struct Triple {
    pub great: u32,
    pub good: u32,
    pub miss: u32,
}

/// The three weights that turn a judgment triple into a life deduction.
#[derive(Clone, Copy, Debug, PartialEq, Eq, Structural)]
pub struct Rule {
    pub great: u32,
    pub good: u32,
    pub miss: u32,
}

/// One attempt's judgment triples, one per song in play order.
pub type Results = VecDeque<Triple>;

/// The default deduction rule: a great costs 2, a good 3, a miss 5.
pub fn default_rule() -> (r: Rule)
    ensures
        r == (Rule { great: 2, good: 3, miss: 5 }),
{
    Rule { great: 2, good: 3, miss: 5 }
}

/// Everything one survival calculation needs: the starting life, the heal
/// granted after each song, the deduction rule, and the judgment triples.
#[derive(Clone)]
pub struct Submission {
    pub life: u32,
    pub heal: u32,
    pub rule: Rule,
    pub results: Results,
}

/// Mathematical model of a [`Submission`] value.
pub ghost struct SubmissionModel {
    pub life: u32,
    pub heal: u32,
    pub rule: Rule,
    pub results: Seq<Triple>,
}

impl View for Submission {
    type V = SubmissionModel;

    open spec fn view(&self) -> SubmissionModel {
        SubmissionModel {
            life: self.life,
            heal: self.heal,
            rule: self.rule,
            results: self.results@,
        }
    }
}

impl Default for Submission {
    /// An empty attempt at a 900-life course healing 20 per song, under the
    /// default rule.
    fn default() -> (r: Self)
        ensures
            r.life == 900,
            r.heal == 20,
            r.rule == (Rule { great: 2, good: 3, miss: 5 }),
            r.results@ == Seq::<Triple>::empty(),
    {
        Self { life: 900, heal: 20, rule: default_rule(), results: VecDeque::new() }
    }
}

} // verus!
