//! The life-point survival simulation.
//!
//! A course starts with a life pool. Each song's judgment triple is turned
//! into a deduction by the rule's weights; a deduction larger than the life
//! left fails the course on the spot. After every song, including the last,
//! the course's heal amount is added back; one heal is subtracted after the
//! loop to undo the extra grant, and the result is clamped to the starting
//! life from above and to zero from below.

use crate::record::Status;
use crate::submission::{Results, Rule, Submission, Triple};
use vstd::prelude::*;

verus! {

/// The life cost of one song: each judgment count times its weight.
pub open spec fn deduction(rule: Rule, t: Triple) -> int {
    t.great as int * rule.great as int + t.good as int * rule.good as int + t.miss as int
        * rule.miss as int
}

/// Life left after playing `results` in order from `life`, healing after
/// every song; `None` as soon as one deduction exceeds the life left.
pub open spec fn run_songs(life: int, heal: u32, rule: Rule, results: Seq<Triple>) -> Option<int>
    decreases results.len(),
{
    if results.len() == 0 {
        Some(life)
    } else if life < deduction(rule, results[0]) {
        None
    } else {
        run_songs(life - deduction(rule, results[0]) + heal, heal, rule, results.drop_first())
    }
}

/// Whether every deduction stays within the life left at its point.
pub open spec fn survives(life: u32, heal: u32, rule: Rule, results: Seq<Triple>) -> bool {
    run_songs(life as int, heal, rule, results) is Some
}

/// The simulator's full outcome: final life and pass/fail status.
pub open spec fn simulate(life: u32, heal: u32, rule: Rule, results: Seq<Triple>) -> (u32, Status) {
    match run_songs(life as int, heal, rule, results) {
        None => (0u32, Status::Failed),
        Some(l) => {
            let after = l - heal;
            let clamped = if after < 0 {
                0
            } else if after > life {
                life as int
            } else {
                after
            };
            (clamped as u32, Status::Passed)
        },
    }
}

/// Stepping one song forward: the tail from `i` starts with song `i` and
/// continues as the tail from `i + 1`.
proof fn lemma_results_step(results: Seq<Triple>, i: int)
    requires
        0 <= i < results.len(),
    ensures
        results.skip(i)[0] == results[i],
        results.skip(i).drop_first() =~= results.skip(i + 1),
{
}

/// Calculate the life remaining after an attempt, and whether it passed.
pub fn calc_life(submission: &Submission) -> (r: (u32, Status))
    ensures
        r == simulate(submission.life, submission.heal, submission.rule, submission.results@),
{
    run_attempt(submission.life, submission.heal, submission.rule, &submission.results)
}

/// Run the simulation over borrowed results.
pub fn run_attempt(life: u32, heal: u32, rule: Rule, results: &Results) -> (r: (u32, Status))
    ensures
        r == simulate(life, heal, rule, results@),
{
    let n = results.len();
    let mut remains: u128 = life as u128;
    proof {
        assert(results@.skip(0) =~= results@);
    }
    for i in 0..n
        invariant
            n == results@.len(),
            remains as int <= life as int + i as int * heal as int,
            run_songs(life as int, heal, rule, results@) == run_songs(
                remains as int,
                heal,
                rule,
                results@.skip(i as int),
            ),
    {
        proof {
            lemma_results_step(results@, i as int);
        }
        let t = results[i];
        proof {
            lemma_mul_bounded(t.great as int, rule.great as int, u32::MAX as int);
            lemma_mul_bounded(t.good as int, rule.good as int, u32::MAX as int);
            lemma_mul_bounded(t.miss as int, rule.miss as int, u32::MAX as int);
        }
        let d: u128 = t.great as u128 * rule.great as u128 + t.good as u128 * rule.good as u128
            + t.miss as u128 * rule.miss as u128;
        if remains < d {
            return (0, Status::Failed);
        }
        proof {
            lemma_mul_bounded(i as int, heal as int, u64::MAX as int);
            assert((i + 1) as int * heal as int == i as int * heal as int + heal as int)
                by (nonlinear_arith);
        }
        remains = remains - d + heal as u128;
    }
    proof {
        assert(results@.skip(n as int) =~= Seq::<Triple>::empty());
    }
    let final_life: u128 = if remains < heal as u128 {
        0
    } else if remains - heal as u128 > life as u128 {
        life as u128
    } else {
        remains - heal as u128
    };
    (final_life as u32, Status::Passed)
}

/// Bounded factors give a bounded product.
proof fn lemma_mul_bounded(a: int, b: int, m: int)
    requires
        0 <= a <= m,
        0 <= b <= u32::MAX as int,
    ensures
        a * b <= m * (u32::MAX as int),
{
    assert(a * b <= m * (u32::MAX as int)) by (nonlinear_arith)
        requires
            0 <= a <= m,
            0 <= b <= u32::MAX as int,
    ;
}

/// An attempt with no songs always passes, and its final life is the
/// starting life minus one heal, clamped below at zero (and so never above
/// the starting life).
pub proof fn lemma_simulate_empty(life: u32, heal: u32, rule: Rule)
    ensures
        simulate(life, heal, rule, Seq::<Triple>::empty()) == (
            ((if heal <= life {
                (life - heal) as int
            } else {
                0
            }) as u32),
            Status::Passed,
        ),
{
}

/// When every deduction fits in the life left at its point, the attempt
/// passes and the final life never exceeds the starting life.
pub proof fn lemma_simulate_survives(life: u32, heal: u32, rule: Rule, results: Seq<Triple>)
    requires
        survives(life, heal, rule, results),
    ensures
        simulate(life, heal, rule, results).1 == Status::Passed,
        simulate(life, heal, rule, results).0 <= life,
{
}

/// A failing prefix is terminal: whatever triples follow the failing song
/// are ignored, the attempt fails, and the final life is exactly zero.
pub proof fn lemma_simulate_failure_terminal(
    life: u32,
    heal: u32,
    rule: Rule,
    prefix: Seq<Triple>,
    rest: Seq<Triple>,
)
    requires
        !survives(life, heal, rule, prefix),
    ensures
        simulate(life, heal, rule, prefix + rest) == (0u32, Status::Failed),
{
    lemma_run_songs_failed_extend(life as int, heal, rule, prefix, rest);
}

/// Extending a failing sequence cannot make it succeed.
proof fn lemma_run_songs_failed_extend(
    life: int,
    heal: u32,
    rule: Rule,
    prefix: Seq<Triple>,
    rest: Seq<Triple>,
)
    requires
        run_songs(life, heal, rule, prefix) is None,
    ensures
        run_songs(life, heal, rule, prefix + rest) is None,
    decreases prefix.len(),
{
    assert(prefix.len() > 0);
    let all = prefix + rest;
    assert(all[0] == prefix[0]);
    if life >= deduction(rule, prefix[0]) {
        assert(all.drop_first() =~= prefix.drop_first() + rest);
        lemma_run_songs_failed_extend(
            life - deduction(rule, prefix[0]) + heal,
            heal,
            rule,
            prefix.drop_first(),
            rest,
        );
    }
}

/// Whatever happens, the final life never exceeds the starting life: a
/// failed attempt ends at zero, a passed one is clamped from above.
pub proof fn lemma_simulate_life_bound(life: u32, heal: u32, rule: Rule, results: Seq<Triple>)
    ensures
        simulate(life, heal, rule, results).0 <= life,
{
}

/// The simulation is a pure function: identical inputs give identical
/// outcomes, however often it is run.
pub proof fn lemma_simulate_deterministic(
    r1: (u32, Status),
    r2: (u32, Status),
    life: u32,
    heal: u32,
    rule: Rule,
    results: Seq<Triple>,
)
    requires
        r1 == simulate(life, heal, rule, results),
        r2 == simulate(life, heal, rule, results),
    ensures
        r1 == r2,
{
}

} // verus!
