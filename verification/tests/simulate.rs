use std::collections::VecDeque;

use arcmugbot::record::Status;
use arcmugbot::simulate::calc_life;
use arcmugbot::submission::{default_rule, Rule, Submission, Triple};

fn triple(great: u32, good: u32, miss: u32) -> Triple {
    Triple { great, good, miss }
}

fn submission(life: u32, heal: u32, rule: Rule, triples: Vec<Triple>) -> Submission {
    Submission { life, heal, rule, results: VecDeque::from(triples) }
}

#[test]
fn full_course_scenario() {
    // deductions 34, 32, 6, 0; life trace 496, 494, 518, 548; minus the
    // final heal 518, clamped to the starting life 500.
    let sub = submission(
        500,
        30,
        default_rule(),
        vec![triple(10, 3, 1), triple(13, 2, 0), triple(3, 0, 0), triple(0, 0, 0)],
    );
    assert_eq!(calc_life(&sub), (500, Status::Passed));
}

#[test]
fn empty_results_lose_one_heal() {
    let sub = submission(500, 30, default_rule(), vec![]);
    assert_eq!(calc_life(&sub), (470, Status::Passed));
}

#[test]
fn empty_results_heal_larger_than_life_clamps_to_zero() {
    let sub = submission(10, 30, default_rule(), vec![]);
    assert_eq!(calc_life(&sub), (0, Status::Passed));
}

#[test]
fn empty_results_no_heal_keeps_life() {
    let sub = submission(500, 0, default_rule(), vec![]);
    assert_eq!(calc_life(&sub), (500, Status::Passed));
}

#[test]
fn survivable_runs_pass_and_stay_clamped() {
    // 100 - 2 + 50 = 148, 148 - 0 + 50 = 198, minus the final heal 148,
    // clamped to the starting life 100.
    let sub = submission(100, 50, default_rule(), vec![triple(1, 0, 0), triple(0, 0, 0)]);
    assert_eq!(calc_life(&sub), (100, Status::Passed));
}

#[test]
fn survivable_run_without_heal() {
    let sub = submission(100, 0, default_rule(), vec![triple(1, 0, 0)]);
    assert_eq!(calc_life(&sub), (98, Status::Passed));
}

#[test]
fn first_song_failure_zeroes_life() {
    // deduction 15 exceeds the 10 starting life.
    let sub = submission(10, 0, default_rule(), vec![triple(0, 0, 3), triple(0, 0, 0)]);
    assert_eq!(calc_life(&sub), (0, Status::Failed));
}

#[test]
fn mid_course_failure_ignores_later_songs() {
    // 10 - 2 = 8, then deduction 50 exceeds 8; the wild last triple must
    // not matter.
    let sub = submission(
        10,
        0,
        default_rule(),
        vec![triple(1, 0, 0), triple(0, 0, 10), triple(1000, 1000, 1000)],
    );
    assert_eq!(calc_life(&sub), (0, Status::Failed));
}

#[test]
fn custom_rule_weights_apply() {
    // rule (1, 1, 1): deduction 6, heal 0.
    let sub = submission(50, 0, Rule { great: 1, good: 1, miss: 1 }, vec![triple(1, 2, 3)]);
    assert_eq!(calc_life(&sub), (44, Status::Passed));
}

#[test]
fn identical_inputs_give_identical_outcomes() {
    let sub = submission(
        500,
        30,
        default_rule(),
        vec![triple(10, 3, 1), triple(13, 2, 0)],
    );
    assert_eq!(calc_life(&sub), calc_life(&sub));
}

#[test]
fn default_submission_loses_one_heal() {
    let sub = Submission::default();
    assert_eq!(sub.life, 900);
    assert_eq!(sub.heal, 20);
    assert_eq!(sub.rule, default_rule());
    assert_eq!(calc_life(&sub), (880, Status::Passed));
}
