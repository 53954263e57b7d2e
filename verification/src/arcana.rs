//! Plain data relayed from the third-party rhythm-game stats service:
//! play styles, clear lamps, music entries, player profiles and score
//! history rows. The bot only carries these values through; the HTTP
//! client and the message formatting live outside the library.

use vstd::prelude::*;

verus! {

/// Whether a chart is played on one side or both.
#[derive(Clone, Copy, Debug, PartialEq, Eq, Structural)]
pub enum PlayStyle {
    Single,
    Double,
}

impl PlayStyle {
    /// Display text for the play style.
    pub fn name(&self) -> (r: &'static str)
        ensures
            *self is Single ==> r@ == "SP"@,
            *self is Double ==> r@ == "DP"@,
    {
        match self {
            PlayStyle::Single => "SP",
            PlayStyle::Double => "DP",
        }
    }
}

/// One music entry of the stats service's catalog.
#[derive(Clone, Debug)]
pub struct Music {
    pub id: String,
    pub artist: String,
    pub folder: u32,
    pub genre: String,
    pub title: String,
}

/// One play style's totals on a player profile.
#[derive(Clone, Debug)]
pub struct Score {
    pub dj_points: u32,
    pub plays: u32,
    pub rank: Option<String>,
}

/// A player profile: identity plus single- and double-play totals.
#[derive(Clone, Debug)]
pub struct Profile {
    pub id: String,
    pub dj_name: String,
    pub iidx_id: String,
    pub sp: Score,
    pub dp: Score,
}

/// How far a chart was cleared.
#[derive(Clone, Copy, Debug, PartialEq, Eq, Structural)]
pub enum Lamp {
    NoPlay,
    Failed,
    AssistClear,
    EasyClear,
    Clear,
    HardClear,
    ExHardClear,
    FullCombo,
}

impl Lamp {
    /// Display text for the lamp.
    pub fn name(&self) -> (r: &'static str)
        ensures
            *self is NoPlay ==> r@ == "NO PLAY"@,
            *self is Failed ==> r@ == "FAILED"@,
            *self is AssistClear ==> r@ == "ASSIST CLEAR"@,
            *self is EasyClear ==> r@ == "EASY CLEAR"@,
            *self is Clear ==> r@ == "CLEAR"@,
            *self is HardClear ==> r@ == "HARD CLEAR"@,
            *self is ExHardClear ==> r@ == "EX HARD CLEAR"@,
            *self is FullCombo ==> r@ == "FULL COMBO"@,
    {
        match self {
            Lamp::NoPlay => "NO PLAY",
            Lamp::Failed => "FAILED",
            Lamp::AssistClear => "ASSIST CLEAR",
            Lamp::EasyClear => "EASY CLEAR",
            Lamp::Clear => "CLEAR",
            Lamp::HardClear => "HARD CLEAR",
            Lamp::ExHardClear => "EX HARD CLEAR",
            Lamp::FullCombo => "FULL COMBO",
        }
    }
}

/// One row of a player's score history.
#[derive(Clone, Debug)]
pub struct ScoreHistory {
    pub id: String,
    pub chart_id: String,
    pub ex_score: u32,
    pub lamp: Lamp,
    pub miss_count: Option<u32>,
    pub music_id: String,
    pub profile_id: String,
    pub raised: bool,
    pub status: Lamp,
    pub timestamp: String,
}

} // verus!
