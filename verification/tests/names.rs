use arcmugbot::arcana::{Lamp, PlayStyle};
use arcmugbot::course::Difficulty;
use arcmugbot::record::Status;

#[test]
fn status_names() {
    assert_eq!(Status::Passed.name(), "Passed");
    assert_eq!(Status::Failed.name(), "Failed");
}

#[test]
fn difficulty_names() {
    assert_eq!(Difficulty::Easy.name(), "Easy");
    assert_eq!(Difficulty::Advanced.name(), "Advanced");
    assert_eq!(Difficulty::Expert.name(), "Expert");
    assert_eq!(Difficulty::Master.name(), "Master");
    assert_eq!(Difficulty::ReMaster.name(), "Re:Master");
}

#[test]
fn play_style_names() {
    assert_eq!(PlayStyle::Single.name(), "SP");
    assert_eq!(PlayStyle::Double.name(), "DP");
}

#[test]
fn lamp_names() {
    assert_eq!(Lamp::NoPlay.name(), "NO PLAY");
    assert_eq!(Lamp::Failed.name(), "FAILED");
    assert_eq!(Lamp::AssistClear.name(), "ASSIST CLEAR");
    assert_eq!(Lamp::EasyClear.name(), "EASY CLEAR");
    assert_eq!(Lamp::Clear.name(), "CLEAR");
    assert_eq!(Lamp::HardClear.name(), "HARD CLEAR");
    assert_eq!(Lamp::ExHardClear.name(), "EX HARD CLEAR");
    assert_eq!(Lamp::FullCombo.name(), "FULL COMBO");
}
