use std::collections::VecDeque;

use arcmugbot::course::{Course, Courses};
use arcmugbot::record::Status;
use arcmugbot::store::{CourseError, RecordStore};
use arcmugbot::submission::{default_rule, Results, Triple};

fn course(name: &str, life: u32, heal: u32) -> Course {
    Course { name: name.to_owned(), life, heal, songs: vec![] }
}

/// Level 1: life 500, heal 30. Level 2: life 900, no heal.
fn catalog() -> Courses {
    vec![course("Novice", 500, 30), course("Expert", 900, 0)]
}

fn results(triples: Vec<(u32, u32, u32)>) -> Results {
    VecDeque::from(
        triples
            .into_iter()
            .map(|(great, good, miss)| Triple { great, good, miss })
            .collect::<Vec<Triple>>(),
    )
}

/// On the level-2 course (life 900, heal 0) a single (0, 0, miss) triple
/// under the default rule costs 5 * miss life.
fn submit_expert(store: &mut RecordStore, id: u64, name: &str, miss: u32) {
    let courses = catalog();
    store
        .submit(id, name.to_owned(), 2, &courses, default_rule(), &results(vec![(0, 0, miss)]))
        .unwrap();
}

#[test]
fn submit_returns_course_data_and_record() {
    let courses = catalog();
    let mut store = RecordStore::new();
    let outcome = store
        .submit(7, "Alice".to_owned(), 1, &courses, default_rule(), &results(vec![(10, 3, 1)]))
        .unwrap();
    assert_eq!(outcome.course_name, "Novice");
    assert_eq!(outcome.course_life, 500);
    // 500 - 34 + 30 = 496, minus the final heal 466.
    assert_eq!(outcome.record.life, 466);
    assert_eq!(outcome.record.status, Status::Passed);
    assert_eq!(store.get_record(7, 1), Some(outcome.record));
}

#[test]
fn second_submission_overwrites_first() {
    let courses = catalog();
    let mut store = RecordStore::new();
    store
        .submit(7, "Alice".to_owned(), 2, &courses, default_rule(), &results(vec![(0, 0, 10)]))
        .unwrap();
    let second = store
        .submit(7, "Alice".to_owned(), 2, &courses, default_rule(), &results(vec![(0, 0, 20)]))
        .unwrap();
    assert_eq!(second.record.life, 800);
    // exactly one record for the pair, and it is the second one
    assert_eq!(store.get_record(7, 2), Some(second.record));
    let entries = store.entries();
    assert_eq!(entries.len(), 1);
    assert_eq!(entries[0].1.records.len(), 1);
    assert_eq!(entries[0].1.records[0], (2, second.record));
}

#[test]
fn submission_refreshes_display_name() {
    let mut store = RecordStore::new();
    submit_expert(&mut store, 7, "Old Name", 0);
    submit_expert(&mut store, 7, "New Name", 0);
    assert_eq!(store.entries()[0].1.fullname, "New Name");
}

#[test]
fn records_for_other_levels_survive_a_submit() {
    let courses = catalog();
    let mut store = RecordStore::new();
    let first = store
        .submit(7, "Alice".to_owned(), 1, &courses, default_rule(), &results(vec![]))
        .unwrap();
    submit_expert(&mut store, 7, "Alice", 10);
    assert_eq!(store.get_record(7, 1), Some(first.record));
    assert_eq!(store.get_record(7, 2).unwrap().life, 850);
}

#[test]
fn invalid_level_rejected_and_store_untouched() {
    let courses = catalog();
    let mut store = RecordStore::new();
    let err = store.submit(
        7,
        "Alice".to_owned(),
        0,
        &courses,
        default_rule(),
        &results(vec![]),
    );
    assert!(matches!(err, Err(CourseError::InvalidLevel)));
    let err = store.submit(
        7,
        "Alice".to_owned(),
        3,
        &courses,
        default_rule(),
        &results(vec![]),
    );
    assert!(matches!(err, Err(CourseError::InvalidLevel)));
    assert_eq!(store.entries().len(), 0);
    assert_eq!(store.rank(0, &courses), Err(CourseError::InvalidLevel));
    assert_eq!(store.rank(3, &courses), Err(CourseError::InvalidLevel));
}

#[test]
fn get_record_distinguishes_missing_user_and_level() {
    let mut store = RecordStore::new();
    submit_expert(&mut store, 7, "Alice", 0);
    assert_eq!(store.get_record(8, 2), None);
    assert_eq!(store.get_record(7, 1), None);
    assert!(store.get_record(7, 2).is_some());
}

#[test]
fn rank_excludes_failed_users() {
    let courses = catalog();
    let mut store = RecordStore::new();
    submit_expert(&mut store, 1, "Passer", 10); // 900 - 50 = 850, Passed
    submit_expert(&mut store, 2, "Failer", 200); // deduction 1000 > 900: Failed
    assert_eq!(store.get_record(2, 2).unwrap().status, Status::Failed);
    let ranking = store.rank(2, &courses).unwrap();
    assert_eq!(ranking, vec![("Passer".to_owned(), 850)]);
}

#[test]
fn rank_orders_descending_with_stable_ties() {
    let courses = catalog();
    let mut store = RecordStore::new();
    submit_expert(&mut store, 1, "A", 120); // 900 - 600 = 300
    submit_expert(&mut store, 2, "B", 0); // 900
    submit_expert(&mut store, 3, "C", 120); // 300, ties with A, submitted later
    submit_expert(&mut store, 4, "D", 200); // Failed with life 0
    let ranking = store.rank(2, &courses).unwrap();
    assert_eq!(
        ranking,
        vec![("B".to_owned(), 900), ("A".to_owned(), 300), ("C".to_owned(), 300)]
    );
}

#[test]
fn rank_with_no_records_is_empty() {
    let courses = catalog();
    let store = RecordStore::new();
    assert_eq!(store.rank(1, &courses).unwrap(), vec![]);
}

#[test]
fn list_passed_collects_course_names_per_user() {
    let courses = catalog();
    let mut store = RecordStore::new();
    // Alice passes both levels; Bob and Carol only fail level 2, so they
    // appear with empty lists.
    let alice_novice = store
        .submit(1, "Alice".to_owned(), 1, &courses, default_rule(), &results(vec![]))
        .unwrap();
    assert_eq!(alice_novice.record.status, Status::Passed);
    submit_expert(&mut store, 1, "Alice", 0);
    submit_expert(&mut store, 2, "Bob", 200);
    submit_expert(&mut store, 3, "Carol", 200);
    let listing = store.list_passed(&courses);
    assert_eq!(
        listing,
        vec![
            ("Alice".to_owned(), vec!["Novice".to_owned(), "Expert".to_owned()]),
            ("Bob".to_owned(), vec![]),
            ("Carol".to_owned(), vec![]),
        ]
    );
}

#[test]
fn from_entries_round_trips_and_rejects_duplicates() {
    let courses = catalog();
    let mut store = RecordStore::new();
    submit_expert(&mut store, 1, "Alice", 0);
    submit_expert(&mut store, 2, "Bob", 10);
    let entries = store.entries().clone();
    let rebuilt = RecordStore::from_entries(entries.clone()).unwrap();
    assert_eq!(rebuilt.get_record(2, 2), store.get_record(2, 2));
    assert_eq!(rebuilt.rank(2, &courses), store.rank(2, &courses));

    let mut dup = entries;
    let copy = dup[0].clone();
    dup.push(copy);
    assert!(RecordStore::from_entries(dup).is_none());
}
